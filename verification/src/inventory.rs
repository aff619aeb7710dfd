//! One user's inventory: the ungrouped tokens and the named, ordered groups.
//!
//! A group's rank is its position in the group list, so ranks are dense and
//! gap-free by construction.  No empty group survives an operation: every
//! mutating operation ends by sweeping empty groups away, which compacts the
//! ranks again.

use vstd::prelude::*;
use vstd::string::StrSliceExecFns;
use vstd::string::StringExecFns;

use crate::emoji::Emoji;
use crate::emojis_with_counts::EmojisWithCounts;

verus! {

/// The lesser of two counts.
pub open spec fn min_nat(a: nat, b: nat) -> nat {
    if a <= b {
        a
    } else {
        b
    }
}

/// Whether two characters are the same letter, ignoring ASCII case
/// (the folding the backing store applies to group names).
pub open spec fn char_eq_nocase(a: char, b: char) -> bool {
    ||| a == b
    ||| ('A' <= a <= 'Z' && b as int == a as int + 32)
    ||| ('A' <= b <= 'Z' && a as int == b as int + 32)
}

/// Whether two names are equal ignoring ASCII case.
pub open spec fn names_eq_nocase(a: Seq<char>, b: Seq<char>) -> bool {
    a.len() == b.len() && forall|i: int| 0 <= i < a.len() ==> char_eq_nocase(a[i], b[i])
}

/// Compares two names for equality ignoring ASCII case.
pub fn str_eq_nocase(a: &str, b: &str) -> (r: bool)
    ensures
        r == names_eq_nocase(a@, b@),
{
    let n = a.unicode_len();
    if n != b.unicode_len() {
        return false;
    }
    let mut i: usize = 0;
    while i < n
        invariant
            i <= n,
            n == a@.len(),
            n == b@.len(),
            forall|k: int| 0 <= k < i ==> char_eq_nocase(a@[k], b@[k]),
        decreases n - i,
    {
        let ca = a.get_char(i);
        let cb = b.get_char(i);
        let ka = ca as u32;
        let kb = cb as u32;
        let fa = if ka >= 65 && ka <= 90 {
            ka + 32
        } else {
            ka
        };
        let fb = if kb >= 65 && kb <= 90 {
            kb + 32
        } else {
            kb
        };
        if fa != fb {
            proof {
                assert('A' as int == 65 && 'Z' as int == 90);
                assert(!char_eq_nocase(ca, cb));
            }
            return false;
        }
        proof {
            assert('A' as int == 65 && 'Z' as int == 90);
            assert(char_eq_nocase(ca, cb));
        }
        i = i + 1;
    }
    true
}

/// Where the element at position `i` of a group list came from, after the
/// element at `j` was taken out and put back in at `k`.
pub open spec fn moved_from(len: int, j: int, k: int, i: int) -> int {
    if i == k {
        j
    } else {
        let r = if i < k {
            i
        } else {
            i - 1
        };
        if r < j {
            r
        } else {
            r + 1
        }
    }
}

/// Taking the element at `j` out and putting it back in at `k` permutes the
/// list by the index map `moved_from`, which is injective.
pub proof fn lemma_move_element(gs: Seq<GroupData>, j: int, k: int)
    requires
        0 <= j < gs.len(),
        0 <= k < gs.len(),
    ensures
        gs.remove(j).insert(k, gs[j]).len() == gs.len(),
        forall|i: int|
            0 <= i < gs.len() ==> #[trigger] gs.remove(j).insert(k, gs[j])[i] == gs[moved_from(
                gs.len() as int,
                j,
                k,
                i,
            )],
        forall|i: int|
            0 <= i < gs.len() ==> 0 <= #[trigger] moved_from(gs.len() as int, j, k, i) < gs.len(),
        forall|i1: int, i2: int|
            0 <= i1 < i2 < gs.len() ==> #[trigger] moved_from(gs.len() as int, j, k, i1)
                != #[trigger] moved_from(gs.len() as int, j, k, i2),
{
    let rem = gs.remove(j);
    let t = rem.insert(k, gs[j]);
    assert forall|i: int| 0 <= i < gs.len() implies #[trigger] t[i] == gs[moved_from(
        gs.len() as int,
        j,
        k,
        i,
    )] by {
        if i < k {
            assert(t[i] == rem[i]);
        } else if i == k {
            assert(t[i] == gs[j]);
        } else {
            assert(t[i] == rem[i - 1]);
        }
    }
}

/// Case-insensitive name equality is symmetric.
pub proof fn lemma_names_nocase_sym(a: Seq<char>, b: Seq<char>)
    ensures
        names_eq_nocase(a, b) == names_eq_nocase(b, a),
{
    if names_eq_nocase(a, b) {
        assert forall|i: int| 0 <= i < b.len() implies char_eq_nocase(b[i], a[i]) by {
            assert(char_eq_nocase(a[i], b[i]));
        }
    }
    if names_eq_nocase(b, a) {
        assert forall|i: int| 0 <= i < a.len() implies char_eq_nocase(a[i], b[i]) by {
            assert(char_eq_nocase(b[i], a[i]));
        }
    }
}

/// Case-insensitive name equality carries over shared matches.
pub proof fn lemma_names_nocase_trans(a: Seq<char>, b: Seq<char>, c: Seq<char>)
    requires
        names_eq_nocase(a, c),
        names_eq_nocase(b, c),
    ensures
        names_eq_nocase(a, b),
{
    assert forall|i: int| 0 <= i < a.len() implies char_eq_nocase(a[i], b[i]) by {
        assert(char_eq_nocase(a[i], c[i]));
        assert(char_eq_nocase(b[i], c[i]));
    }
}

/// Why a group could not be renamed.
#[derive(Debug, PartialEq, Eq)]
pub enum RenameGroupError {
    NoSuchGroup,
    NameTaken(String),
}

/// Where a repositioned group ended up, for the caller's message.
#[derive(Debug, PartialEq, Eq)]
pub enum RepositionOutcome {
    MovedToFront,
    MovedToBack,
    MovedBetween(String, String),
    DidNotMove,
}

/// A named group of tokens.
pub struct GroupData {
    pub name: String,
    pub contents: EmojisWithCounts,
}

impl GroupData {
    /// An identical copy.
    pub fn duplicate(&self) -> (r: GroupData)
        ensures
            r.name@ == self.name@,
            r.contents.entries() == self.contents.entries(),
    {
        GroupData { name: self.name.clone(), contents: self.contents.duplicate() }
    }
}

/// How many units of ordinal `e` the groups `gs` hold together.
pub open spec fn groups_count(gs: Seq<GroupData>, e: int) -> nat
    decreases gs.len(),
{
    if gs.len() == 0 {
        0
    } else {
        groups_count(gs.drop_last(), e) + gs.last().contents.count_of(e)
    }
}

/// How many units the groups `gs` hold in all.
pub open spec fn groups_total(gs: Seq<GroupData>) -> nat
    decreases gs.len(),
{
    if gs.len() == 0 {
        0
    } else {
        groups_total(gs.drop_last()) + gs.last().contents.total()
    }
}

/// What the group at rank `i` holds of token `e` after a draw of `c` units
/// that drains the least prioritised (highest-ranked) groups first: the
/// groups ranked after `i` give first, and group `i` loses only what they
/// could not cover.
pub open spec fn count_after_draw(gs: Seq<GroupData>, i: int, e: int, c: nat) -> nat {
    let suffix = groups_count(gs, e) - groups_count(gs.take(i + 1), e);
    let wanted: int = if c <= suffix {
        0
    } else {
        c - suffix
    };
    (gs[i].contents.count_of(e) - min_nat(wanted as nat, gs[i].contents.count_of(e))) as nat
}

/// A draw of nothing leaves every group's holding unchanged.
pub proof fn lemma_draw_zero(gs: Seq<GroupData>, g: int, e: int)
    requires
        0 <= g < gs.len(),
    ensures
        count_after_draw(gs, g, e, 0) == gs[g].contents.count_of(e),
{
    lemma_groups_count_take_le(gs, g + 1, e);
}

/// Group lists that agree on a token's count in every group hold the same
/// aggregate of that token.
pub proof fn lemma_groups_count_congruent(a: Seq<GroupData>, b: Seq<GroupData>, e: int)
    requires
        a.len() == b.len(),
        forall|i: int|
            0 <= i < a.len() ==> (#[trigger] a[i]).contents.count_of(e)
                == (#[trigger] b[i]).contents.count_of(e),
    ensures
        groups_count(a, e) == groups_count(b, e),
    decreases a.len(),
{
    if a.len() > 0 {
        assert(a[a.len() - 1].contents.count_of(e) == b[a.len() - 1].contents.count_of(e));
        lemma_groups_count_congruent(a.drop_last(), b.drop_last(), e);
    }
}

/// Every element of a filtered group list is an element of the original.
pub proof fn lemma_filter_origin(s: Seq<GroupData>, pred: spec_fn(GroupData) -> bool, k: int)
    requires
        0 <= k < s.filter(pred).len(),
    ensures
        exists|m: int| 0 <= m < s.len() && #[trigger] s[m] == s.filter(pred)[k],
    decreases s.len(),
{
    reveal(Seq::filter);
    if s.len() > 0 {
        let sub = s.drop_last().filter(pred);
        if pred(s.last()) && k == s.filter(pred).len() - 1 {
            assert(s[s.len() - 1] == s.filter(pred)[k]);
        } else {
            lemma_filter_origin(s.drop_last(), pred, k);
            let m = choose|m: int|
                0 <= m < s.drop_last().len() && #[trigger] s.drop_last()[m] == sub[k];
            assert(s[m] == s.filter(pred)[k]);
        }
    }
}

pub proof fn lemma_groups_count_update(gs: Seq<GroupData>, j: int, x: GroupData, e: int)
    requires
        0 <= j < gs.len(),
    ensures
        groups_count(gs.update(j, x), e) == groups_count(gs, e) + x.contents.count_of(e)
            - gs[j].contents.count_of(e),
    decreases gs.len(),
{
    if j == gs.len() - 1 {
        assert(gs.update(j, x).drop_last() =~= gs.drop_last());
    } else {
        assert(gs.update(j, x).drop_last() =~= gs.drop_last().update(j, x));
        lemma_groups_count_update(gs.drop_last(), j, x, e);
    }
}

pub proof fn lemma_groups_total_update(gs: Seq<GroupData>, j: int, x: GroupData)
    requires
        0 <= j < gs.len(),
    ensures
        groups_total(gs.update(j, x)) == groups_total(gs) + x.contents.total()
            - gs[j].contents.total(),
    decreases gs.len(),
{
    if j == gs.len() - 1 {
        assert(gs.update(j, x).drop_last() =~= gs.drop_last());
    } else {
        assert(gs.update(j, x).drop_last() =~= gs.drop_last().update(j, x));
        lemma_groups_total_update(gs.drop_last(), j, x);
    }
}

pub proof fn lemma_groups_count_insert(gs: Seq<GroupData>, j: int, x: GroupData, e: int)
    requires
        0 <= j <= gs.len(),
    ensures
        groups_count(gs.insert(j, x), e) == groups_count(gs, e) + x.contents.count_of(e),
    decreases gs.len(),
{
    if j == gs.len() {
        assert(gs.insert(j, x).drop_last() =~= gs);
        assert(gs.insert(j, x).last() == x);
    } else {
        assert(gs.insert(j, x).drop_last() =~= gs.drop_last().insert(j, x));
        assert(gs.insert(j, x).last() == gs.last());
        lemma_groups_count_insert(gs.drop_last(), j, x, e);
    }
}

pub proof fn lemma_groups_total_insert(gs: Seq<GroupData>, j: int, x: GroupData)
    requires
        0 <= j <= gs.len(),
    ensures
        groups_total(gs.insert(j, x)) == groups_total(gs) + x.contents.total(),
    decreases gs.len(),
{
    if j == gs.len() {
        assert(gs.insert(j, x).drop_last() =~= gs);
        assert(gs.insert(j, x).last() == x);
    } else {
        assert(gs.insert(j, x).drop_last() =~= gs.drop_last().insert(j, x));
        assert(gs.insert(j, x).last() == gs.last());
        lemma_groups_total_insert(gs.drop_last(), j, x);
    }
}

pub proof fn lemma_groups_count_remove(gs: Seq<GroupData>, j: int, e: int)
    requires
        0 <= j < gs.len(),
    ensures
        groups_count(gs.remove(j), e) == groups_count(gs, e) - gs[j].contents.count_of(e),
    decreases gs.len(),
{
    if j == gs.len() - 1 {
        assert(gs.remove(j) =~= gs.drop_last());
    } else {
        assert(gs.remove(j).drop_last() =~= gs.drop_last().remove(j));
        assert(gs.remove(j).last() == gs.last());
        lemma_groups_count_remove(gs.drop_last(), j, e);
    }
}

pub proof fn lemma_groups_total_remove(gs: Seq<GroupData>, j: int)
    requires
        0 <= j < gs.len(),
    ensures
        groups_total(gs.remove(j)) == groups_total(gs) - gs[j].contents.total(),
    decreases gs.len(),
{
    if j == gs.len() - 1 {
        assert(gs.remove(j) =~= gs.drop_last());
    } else {
        assert(gs.remove(j).drop_last() =~= gs.drop_last().remove(j));
        assert(gs.remove(j).last() == gs.last());
        lemma_groups_total_remove(gs.drop_last(), j);
    }
}

/// A group's own count never exceeds the count over all groups.
pub proof fn lemma_group_le_groups_count(gs: Seq<GroupData>, j: int, e: int)
    requires
        0 <= j < gs.len(),
    ensures
        gs[j].contents.count_of(e) <= groups_count(gs, e),
    decreases gs.len(),
{
    if j < gs.len() - 1 {
        lemma_group_le_groups_count(gs.drop_last(), j, e);
    }
}

/// A group's own total never exceeds the total over all groups.
pub proof fn lemma_group_le_groups_total(gs: Seq<GroupData>, j: int)
    requires
        0 <= j < gs.len(),
    ensures
        gs[j].contents.total() <= groups_total(gs),
    decreases gs.len(),
{
    if j < gs.len() - 1 {
        lemma_group_le_groups_total(gs.drop_last(), j);
    }
}

pub proof fn lemma_groups_count_le_total(gs: Seq<GroupData>, e: int)
    ensures
        groups_count(gs, e) <= groups_total(gs),
    decreases gs.len(),
{
    if gs.len() > 0 {
        lemma_groups_count_le_total(gs.drop_last(), e);
        crate::emojis_with_counts::lemma_count_le_total(gs.last().contents.entries(), e);
    }
}

/// A prefix of the groups holds no more of any one token than the whole.
pub proof fn lemma_groups_count_take_le(gs: Seq<GroupData>, i: int, e: int)
    requires
        0 <= i <= gs.len(),
    ensures
        groups_count(gs.take(i), e) <= groups_count(gs, e),
    decreases gs.len(),
{
    if i == gs.len() {
        assert(gs.take(i) =~= gs);
    } else {
        assert(gs.take(i) =~= gs.drop_last().take(i));
        lemma_groups_count_take_le(gs.drop_last(), i, e);
    }
}

/// Dropping groups that hold nothing changes no count and no total.
pub proof fn lemma_groups_filter_counts(gs: Seq<GroupData>, e: int)
    ensures
        groups_count(gs.filter(|g: GroupData| g.contents.entries().len() > 0), e) == groups_count(
            gs,
            e,
        ),
        groups_total(gs.filter(|g: GroupData| g.contents.entries().len() > 0)) == groups_total(gs),
    decreases gs.len(),
{
    reveal(Seq::filter);
    if gs.len() > 0 {
        lemma_groups_filter_counts(gs.drop_last(), e);
        let sub = gs.drop_last().filter(|g: GroupData| g.contents.entries().len() > 0);
        if gs.last().contents.entries().len() > 0 {
            let whole = gs.filter(|g: GroupData| g.contents.entries().len() > 0);
            assert(whole == sub.push(gs.last()));
            assert(whole.drop_last() =~= sub);
            assert(whole.last() == gs.last());
        } else {
            assert(gs.filter(|g: GroupData| g.contents.entries().len() > 0) == sub);
            assert(gs.last().contents.count_of(e) == 0);
            assert(gs.last().contents.total() == 0);
        }
    }
}

/// Groups that are all non-empty are no more numerous than the units they hold.
pub proof fn lemma_groups_len_le_total(gs: Seq<GroupData>)
    requires
        forall|i: int|
            0 <= i < gs.len() ==> (#[trigger] gs[i]).contents.wf()
                && gs[i].contents.entries().len() > 0,
    ensures
        gs.len() <= groups_total(gs),
    decreases gs.len(),
{
    if gs.len() > 0 {
        lemma_groups_len_le_total(gs.drop_last());
        let gc = gs.last().contents;
        assert(gs[gs.len() - 1] == gs.last());
        assert(gc.entries()[gc.entries().len() - 1].1 >= 1);
        assert(gc.total() >= gc.entries().last().1);
    }
}

/// One user's inventory: the tokens they own, split into the ungrouped pool
/// and the named groups, whose order is their priority ranking.
pub struct UserInventory {
    pub user: u64,
    pub groups: Vec<GroupData>,
    pub ungrouped: EmojisWithCounts,
}

impl UserInventory {
    /// How many units of ordinal `e` the user owns, over all groups and the
    /// ungrouped pool.
    pub open spec fn count_of(self, e: int) -> nat {
        self.ungrouped.count_of(e) + groups_count(self.groups@, e)
    }

    /// How many units the user owns in all.
    pub open spec fn total(self) -> nat {
        self.ungrouped.total() + groups_total(self.groups@)
    }

    /// Structural well-formedness, except that groups may be empty: this is
    /// the state in the middle of an operation, before the empty-group sweep.
    pub open spec fn base_wf(self) -> bool {
        &&& self.ungrouped.wf()
        &&& forall|i: int| 0 <= i < self.groups@.len() ==> (#[trigger] self.groups@[i]).contents.wf()
        &&& forall|i: int, j: int|
            0 <= i < j < self.groups@.len() ==> !names_eq_nocase(
                (#[trigger] self.groups@[i]).name@,
                (#[trigger] self.groups@[j]).name@,
            )
    }

    /// Well-formed at rest: additionally, no group is empty.
    pub open spec fn wf(self) -> bool {
        &&& self.base_wf()
        &&& forall|i: int|
            0 <= i < self.groups@.len() ==> (#[trigger] self.groups@[i]).contents.entries().len()
                > 0
    }

    /// Whether the user has a group of this name, ignoring ASCII case.
    pub open spec fn has_group(self, name: Seq<char>) -> bool {
        exists|i: int|
            0 <= i < self.groups@.len() && names_eq_nocase(
                (#[trigger] self.groups@[i]).name@,
                name,
            )
    }

    /// The position of the group whose name matches `name` ignoring ASCII
    /// case; meaningful only when `has_group(name)` holds, since group names
    /// are unique up to case.
    pub open spec fn group_index_of(self, name: Seq<char>) -> int {
        choose|i: int|
            0 <= i < self.groups@.len() && names_eq_nocase(
                (#[trigger] self.groups@[i]).name@,
                name,
            )
    }

    /// An inventory with nothing in it.
    pub fn empty(user: u64) -> (r: UserInventory)
        ensures
            r.wf(),
            r.user == user,
            r.groups@.len() == 0,
            forall|e: int| r.count_of(e) == 0,
            r.total() == 0,
    {
        UserInventory { user, groups: Vec::new(), ungrouped: EmojisWithCounts::empty() }
    }

    /// The position of the group with this name, ignoring ASCII case.
    pub fn find_group(&self, name: &str) -> (r: Option<usize>)
        ensures
            match r {
                Some(j) => j < self.groups@.len() && names_eq_nocase(self.groups@[j as int].name@, name@),
                None => !self.has_group(name@),
            },
    {
        let mut j: usize = 0;
        while j < self.groups.len()
            invariant
                j <= self.groups@.len(),
                forall|k: int|
                    0 <= k < j ==> !names_eq_nocase((#[trigger] self.groups@[k]).name@, name@),
            decreases self.groups@.len() - j,
        {
            if str_eq_nocase(self.groups[j].name.as_str(), name) {
                return Some(j);
            }
            j = j + 1;
        }
        None
    }

    /// Deletes every group that holds nothing, keeping the others in order:
    /// the ranks close up again by construction.
    pub fn remove_empty_groups(&mut self)
        requires
            old(self).base_wf(),
        ensures
            final(self).wf(),
            final(self).user == old(self).user,
            final(self).ungrouped == old(self).ungrouped,
            final(self).groups@ == old(self).groups@.filter(
                |g: GroupData| g.contents.entries().len() > 0,
            ),
            forall|e: int| final(self).count_of(e) == old(self).count_of(e),
            final(self).total() == old(self).total(),
            forall|n: Seq<char>|
                #[trigger] final(self).has_group(n) <==> exists|i: int|
                    0 <= i < old(self).groups@.len() && names_eq_nocase(
                        (#[trigger] old(self).groups@[i]).name@,
                        n,
                    ) && old(self).groups@[i].contents.entries().len() > 0,
    {
        reveal(Seq::filter);
        let ghost orig = self.groups@;
        let ghost p = |g: GroupData| g.contents.entries().len() > 0;
        let mut kept: Vec<GroupData> = Vec::new();
        let mut remaining: usize = self.groups.len();
        while remaining > 0
            invariant
                remaining == self.groups@.len(),
                remaining <= orig.len(),
                self.groups@ =~= orig.skip((orig.len() - remaining) as int),
                kept@ == orig.take((orig.len() - remaining) as int).filter(p),
                p == (|g: GroupData| g.contents.entries().len() > 0),
                self.user == old(self).user,
                self.ungrouped == old(self).ungrouped,
                orig == old(self).groups@,
                old(self).base_wf(),
                forall|i2: int|
                    0 <= i2 < kept@.len() ==> exists|m: int|
                        0 <= m < orig.len() - remaining && #[trigger] kept@[i2] == orig[m],
                forall|i2: int, j2: int|
                    0 <= i2 < j2 < kept@.len() ==> !names_eq_nocase(
                        (#[trigger] kept@[i2]).name@,
                        (#[trigger] kept@[j2]).name@,
                    ),
                forall|i2: int|
                    0 <= i2 < kept@.len() ==> (#[trigger] kept@[i2]).contents.wf()
                        && kept@[i2].contents.entries().len() > 0,
            decreases remaining,
        {
            let ghost done = orig.len() - remaining;
            let g = self.groups.remove(0);
            proof {
                assert(g == orig[done as int]);
                assert(self.groups@ =~= orig.skip(done + 1));
                assert(orig.take(done + 1).drop_last() =~= orig.take(done as int));
                assert(orig.take(done + 1).last() == orig[done as int]);
            }
            if g.contents.unique_emoji_count() > 0 {
                let ghost kept_pre = kept@;
                proof {
                    assert forall|i2: int| 0 <= i2 < kept_pre.len() implies !names_eq_nocase(
                        (#[trigger] kept_pre[i2]).name@,
                        g.name@,
                    ) by {
                        let m = choose|m: int|
                            0 <= m < done && #[trigger] kept_pre[i2] == orig[m];
                        assert(!names_eq_nocase(orig[m].name@, orig[done as int].name@));
                    }
                }
                kept.push(g);
                proof {
                    reveal(Seq::filter);
                    assert(p(orig.take(done + 1).last()));
                    assert(orig.take(done + 1).filter(p) == orig.take(done as int).filter(p).push(
                        orig.take(done + 1).last(),
                    ));
                    assert(kept@ =~= orig.take(done + 1).filter(p));
                    assert forall|i2: int| 0 <= i2 < kept@.len() implies exists|m: int|
                        0 <= m < done + 1 && #[trigger] kept@[i2] == orig[m] by {
                        if i2 < kept_pre.len() {
                            let m = choose|m: int|
                                0 <= m < done && #[trigger] kept_pre[i2] == orig[m];
                            assert(kept@[i2] == orig[m]);
                        } else {
                            assert(kept@[i2] == orig[done as int]);
                        }
                    }
                }
            } else {
                proof {
                    reveal(Seq::filter);
                    assert(!p(orig.take(done + 1).last()));
                    assert(orig.take(done + 1).filter(p) == orig.take(done as int).filter(p));
                    assert(kept@ =~= orig.take(done + 1).filter(p));
                }
            }
            remaining = remaining - 1;
        }
        let ghost kv = kept@;
        self.groups = kept;
        proof {
            assert(orig.take(orig.len() as int) =~= orig);
            assert(final(self).groups@ == orig.filter(p));
            assert forall|e: int| final(self).count_of(e) == old(self).count_of(e) by {
                lemma_groups_filter_counts(orig, e);
            }
            lemma_groups_filter_counts(orig, 0);
            assert forall|n: Seq<char>| #[trigger] final(self).has_group(n) implies exists|i: int|
                0 <= i < orig.len() && names_eq_nocase((#[trigger] orig[i]).name@, n)
                    && orig[i].contents.entries().len() > 0 by {
                let i2 = choose|i2: int|
                    0 <= i2 < final(self).groups@.len() && names_eq_nocase(
                        (#[trigger] final(self).groups@[i2]).name@,
                        n,
                    );
                let m = choose|m: int| 0 <= m < orig.len() && #[trigger] kv[i2] == orig[m];
                assert(names_eq_nocase(orig[m].name@, n));
                assert(orig[m].contents.entries().len() > 0);
            }
            assert forall|n: Seq<char>|
                (exists|i: int|
                    0 <= i < orig.len() && names_eq_nocase((#[trigger] orig[i]).name@, n)
                        && orig[i].contents.entries().len() > 0) implies #[trigger] final(self).has_group(n) by {
                let i = choose|i: int|
                    0 <= i < orig.len() && names_eq_nocase((#[trigger] orig[i]).name@, n)
                        && orig[i].contents.entries().len() > 0;
                orig.lemma_filter_contains(p, i);
                let k = choose|k: int|
                    0 <= k < orig.filter(p).len() && #[trigger] orig.filter(p)[k] == orig[i];
                assert(names_eq_nocase(final(self).groups@[k].name@, n));
            }
        }
    }

    /// Takes up to `c` units of ordinal `idx` out of the groups, starting at
    /// the group with the highest rank number (the least prioritised one).
    /// Returns how many were taken.  May leave groups empty.
    pub fn take_from_groups(&mut self, idx: usize, c: u32) -> (taken: u32)
        requires
            old(self).base_wf(),
        ensures
            final(self).base_wf(),
            final(self).user == old(self).user,
            final(self).ungrouped == old(self).ungrouped,
            taken == min_nat(c as nat, groups_count(old(self).groups@, idx as int)),
            groups_count(final(self).groups@, idx as int) == groups_count(
                old(self).groups@,
                idx as int,
            ) - taken,
            forall|x: int|
                x != idx ==> groups_count(final(self).groups@, x) == groups_count(
                    old(self).groups@,
                    x,
                ),
            groups_total(final(self).groups@) == groups_total(old(self).groups@) - taken,
            final(self).groups@.len() == old(self).groups@.len(),
            forall|i: int|
                0 <= i < final(self).groups@.len() ==> (#[trigger] final(self).groups@[i]).name@
                    == old(self).groups@[i].name@,
            forall|i: int, x: int|
                0 <= i < final(self).groups@.len() && x != idx ==> #[trigger] final(self).groups@[i].contents.count_of(x) == old(self).groups@[i].contents.count_of(x),
            forall|i: int|
                0 <= i < final(self).groups@.len() ==> (
                #[trigger] final(self).groups@[i]).contents.count_of(idx as int) <= old(self).groups@[i].contents.count_of(idx as int),
            forall|i: int|
                0 <= i < final(self).groups@.len() ==> (
                #[trigger] final(self).groups@[i]).contents.count_of(idx as int)
                    == count_after_draw(old(self).groups@, i, idx as int, c as nat),
    {
        let ghost orig = self.groups@;
        proof {
            assert(orig.take(orig.len() as int) =~= orig);
        }
        let mut taken: u32 = 0;
        let mut k: usize = self.groups.len();
        while k > 0
            invariant
                k <= self.groups@.len(),
                self.base_wf(),
                self.user == old(self).user,
                self.ungrouped == old(self).ungrouped,
                self.groups@.len() == orig.len(),
                orig == old(self).groups@,
                self.groups@.take(k as int) == orig.take(k as int),
                taken <= c,
                groups_count(orig.take(k as int), idx as int) <= groups_count(orig, idx as int),
                taken == min_nat(
                    c as nat,
                    (groups_count(orig, idx as int) - groups_count(
                        orig.take(k as int),
                        idx as int,
                    )) as nat,
                ),
                groups_count(self.groups@, idx as int) == groups_count(orig, idx as int) - taken,
                forall|x: int|
                    x != idx ==> groups_count(self.groups@, x) == groups_count(orig, x),
                groups_total(self.groups@) == groups_total(orig) - taken,
                forall|i: int|
                    0 <= i < self.groups@.len() ==> (#[trigger] self.groups@[i]).name@
                        == orig[i].name@,
                forall|i: int, x: int|
                    0 <= i < self.groups@.len() && x != idx
                        ==> #[trigger] self.groups@[i].contents.count_of(x)
                        == orig[i].contents.count_of(x),
                forall|i: int|
                    0 <= i < self.groups@.len() ==> (
                    #[trigger] self.groups@[i]).contents.count_of(idx as int)
                        <= orig[i].contents.count_of(idx as int),
                forall|i: int|
                    k <= i < self.groups@.len() ==> (
                    #[trigger] self.groups@[i]).contents.count_of(idx as int)
                        == count_after_draw(orig, i, idx as int, c as nat),
            decreases k,
        {
            k = k - 1;
            let ghost pre = self.groups@;
            let mut g = self.groups.remove(k);
            proof {
                assert(pre.take(k + 1)[k as int] == pre[k as int]);
                assert(orig.take(k + 1)[k as int] == orig[k as int]);
                assert(g == orig[k as int]);
            }
            let t = g.contents.take_up_to(idx, c - taken);
            self.groups.insert(k, g);
            proof {
                let cur = self.groups@;
                assert(cur =~= pre.update(k as int, cur[k as int]));
                lemma_groups_count_update(pre, k as int, cur[k as int], idx as int);
                lemma_groups_total_update(pre, k as int, cur[k as int]);
                assert forall|x: int| x != idx implies groups_count(cur, x) == groups_count(
                    pre,
                    x,
                ) by {
                    lemma_groups_count_update(pre, k as int, cur[k as int], x);
                }
                assert(cur.take(k as int) =~= pre.take(k as int));
                assert(pre.take(k as int) =~= orig.take(k as int));
                assert(orig.take(k + 1).drop_last() =~= orig.take(k as int));
                assert(orig.take(k + 1).last() == orig[k as int]);
                lemma_groups_count_take_le(orig, k as int, idx as int);
                lemma_groups_count_take_le(orig, k + 1, idx as int);
                assert(cur[k as int].contents.count_of(idx as int) == count_after_draw(
                    orig,
                    k as int,
                    idx as int,
                    c as nat,
                )) by {
                    assert(groups_count(orig.take(k + 1), idx as int) == groups_count(
                        orig.take(k as int),
                        idx as int,
                    ) + orig[k as int].contents.count_of(idx as int));
                }
                assert forall|i2: int|
                    k <= i2 < cur.len() implies (#[trigger] cur[i2]).contents.count_of(
                    idx as int,
                ) == count_after_draw(orig, i2, idx as int, c as nat) by {
                    if i2 > k {
                        assert(cur[i2] == pre[i2]);
                    }
                }
            }
            taken = taken + t;
        }
        proof {
            assert(orig.take(0) =~= Seq::<GroupData>::empty());
        }
        taken
    }

    /// Adds `c` ungrouped units of `e` to the inventory.
    pub fn receive_units(&mut self, e: Emoji, c: u32)
        requires
            old(self).base_wf(),
            old(self).total() + c <= u32::MAX,
        ensures
            final(self).base_wf(),
            old(self).wf() ==> final(self).wf(),
            final(self).user == old(self).user,
            final(self).groups@ == old(self).groups@,
            final(self).count_of(e.idx()) == old(self).count_of(e.idx()) + c,
            forall|x: int| x != e.idx() ==> final(self).count_of(x) == old(self).count_of(x),
            final(self).total() == old(self).total() + c,
            final(self).ungrouped.count_of(e.idx()) == old(self).ungrouped.count_of(e.idx()) + c,
            forall|x: int|
                x != e.idx() ==> final(self).ungrouped.count_of(x) == old(
                    self,
                ).ungrouped.count_of(x),
    {
        self.ungrouped.add(e, c);
    }

    /// Takes up to `c` units of ordinal `idx` out of the inventory: first out
    /// of the groups, least prioritised first, and out of the ungrouped pool
    /// last.  Returns how many were taken.  May leave groups empty.
    pub fn consume_units(&mut self, idx: usize, c: u32) -> (taken: u32)
        requires
            old(self).base_wf(),
        ensures
            final(self).base_wf(),
            final(self).user == old(self).user,
            taken == min_nat(c as nat, old(self).count_of(idx as int)),
            final(self).count_of(idx as int) == old(self).count_of(idx as int) - taken,
            forall|x: int| x != idx ==> final(self).count_of(x) == old(self).count_of(x),
            final(self).total() == old(self).total() - taken,
            final(self).groups@.len() == old(self).groups@.len(),
            forall|i: int|
                0 <= i < final(self).groups@.len() ==> (#[trigger] final(self).groups@[i]).name@
                    == old(self).groups@[i].name@,
            forall|i: int, x: int|
                0 <= i < final(self).groups@.len() && x != idx
                    ==> #[trigger] final(self).groups@[i].contents.count_of(x)
                    == old(self).groups@[i].contents.count_of(x),
            forall|i: int|
                0 <= i < final(self).groups@.len() ==> (
                #[trigger] final(self).groups@[i]).contents.count_of(idx as int)
                    == count_after_draw(old(self).groups@, i, idx as int, c as nat),
            final(self).ungrouped.count_of(idx as int) == old(self).ungrouped.count_of(idx as int)
                - min_nat(
                (c as nat - min_nat(c as nat, groups_count(old(self).groups@, idx as int))) as nat,
                old(self).ungrouped.count_of(idx as int),
            ),
            forall|x: int|
                x != idx ==> final(self).ungrouped.count_of(x) == old(self).ungrouped.count_of(x),
    {
        let t1 = self.take_from_groups(idx, c);
        let t2 = self.ungrouped.take_up_to(idx, c - t1);
        t1 + t2
    }

    /// How many units of ordinal `idx` the user owns, over all groups and the
    /// ungrouped pool.
    pub fn count_of_emoji(&self, idx: usize) -> (r: u64)
        requires
            self.base_wf(),
            self.total() <= u32::MAX,
        ensures
            r == self.count_of(idx as int),
    {
        let mut sum: u64 = self.ungrouped.count_of_emoji(idx) as u64;
        proof {
            crate::emojis_with_counts::lemma_count_le_total(self.ungrouped.entries(), idx as int);
            assert(self.groups@.take(0) =~= Seq::<GroupData>::empty());
        }
        let mut k: usize = 0;
        while k < self.groups.len()
            invariant
                k <= self.groups@.len(),
                self.base_wf(),
                self.total() <= u32::MAX,
                sum == self.ungrouped.count_of(idx as int) + groups_count(
                    self.groups@.take(k as int),
                    idx as int,
                ),
                sum <= self.total(),
            decreases self.groups@.len() - k,
        {
            proof {
                assert(self.groups@.take(k + 1).drop_last() =~= self.groups@.take(k as int));
                assert(self.groups@.take(k + 1).last() == self.groups@[k as int]);
                lemma_groups_count_take_le(self.groups@, k + 1, idx as int);
                lemma_groups_count_le_total(self.groups@, idx as int);
                crate::emojis_with_counts::lemma_count_le_total(
                    self.ungrouped.entries(),
                    idx as int,
                );
                crate::emojis_with_counts::lemma_count_le_total(
                    self.groups@[k as int].contents.entries(),
                    idx as int,
                );
            }
            sum = sum + self.groups[k].contents.count_of_emoji(idx) as u64;
            k = k + 1;
        }
        proof {
            assert(self.groups@.take(self.groups@.len() as int) =~= self.groups@);
        }
        sum
    }

    /// How many units the user owns in all, over groups and the pool.
    pub fn total_units(&self) -> (r: u64)
        requires
            self.base_wf(),
            self.total() <= u32::MAX,
        ensures
            r == self.total(),
    {
        proof {
            assert(self.groups@.take(0) =~= Seq::<GroupData>::empty());
        }
        let mut sum: u64 = self.ungrouped.emoji_count() as u64;
        let mut k: usize = 0;
        while k < self.groups.len()
            invariant
                k <= self.groups@.len(),
                self.base_wf(),
                self.total() <= u32::MAX,
                sum == self.ungrouped.total() + groups_total(self.groups@.take(k as int)),
                sum <= self.total(),
            decreases self.groups@.len() - k,
        {
            proof {
                assert(self.groups@.take(k + 1).drop_last() =~= self.groups@.take(k as int));
                assert(self.groups@.take(k + 1).last() == self.groups@[k as int]);
                crate::ledger::lemma_groups_total_take_le(self.groups@, k + 1);
                lemma_group_le_groups_total(self.groups@, k as int);
            }
            sum = sum + self.groups[k].contents.emoji_count() as u64;
            k = k + 1;
        }
        proof {
            assert(self.groups@.take(self.groups@.len() as int) =~= self.groups@);
        }
        sum
    }

    /// Whether the user owns at least the given multiset, count for count.
    pub fn owns_at_least(&self, emojis: &EmojisWithCounts) -> (r: bool)
        requires
            self.base_wf(),
            self.total() <= u32::MAX,
            emojis.wf(),
        ensures
            r == forall|e: int| emojis.count_of(e) <= self.count_of(e),
    {
        let entries = emojis.iter();
        let mut i: usize = 0;
        while i < entries.len()
            invariant
                i <= emojis.entries().len(),
                entries@ == emojis.entries(),
                self.base_wf(),
                self.total() <= u32::MAX,
                emojis.wf(),
                forall|k: int|
                    0 <= k < i ==> (#[trigger] emojis.entries()[k]).1 <= self.count_of(
                        emojis.entries()[k].0.idx(),
                    ),
            decreases entries@.len() - i,
        {
            let (e, c) = entries[i];
            let owned = self.count_of_emoji(e.index());
            if owned < c as u64 {
                proof {
                    crate::emojis_with_counts::lemma_unique_entry_count(
                        emojis.entries(),
                        i as int,
                    );
                    assert(emojis.count_of(e.idx()) > self.count_of(e.idx()));
                }
                return false;
            }
            i = i + 1;
        }
        proof {
            assert forall|e: int| emojis.count_of(e) <= self.count_of(e) by {
                if emojis.count_of(e) > 0 {
                    crate::emojis_with_counts::lemma_count_pos_entry(emojis.entries(), e);
                    let k = choose|k: int|
                        0 <= k < emojis.entries().len() && (#[trigger] emojis.entries()[k]).0.idx()
                            == e;
                    crate::emojis_with_counts::lemma_unique_entry_count(emojis.entries(), k);
                }
            }
        }
        true
    }

    /// Adds up to the requested counts of tokens to the named group, creating
    /// the group if it is absent (a case-insensitive name collision resolves
    /// to the existing group: a silent merge, not an error).  Only as many
    /// units as the user owns move; they come out of the ungrouped pool first
    /// and then out of the groups, least prioritised first.  Returns the
    /// resolved group name, the subset actually added, and whether the group
    /// was newly made.
    #[verifier::rlimit(100)]
    pub fn add_to_group(&mut self, group_name: &str, emojis: &EmojisWithCounts) -> (r: (
        String,
        EmojisWithCounts,
        bool,
    ))
        requires
            old(self).wf(),
            old(self).total() <= u32::MAX,
            emojis.wf(),
        ensures
            final(self).wf(),
            final(self).user == old(self).user,
            forall|e: int| final(self).count_of(e) == old(self).count_of(e),
            final(self).total() == old(self).total(),
            r.1.wf(),
            forall|e: int| r.1.count_of(e) == min_nat(emojis.count_of(e), old(self).count_of(e)),
            r.2 == !old(self).has_group(group_name@),
            names_eq_nocase(r.0@, group_name@),
            !old(self).has_group(group_name@) ==> r.0@ == group_name@,
            !old(self).has_group(group_name@) ==> (final(self).has_group(group_name@) <==> r.1.total() > 0),
            (!old(self).has_group(group_name@) && r.1.total() > 0) ==> {
                &&& final(self).groups@.len() > 0
                &&& final(self).groups@.last().name@ == group_name@
                &&& forall|e: int|
                    final(self).groups@.last().contents.count_of(e) == r.1.count_of(e)
            },
            forall|e: int|
                final(self).ungrouped.count_of(e) == old(self).ungrouped.count_of(e) - min_nat(
                    emojis.count_of(e),
                    old(self).ungrouped.count_of(e),
                ),
            old(self).has_group(group_name@) ==> {
                let jj = old(self).group_index_of(group_name@);
                &&& r.0@ == old(self).groups@[jj].name@
                &&& final(self).has_group(group_name@)
                &&& (forall|e: int|
                    #[trigger] final(self).groups@[final(self).group_index_of(
                        group_name@,
                    )].contents.count_of(e) == count_after_draw(
                        old(self).groups@,
                        jj,
                        e,
                        (emojis.count_of(e) - min_nat(
                            emojis.count_of(e),
                            old(self).ungrouped.count_of(e),
                        )) as nat,
                    ) + r.1.count_of(e))
            },
    {
        let found = self.find_group(group_name);
        let is_new = found.is_none();
        let j: usize;
        let resolved: String;
        match found {
            Some(jj) => {
                j = jj;
                resolved = self.groups[jj].name.clone();
                proof {
                    lemma_group_index_unique(*self, group_name@, jj as int);
                }
            },
            None => {
                let fresh = GroupData {
                    name: String::from_str(group_name),
                    contents: EmojisWithCounts::empty(),
                };
                let ghost pre_push = self.groups@;
                self.groups.push(fresh);
                j = self.groups.len() - 1;
                resolved = String::from_str(group_name);
                proof {
                    assert(self.groups@.drop_last() =~= pre_push);
                    assert forall|x: int| groups_count(self.groups@, x) == groups_count(
                        pre_push,
                        x,
                    ) by {}
                    assert(groups_total(self.groups@) == groups_total(pre_push));
                }
            },
        }
        let ghost gseq = self.groups@;
        let mut added = EmojisWithCounts::empty();
        let entries = emojis.iter();
        let mut i: usize = 0;
        proof {
            assert(emojis.entries().take(0) =~= Seq::<(Emoji, u32)>::empty());
            assert forall|g: int, x: int|
                0 <= g < gseq.len() implies #[trigger] count_after_draw(gseq, g, x, 0nat)
                == gseq[g].contents.count_of(x) by {
                lemma_draw_zero(gseq, g, x);
            }
        }
        while i < entries.len()
            invariant
                i <= emojis.entries().len(),
                entries@ == emojis.entries(),
                emojis.wf(),
                old(self).wf(),
                old(self).total() <= u32::MAX,
                self.base_wf(),
                self.user == old(self).user,
                j < self.groups@.len(),
                self.groups@.len() == gseq.len(),
                forall|i2: int|
                    0 <= i2 < gseq.len() ==> (#[trigger] self.groups@[i2]).name@ == gseq[i2].name@,
                is_new ==> j == gseq.len() - 1 && gseq[j as int].name@ == group_name@,
                forall|x: int| self.count_of(x) == old(self).count_of(x),
                self.total() == old(self).total(),
                added.wf(),
                forall|x: int|
                    added.count_of(x) == min_nat(
                        crate::emojis_with_counts::count_in(emojis.entries().take(i as int), x),
                        old(self).count_of(x),
                    ),
                added.total() <= crate::emojis_with_counts::total_in(
                    emojis.entries().take(i as int),
                ),
                is_new ==> forall|x: int|
                    (#[trigger] self.groups@[j as int].contents.count_of(x)) == added.count_of(x),
                forall|x: int|
                    #[trigger] self.ungrouped.count_of(x) == old(self).ungrouped.count_of(x)
                        - min_nat(
                        crate::emojis_with_counts::count_in(emojis.entries().take(i as int), x),
                        old(self).ungrouped.count_of(x),
                    ),
                forall|g: int, x: int|
                    0 <= g < gseq.len() ==> #[trigger] self.groups@[g].contents.count_of(x)
                        == count_after_draw(
                        gseq,
                        g,
                        x,
                        (crate::emojis_with_counts::count_in(emojis.entries().take(i as int), x)
                            - min_nat(
                            crate::emojis_with_counts::count_in(
                                emojis.entries().take(i as int),
                                x,
                            ),
                            old(self).ungrouped.count_of(x),
                        )) as nat,
                    ) + (if g == j {
                        added.count_of(x)
                    } else {
                        0nat
                    }),
            decreases entries@.len() - i,
        {
            let (e, c) = entries[i];
            proof {
                assert forall|k: int|
                    0 <= k < i implies (#[trigger] emojis.entries().take(i as int)[k]).0.idx()
                        != e.idx() by {
                    assert(emojis.entries()[k].0.idx() < emojis.entries()[i as int].0.idx());
                }
                crate::emojis_with_counts::lemma_count_absent(
                    emojis.entries().take(i as int),
                    e.idx(),
                );
                assert(emojis.entries().take(i + 1).drop_last() =~= emojis.entries().take(
                    i as int,
                ));
                assert(emojis.entries().take(i + 1).last() == emojis.entries()[i as int]);
                crate::emojis_with_counts::lemma_total_take_le(emojis.entries(), i + 1);
            }
            let ghost gs_i = self.groups@;
            let ghost added_pre = added;
            let ghost ungr_i = self.ungrouped;
            let t1 = self.ungrouped.take_up_to(e.index(), c);
            let t2 = self.take_from_groups(e.index(), c - t1);
            let t = t1 + t2;
            let ghost pre = self.groups@;
            let mut g = self.groups.remove(j);
            proof {
                lemma_group_le_groups_total(pre, j as int);
            }
            g.contents.add(e, t);
            self.groups.insert(j, g);
            proof {
                assert(self.groups@ =~= pre.update(j as int, self.groups@[j as int]));
                lemma_groups_count_update(pre, j as int, self.groups@[j as int], e.idx());
                lemma_groups_total_update(pre, j as int, self.groups@[j as int]);
                assert forall|x: int| x != e.idx() implies groups_count(self.groups@, x)
                    == groups_count(pre, x) by {
                    lemma_groups_count_update(pre, j as int, self.groups@[j as int], x);
                }
            }
            added.add(e, t);
            proof {
                // this round's draw bookkeeping: the pool gave first, then
                // the groups in draw order, and the target took it all back
                let cu = self.groups@;
                assert forall|g2: int|
                    0 <= g2 < gseq.len() implies (#[trigger] gs_i[g2]).contents.count_of(e.idx())
                    == gseq[g2].contents.count_of(e.idx()) by {
                    lemma_draw_zero(gseq, g2, e.idx());
                    assert(added_pre.count_of(e.idx()) == 0);
                }
                lemma_groups_count_congruent(gs_i, gseq, e.idx());
                assert(ungr_i.count_of(e.idx()) == old(self).ungrouped.count_of(e.idx()));
                assert(t1 == min_nat(c as nat, old(self).ungrouped.count_of(e.idx())));
                assert forall|g2: int, x: int|
                    0 <= g2 < gseq.len() implies #[trigger] cu[g2].contents.count_of(x)
                        == count_after_draw(
                        gseq,
                        g2,
                        x,
                        (crate::emojis_with_counts::count_in(emojis.entries().take(i + 1), x)
                            - min_nat(
                            crate::emojis_with_counts::count_in(
                                emojis.entries().take(i + 1),
                                x,
                            ),
                            old(self).ungrouped.count_of(x),
                        )) as nat,
                    ) + (if g2 == j {
                        added.count_of(x)
                    } else {
                        0nat
                    }) by {
                    if x == e.idx() {
                        assert(pre[g2].contents.count_of(x) == count_after_draw(
                            gs_i,
                            g2,
                            x,
                            (c - t1) as nat,
                        ));
                        assert forall|g3: int|
                            0 <= g3 < g2 + 1 implies (#[trigger] gs_i.take(
                            g2 + 1,
                        )[g3]).contents.count_of(x) == gseq.take(g2 + 1)[g3].contents.count_of(
                            x,
                        ) by {
                            lemma_draw_zero(gseq, g3, x);
                            assert(added_pre.count_of(x) == 0);
                            assert(gs_i[g3].contents.count_of(x) == gseq[g3].contents.count_of(
                                x,
                            ));
                        }
                        lemma_groups_count_congruent(gs_i.take(g2 + 1), gseq.take(g2 + 1), x);
                        if g2 == j {
                            assert(cu[g2].contents.count_of(x) == pre[g2].contents.count_of(x)
                                + t);
                            assert(added.count_of(x) == added_pre.count_of(x) + t);
                        } else {
                            assert(cu[g2] == pre[g2]);
                        }
                    } else {
                        assert(pre[g2].contents.count_of(x) == gs_i[g2].contents.count_of(x));
                        if g2 == j {
                            assert(cu[g2].contents.count_of(x) == pre[g2].contents.count_of(x));
                            assert(added.count_of(x) == added_pre.count_of(x));
                        } else {
                            assert(cu[g2] == pre[g2]);
                        }
                        assert(crate::emojis_with_counts::count_in(
                            emojis.entries().take(i + 1),
                            x,
                        ) == crate::emojis_with_counts::count_in(
                            emojis.entries().take(i as int),
                            x,
                        ));
                    }
                }
                assert forall|x: int|
                    #[trigger] self.ungrouped.count_of(x) == old(self).ungrouped.count_of(x)
                        - min_nat(
                        crate::emojis_with_counts::count_in(emojis.entries().take(i + 1), x),
                        old(self).ungrouped.count_of(x),
                    ) by {
                    if x == e.idx() {
                        assert(self.ungrouped.count_of(x) == ungr_i.count_of(x) - t1);
                    } else {
                        assert(self.ungrouped.count_of(x) == ungr_i.count_of(x));
                    }
                }
            }
            i = i + 1;
        }
        proof {
            assert(emojis.entries().take(emojis.entries().len() as int) =~= emojis.entries());
        }
        let ghost before_sweep = *self;
        self.remove_empty_groups();
        proof {
            if is_new {
                if added.total() > 0 {
                    // some added count is positive, so the fresh group is kept
                    assert(added.entries().len() > 0);
                    let w = added.entries().last().0.idx();
                    crate::emojis_with_counts::lemma_unique_entry_count(
                        added.entries(),
                        added.entries().len() - 1,
                    );
                    assert(added.count_of(w) > 0);
                    assert(before_sweep.groups@[j as int].contents.count_of(w) > 0);
                    crate::emojis_with_counts::lemma_count_le_total(
                        before_sweep.groups@[j as int].contents.entries(),
                        w,
                    );
                    assert(before_sweep.groups@[j as int].contents.entries().len() > 0);
                    reveal(Seq::filter);
                    let p = |g: GroupData| g.contents.entries().len() > 0;
                    assert(before_sweep.groups@.drop_last().filter(p).push(
                        before_sweep.groups@.last(),
                    ) == before_sweep.groups@.filter(p));
                    assert(final(self).groups@.last() == before_sweep.groups@[j as int]);
                    assert(final(self).has_group(group_name@));
                } else {
                    // every added count is zero, so the fresh group stayed
                    // empty and was swept away
                    assert forall|x: int| added.count_of(x) == 0 by {
                        crate::emojis_with_counts::lemma_count_le_total(added.entries(), x);
                    }
                    assert(before_sweep.groups@[j as int].contents.entries().len() == 0) by {
                        let gc = before_sweep.groups@[j as int].contents;
                        if gc.entries().len() > 0 {
                            assert(gc.total() >= gc.entries().last().1);
                            let w = gc.entries().last().0.idx();
                            crate::emojis_with_counts::lemma_unique_entry_count(
                                gc.entries(),
                                gc.entries().len() - 1,
                            );
                            assert(gc.count_of(w) > 0);
                        }
                    }
                    assert(!final(self).has_group(group_name@)) by {
                        if final(self).has_group(group_name@) {
                            let i2 = choose|i2: int|
                                0 <= i2 < before_sweep.groups@.len() && names_eq_nocase(
                                    (#[trigger] before_sweep.groups@[i2]).name@,
                                    group_name@,
                                ) && before_sweep.groups@[i2].contents.entries().len() > 0;
                            assert(i2 != j);
                            assert(before_sweep.groups@[i2].name@ == gseq[i2].name@);
                            assert(i2 < gseq.len() - 1);
                            assert(!old(self).has_group(group_name@));
                            assert(old(self).groups@[i2].name@ == gseq[i2].name@);
                        }
                    }
                }
            } else {
                // the merge case: the matched group survives, holding what
                // the draw left it plus everything that was added
                assert(gseq == old(self).groups@);
                let jj = j as int;
                assert(old(self).group_index_of(group_name@) == jj);
                let oldc = old(self).groups@[jj].contents;
                let w = oldc.entries()[0].0.idx();
                crate::emojis_with_counts::lemma_unique_entry_count(oldc.entries(), 0);
                assert(oldc.entries()[0].1 >= 1);
                assert(oldc.count_of(w) >= 1);
                lemma_group_le_groups_count(gseq, jj, w);
                lemma_groups_count_take_le(gseq, jj + 1, w);
                assert(before_sweep.groups@[jj].contents.count_of(w) >= 1) by {
                    let reqw = emojis.count_of(w);
                    let drawnw = (reqw - min_nat(
                        reqw,
                        old(self).ungrouped.count_of(w),
                    )) as nat;
                    assert(before_sweep.groups@[jj].contents.count_of(w) == count_after_draw(
                        gseq,
                        jj,
                        w,
                        drawnw,
                    ) + added.count_of(w));
                    let suffix = groups_count(gseq, w) - groups_count(gseq.take(jj + 1), w);
                    if drawnw > suffix {
                        let wanted = drawnw - suffix;
                        if wanted >= oldc.count_of(w) {
                            // the draw emptied the group of this token, so at
                            // least one unit was added back
                            assert(drawnw >= 1);
                            assert(reqw >= 1);
                            assert(added.count_of(w) == min_nat(reqw, old(self).count_of(w)));
                            assert(old(self).count_of(w) >= oldc.count_of(w));
                            assert(added.count_of(w) >= 1);
                        }
                    }
                }
                assert(before_sweep.groups@[jj].contents.entries().len() > 0) by {
                    if before_sweep.groups@[jj].contents.entries().len() == 0 {
                        assert(before_sweep.groups@[jj].contents.count_of(w) == 0);
                    }
                }
                assert(before_sweep.groups@[jj].name@ == old(self).groups@[jj].name@);
                assert(final(self).has_group(group_name@));
                let kk = final(self).group_index_of(group_name@);
                assert(0 <= kk < final(self).groups@.len() && names_eq_nocase(
                    final(self).groups@[kk].name@,
                    group_name@,
                ));
                reveal(Seq::filter);
                let p2 = |g: GroupData| g.contents.entries().len() > 0;
                assert(final(self).groups@ == before_sweep.groups@.filter(p2));
                lemma_filter_origin(before_sweep.groups@, p2, kk);
                let m = choose|m: int|
                    0 <= m < before_sweep.groups@.len() && #[trigger] before_sweep.groups@[m]
                        == before_sweep.groups@.filter(p2)[kk];
                assert(before_sweep.groups@[m].name@ == old(self).groups@[m].name@);
                lemma_group_index_unique(*old(self), group_name@, m);
                assert(m == jj);
                assert forall|e: int|
                    #[trigger] final(self).groups@[kk].contents.count_of(e) == count_after_draw(
                        old(self).groups@,
                        jj,
                        e,
                        (emojis.count_of(e) - min_nat(
                            emojis.count_of(e),
                            old(self).ungrouped.count_of(e),
                        )) as nat,
                    ) + added.count_of(e) by {
                    assert(final(self).groups@[kk] == before_sweep.groups@[jj]);
                    assert(before_sweep.groups@[jj].contents.count_of(e) == count_after_draw(
                        gseq,
                        jj,
                        e,
                        (emojis.count_of(e) - min_nat(
                            emojis.count_of(e),
                            old(self).ungrouped.count_of(e),
                        )) as nat,
                    ) + added.count_of(e));
                }
            }
        }
        (resolved, added, is_new)
    }

    /// Removes up to the requested counts from a group.  With a named group,
    /// only units in that group come out; without one, group-tagged units
    /// leave whatever group holds them, preferring the least prioritised
    /// groups, and units that were already ungrouped are not touched and not
    /// counted.  Returns the subset actually removed; removed units end up
    /// ungrouped.
    pub fn remove_from_group(&mut self, emojis: &EmojisWithCounts, group: Option<&str>) -> (r:
        EmojisWithCounts)
        requires
            old(self).wf(),
            old(self).total() <= u32::MAX,
            emojis.wf(),
        ensures
            final(self).wf(),
            final(self).user == old(self).user,
            forall|e: int| final(self).count_of(e) == old(self).count_of(e),
            final(self).total() == old(self).total(),
            r.wf(),
            match group {
                Some(g) => {
                    &&& (!old(self).has_group(g@) ==> *final(self) == *old(self) && r.total() == 0)
                    &&& (old(self).has_group(g@) ==> {
                        let jj = old(self).group_index_of(g@);
                        &&& (forall|e: int|
                            r.count_of(e) == min_nat(
                                emojis.count_of(e),
                                old(self).groups@[jj].contents.count_of(e),
                            ))
                        &&& (final(self).has_group(g@) <==> old(
                            self,
                        ).groups@[jj].contents.total() > r.total())
                    })
                },
                None => {
                    &&& (forall|e: int|
                        r.count_of(e) == min_nat(
                            emojis.count_of(e),
                            groups_count(old(self).groups@, e),
                        ))
                    &&& (forall|e: int|
                        final(self).ungrouped.count_of(e) == old(self).ungrouped.count_of(e)
                            + r.count_of(e))
                },
            },
    {
        let mut r = EmojisWithCounts::empty();
        let entries = emojis.iter();
        proof {
            assert(emojis.entries().take(0) =~= Seq::<(Emoji, u32)>::empty());
        }
        match group {
            Some(gname) => {
                let j: usize = match self.find_group(gname) {
                    Some(j) => j,
                    None => {
                        return r;
                    },
                };
                proof {
                    lemma_group_index_unique(*self, gname@, j as int);
                }
                let mut i: usize = 0;
                while i < entries.len()
                    invariant
                        i <= emojis.entries().len(),
                        entries@ == emojis.entries(),
                        emojis.wf(),
                        old(self).wf(),
                        old(self).total() <= u32::MAX,
                        self.base_wf(),
                        self.user == old(self).user,
                        j < self.groups@.len(),
                        self.groups@.len() == old(self).groups@.len(),
                        forall|i2: int|
                            0 <= i2 < self.groups@.len() && i2 != j ==> #[trigger] self.groups@[i2]
                                == old(self).groups@[i2],
                        self.groups@[j as int].name@ == old(self).groups@[j as int].name@,
                        forall|x: int| self.count_of(x) == old(self).count_of(x),
                        self.total() == old(self).total(),
                        r.wf(),
                        forall|x: int|
                            r.count_of(x) == min_nat(
                                crate::emojis_with_counts::count_in(
                                    emojis.entries().take(i as int),
                                    x,
                                ),
                                old(self).groups@[j as int].contents.count_of(x),
                            ),
                        r.total() <= crate::emojis_with_counts::total_in(
                            emojis.entries().take(i as int),
                        ),
                        forall|x: int|
                            #[trigger] self.groups@[j as int].contents.count_of(x) == old(
                                self,
                            ).groups@[j as int].contents.count_of(x) - r.count_of(x),
                        self.groups@[j as int].contents.total() == old(
                            self,
                        ).groups@[j as int].contents.total() - r.total(),
                        forall|x: int|
                            self.ungrouped.count_of(x) == old(self).ungrouped.count_of(x)
                                + r.count_of(x),
                        self.ungrouped.total() == old(self).ungrouped.total() + r.total(),
                    decreases entries@.len() - i,
                {
                    let (e, c) = entries[i];
                    proof {
                        assert forall|k: int|
                            0 <= k < i implies (#[trigger] emojis.entries().take(
                            i as int,
                        )[k]).0.idx() != e.idx() by {
                            assert(emojis.entries()[k].0.idx()
                                < emojis.entries()[i as int].0.idx());
                        }
                        crate::emojis_with_counts::lemma_count_absent(
                            emojis.entries().take(i as int),
                            e.idx(),
                        );
                        assert(emojis.entries().take(i + 1).drop_last() =~= emojis.entries().take(
                            i as int,
                        ));
                        assert(emojis.entries().take(i + 1).last() == emojis.entries()[i as int]);
                        crate::emojis_with_counts::lemma_total_take_le(emojis.entries(), i + 1);
                    }
                    let ghost pre = self.groups@;
                    let mut g = self.groups.remove(j);
                    let t = g.contents.take_up_to(e.index(), c);
                    self.groups.insert(j, g);
                    proof {
                        assert(self.groups@ =~= pre.update(j as int, self.groups@[j as int]));
                        lemma_groups_count_update(pre, j as int, self.groups@[j as int], e.idx());
                        lemma_groups_total_update(pre, j as int, self.groups@[j as int]);
                        assert forall|x: int| x != e.idx() implies groups_count(self.groups@, x)
                            == groups_count(pre, x) by {
                            lemma_groups_count_update(pre, j as int, self.groups@[j as int], x);
                        }
                    }
                    self.ungrouped.add(e, t);
                    r.add(e, t);
                    i = i + 1;
                }
                proof {
                    assert(emojis.entries().take(emojis.entries().len() as int)
                        =~= emojis.entries());
                }
                let ghost before_sweep = *self;
                self.remove_empty_groups();
                proof {
                    let oldj = old(self).groups@[j as int].contents;
                    if before_sweep.groups@[j as int].contents.total() > 0 {
                        let gc = before_sweep.groups@[j as int].contents;
                        assert(gc.entries().len() > 0) by {
                            if gc.entries().len() == 0 {
                                assert(gc.total() == 0);
                            }
                        }
                        assert(final(self).has_group(gname@));
                    } else {
                        assert(before_sweep.groups@[j as int].contents.entries().len() == 0) by {
                            let gc = before_sweep.groups@[j as int].contents;
                            if gc.entries().len() > 0 {
                                assert(gc.total() >= gc.entries().last().1);
                            }
                        }
                        assert(!final(self).has_group(gname@)) by {
                            if final(self).has_group(gname@) {
                                let i2 = choose|i2: int|
                                    0 <= i2 < before_sweep.groups@.len() && names_eq_nocase(
                                        (#[trigger] before_sweep.groups@[i2]).name@,
                                        gname@,
                                    ) && before_sweep.groups@[i2].contents.entries().len() > 0;
                                assert(i2 != j);
                                assert(before_sweep.groups@[i2] == old(self).groups@[i2]);
                                lemma_names_nocase_trans(
                                    old(self).groups@[i2].name@,
                                    old(self).groups@[j as int].name@,
                                    gname@,
                                );
                            }
                        }
                    }
                }
                r
            },
            None => {
                let mut i: usize = 0;
                while i < entries.len()
                    invariant
                        i <= emojis.entries().len(),
                        entries@ == emojis.entries(),
                        emojis.wf(),
                        old(self).wf(),
                        old(self).total() <= u32::MAX,
                        self.base_wf(),
                        self.user == old(self).user,
                        self.groups@.len() == old(self).groups@.len(),
                        forall|x: int| self.count_of(x) == old(self).count_of(x),
                        self.total() == old(self).total(),
                        r.wf(),
                        forall|x: int|
                            r.count_of(x) == min_nat(
                                crate::emojis_with_counts::count_in(
                                    emojis.entries().take(i as int),
                                    x,
                                ),
                                groups_count(old(self).groups@, x),
                            ),
                        r.total() <= crate::emojis_with_counts::total_in(
                            emojis.entries().take(i as int),
                        ),
                        forall|x: int|
                            groups_count(self.groups@, x) == groups_count(old(self).groups@, x)
                                - r.count_of(x),
                        forall|x: int|
                            self.ungrouped.count_of(x) == old(self).ungrouped.count_of(x)
                                + r.count_of(x),
                    decreases entries@.len() - i,
                {
                    let (e, c) = entries[i];
                    proof {
                        assert forall|k: int|
                            0 <= k < i implies (#[trigger] emojis.entries().take(
                            i as int,
                        )[k]).0.idx() != e.idx() by {
                            assert(emojis.entries()[k].0.idx()
                                < emojis.entries()[i as int].0.idx());
                        }
                        crate::emojis_with_counts::lemma_count_absent(
                            emojis.entries().take(i as int),
                            e.idx(),
                        );
                        assert(emojis.entries().take(i + 1).drop_last() =~= emojis.entries().take(
                            i as int,
                        ));
                        assert(emojis.entries().take(i + 1).last() == emojis.entries()[i as int]);
                        crate::emojis_with_counts::lemma_total_take_le(emojis.entries(), i + 1);
                    }
                    let moved = self.take_from_groups(e.index(), c);
                    self.ungrouped.add(e, moved);
                    r.add(e, moved);
                    i = i + 1;
                }
                proof {
                    assert(emojis.entries().take(emojis.entries().len() as int)
                        =~= emojis.entries());
                }
                self.remove_empty_groups();
                r
            },
        }
    }

    /// Renames a group.  Fails distinctly when the group is missing and when
    /// another group already uses the new name (ignoring ASCII case); renaming
    /// a group to another casing of its own name is allowed.  Returns the old
    /// name on success.
    pub fn rename_group(&mut self, group: &str, new_name: &str) -> (r: Result<
        String,
        RenameGroupError,
    >)
        requires
            old(self).wf(),
        ensures
            final(self).wf(),
            final(self).user == old(self).user,
            forall|e: int| final(self).count_of(e) == old(self).count_of(e),
            final(self).total() == old(self).total(),
            match r {
                Ok(old_name) => {
                    let jj = old(self).group_index_of(group@);
                    &&& old(self).has_group(group@)
                    &&& old_name@ == old(self).groups@[jj].name@
                    &&& final(self).ungrouped == old(self).ungrouped
                    &&& final(self).groups@.len() == old(self).groups@.len()
                    &&& final(self).groups@[jj].name@ == new_name@
                    &&& final(self).groups@[jj].contents == old(self).groups@[jj].contents
                    &&& (forall|i2: int|
                        0 <= i2 < old(self).groups@.len() && i2 != jj
                            ==> #[trigger] final(self).groups@[i2] == old(self).groups@[i2])
                    &&& (forall|k: int|
                        0 <= k < old(self).groups@.len() && k != jj ==> !names_eq_nocase(
                            (#[trigger] old(self).groups@[k]).name@,
                            new_name@,
                        ))
                },
                Err(RenameGroupError::NoSuchGroup) => {
                    &&& !old(self).has_group(group@)
                    &&& *final(self) == *old(self)
                },
                Err(RenameGroupError::NameTaken(taken)) => {
                    let jj = old(self).group_index_of(group@);
                    &&& old(self).has_group(group@)
                    &&& *final(self) == *old(self)
                    &&& exists|k: int|
                        0 <= k < old(self).groups@.len() && k != jj && names_eq_nocase(
                            (#[trigger] old(self).groups@[k]).name@,
                            new_name@,
                        ) && taken@ == old(self).groups@[k].name@
                },
            },
    {
        let j: usize = match self.find_group(group) {
            Some(j) => j,
            None => {
                return Err(RenameGroupError::NoSuchGroup);
            },
        };
        proof {
            lemma_group_index_unique(*self, group@, j as int);
        }
        match self.find_group(new_name) {
            Some(k) => {
                if k != j {
                    return Err(RenameGroupError::NameTaken(self.groups[k].name.clone()));
                }
                proof {
                    assert forall|k2: int|
                        0 <= k2 < self.groups@.len() && k2 != j implies !names_eq_nocase(
                        (#[trigger] self.groups@[k2]).name@,
                        new_name@,
                    ) by {
                        if names_eq_nocase(self.groups@[k2].name@, new_name@) {
                            lemma_names_nocase_trans(
                                self.groups@[k2].name@,
                                self.groups@[j as int].name@,
                                new_name@,
                            );
                        }
                    }
                }
            },
            None => {},
        }
        let ghost pre = self.groups@;
        let mut g = self.groups.remove(j);
        let old_name = g.name;
        g.name = String::from_str(new_name);
        self.groups.insert(j, g);
        proof {
            assert(self.groups@ =~= pre.update(j as int, self.groups@[j as int]));
            assert forall|x: int| groups_count(self.groups@, x) == groups_count(pre, x) by {
                lemma_groups_count_update(pre, j as int, self.groups@[j as int], x);
            }
            lemma_groups_total_update(pre, j as int, self.groups@[j as int]);
        }
        Ok(old_name)
    }

    /// Group names with the number of units each group holds, in rank order,
    /// and the number of ungrouped units.
    pub fn list_groups(&self) -> (r: (Vec<(String, u32)>, u32))
        requires
            self.wf(),
            self.total() <= u32::MAX,
        ensures
            r.0@.len() == self.groups@.len(),
            forall|i: int|
                0 <= i < self.groups@.len() ==> (#[trigger] r.0@[i]).0@ == self.groups@[i].name@
                    && r.0@[i].1 == self.groups@[i].contents.total(),
            r.1 == self.ungrouped.total(),
    {
        let mut names: Vec<(String, u32)> = Vec::new();
        let mut i: usize = 0;
        while i < self.groups.len()
            invariant
                i <= self.groups@.len(),
                self.wf(),
                self.total() <= u32::MAX,
                names@.len() == i,
                forall|k: int|
                    0 <= k < i ==> (#[trigger] names@[k]).0@ == self.groups@[k].name@
                        && names@[k].1 == self.groups@[k].contents.total(),
            decreases self.groups@.len() - i,
        {
            proof {
                lemma_group_le_groups_total(self.groups@, i as int);
            }
            let count = self.groups[i].contents.emoji_count();
            names.push((self.groups[i].name.clone(), count));
            i = i + 1;
        }
        let ungrouped = self.ungrouped.emoji_count();
        (names, ungrouped)
    }

    /// The stored name and the contents of the named group, or nothing when
    /// no group matches.  As empty groups never persist, a missing group and
    /// an empty one are the same condition.
    pub fn group_name_and_contents(&self, group: &str) -> (r: Option<(String, EmojisWithCounts)>)
        requires
            self.wf(),
        ensures
            match r {
                Some(pair) => {
                    let jj = self.group_index_of(group@);
                    &&& self.has_group(group@)
                    &&& pair.0@ == self.groups@[jj].name@
                    &&& pair.1.entries() == self.groups@[jj].contents.entries()
                },
                None => !self.has_group(group@),
            },
    {
        match self.find_group(group) {
            Some(j) => {
                proof {
                    lemma_group_index_unique(*self, group@, j as int);
                }
                Some((self.groups[j].name.clone(), self.groups[j].contents.duplicate()))
            },
            None => None,
        }
    }

    /// The ungrouped tokens.
    pub fn get_ungrouped_emojis(&self) -> (r: EmojisWithCounts)
        ensures
            r.entries() == self.ungrouped.entries(),
    {
        self.ungrouped.duplicate()
    }

    /// Moves a group to an absolute 0-based rank, clamped to the valid range;
    /// every group between the old and the new rank shifts by exactly one, so
    /// the ranks stay dense.  Returns the group name, a classification of the
    /// move, the old rank, and the number of groups.
    pub fn reposition_group(&mut self, group: &str, new_position: u32) -> (r: Result<
        (String, RepositionOutcome, u32, u32),
        (),
    >)
        requires
            old(self).wf(),
            old(self).groups@.len() <= u32::MAX,
        ensures
            final(self).wf(),
            final(self).user == old(self).user,
            forall|e: int| final(self).count_of(e) == old(self).count_of(e),
            final(self).total() == old(self).total(),
            match r {
                Err(_) => !old(self).has_group(group@) && *final(self) == *old(self),
                Ok(outcome) => {
                    let jj = old(self).group_index_of(group@);
                    let newp = min_nat(new_position as nat, (old(self).groups@.len() - 1) as nat);
                    &&& old(self).has_group(group@)
                    &&& final(self).ungrouped == old(self).ungrouped
                    &&& outcome.3 == old(self).groups@.len()
                    &&& outcome.2 == jj
                    &&& outcome.0@ == old(self).groups@[jj].name@
                    &&& final(self).groups@ == old(self).groups@.remove(jj).insert(
                        newp as int,
                        old(self).groups@[jj],
                    )
                    &&& (outcome.1 is DidNotMove <==> newp == jj)
                    &&& (outcome.1 is MovedToFront <==> newp != jj && newp == 0)
                    &&& (outcome.1 is MovedToBack <==> newp != jj && newp != 0 && newp == old(
                        self,
                    ).groups@.len() - 1)
                    &&& (outcome.1 is MovedBetween <==> newp != jj && 0 < newp < old(
                        self,
                    ).groups@.len() - 1)
                    &&& (outcome.1 matches RepositionOutcome::MovedBetween(before, after) ==> {
                        &&& before@ == final(self).groups@[newp as int - 1].name@
                        &&& after@ == final(self).groups@[newp as int + 1].name@
                    })
                },
            },
    {
        let j: usize = match self.find_group(group) {
            Some(j) => j,
            None => {
                return Err(());
            },
        };
        proof {
            lemma_group_index_unique(*self, group@, j as int);
        }
        let count = self.groups.len();
        let name = self.groups[j].name.clone();
        let limit: u32 = (count - 1) as u32;
        let newp_clamped: u32 = if new_position <= limit {
            new_position
        } else {
            limit
        };
        let newp = newp_clamped as usize;
        if newp == j {
            proof {
                assert(old(self).groups@.remove(j as int).insert(
                    newp as int,
                    old(self).groups@[j as int],
                ) =~= old(self).groups@);
            }
            return Ok((name, RepositionOutcome::DidNotMove, j as u32, count as u32));
        }
        let g = self.groups.remove(j);
        self.groups.insert(newp, g);
        proof {
            let orig = old(self).groups@;
            lemma_move_element(orig, j as int, newp as int);
            assert forall|i1: int, i2: int|
                0 <= i1 < i2 < final(self).groups@.len() implies !names_eq_nocase(
                (#[trigger] final(self).groups@[i1]).name@,
                (#[trigger] final(self).groups@[i2]).name@,
            ) by {
                let m1 = moved_from(orig.len() as int, j as int, newp as int, i1);
                let m2 = moved_from(orig.len() as int, j as int, newp as int, i2);
                assert(final(self).groups@[i1] == orig[m1]);
                assert(final(self).groups@[i2] == orig[m2]);
                if m1 < m2 {
                    assert(!names_eq_nocase(orig[m1].name@, orig[m2].name@));
                } else {
                    assert(!names_eq_nocase(orig[m2].name@, orig[m1].name@));
                    lemma_names_nocase_sym(orig[m1].name@, orig[m2].name@);
                }
            }
            assert forall|e: int| groups_count(final(self).groups@, e) == groups_count(
                orig,
                e,
            ) by {
                lemma_groups_count_remove(orig, j as int, e);
                lemma_groups_count_insert(
                    orig.remove(j as int),
                    newp as int,
                    orig[j as int],
                    e,
                );
            }
            lemma_groups_total_remove(orig, j as int);
            lemma_groups_total_insert(orig.remove(j as int), newp as int, orig[j as int]);
        }
        let outcome = if newp == 0 {
            RepositionOutcome::MovedToFront
        } else if newp == count - 1 {
            RepositionOutcome::MovedToBack
        } else {
            RepositionOutcome::MovedBetween(
                self.groups[newp - 1].name.clone(),
                self.groups[newp + 1].name.clone(),
            )
        };
        Ok((name, outcome, j as u32, count as u32))
    }
}

/// Under well-formedness, any position whose group name matches is the one
/// `group_index_of` names.
pub proof fn lemma_group_index_unique(inv: UserInventory, name: Seq<char>, j: int)
    requires
        inv.base_wf(),
        0 <= j < inv.groups@.len(),
        names_eq_nocase(inv.groups@[j].name@, name),
    ensures
        inv.has_group(name),
        inv.group_index_of(name) == j,
{
    assert(inv.has_group(name));
    let jj = inv.group_index_of(name);
    assert(0 <= jj < inv.groups@.len() && names_eq_nocase(inv.groups@[jj].name@, name));
    if jj != j {
        lemma_names_nocase_trans(inv.groups@[jj].name@, inv.groups@[j].name@, name);
        assert(false);
    }
}

} // verus!
