//! A multiset of emoji tokens held in canonical form: a list of
//! (emoji, count) pairs, strictly sorted by catalog ordinal, every count
//! positive, and the total small enough to fit the count type.

use vstd::prelude::*;

use crate::emoji::Emoji;

verus! {

/// How many units of the token with ordinal `e` the entry list `s` holds.
pub open spec fn count_in(s: Seq<(Emoji, u32)>, e: int) -> nat
    decreases s.len(),
{
    if s.len() == 0 {
        0
    } else {
        count_in(s.drop_last(), e) + if s.last().0.idx() == e {
            s.last().1 as nat
        } else {
            0nat
        }
    }
}

/// How many units the entry list `s` holds in all.
pub open spec fn total_in(s: Seq<(Emoji, u32)>) -> nat
    decreases s.len(),
{
    if s.len() == 0 {
        0
    } else {
        total_in(s.drop_last()) + s.last().1 as nat
    }
}

/// How many tokens of ordinal `e` the flat list `s` holds.
pub open spec fn flat_count(s: Seq<Emoji>, e: int) -> nat
    decreases s.len(),
{
    if s.len() == 0 {
        0
    } else {
        flat_count(s.drop_last(), e) + if s.last().idx() == e {
            1nat
        } else {
            0nat
        }
    }
}

/// The flat form of an entry list: each token repeated as often as its
/// count, grouped, in ascending ordinal order when the list is sorted.
pub open spec fn flat_of(s: Seq<(Emoji, u32)>) -> Seq<Emoji>
    decreases s.len(),
{
    if s.len() == 0 {
        Seq::empty()
    } else {
        flat_of(s.drop_last()) + Seq::new(s.last().1 as nat, |k: int| s.last().0)
    }
}

/// Entry lists that agree entry for entry: same ordinal, same text, same count.
pub open spec fn entries_equiv(a: Seq<(Emoji, u32)>, b: Seq<(Emoji, u32)>) -> bool {
    &&& a.len() == b.len()
    &&& forall|i: int|
        0 <= i < a.len() ==> {
            &&& (#[trigger] a[i]).0.idx() == (#[trigger] b[i]).0.idx()
            &&& a[i].0.text() == b[i].0.text()
            &&& a[i].1 == b[i].1
        }
}

pub proof fn lemma_count_le_total(s: Seq<(Emoji, u32)>, e: int)
    ensures
        count_in(s, e) <= total_in(s),
    decreases s.len(),
{
    if s.len() > 0 {
        lemma_count_le_total(s.drop_last(), e);
    }
}

pub proof fn lemma_total_take_le(s: Seq<(Emoji, u32)>, i: int)
    requires
        0 <= i <= s.len(),
    ensures
        total_in(s.take(i)) <= total_in(s),
    decreases s.len(),
{
    if i == s.len() {
        assert(s.take(i) =~= s);
    } else {
        assert(s.take(i) =~= s.drop_last().take(i));
        lemma_total_take_le(s.drop_last(), i);
    }
}

pub proof fn lemma_count_update(s: Seq<(Emoji, u32)>, j: int, x: (Emoji, u32), e: int)
    requires
        0 <= j < s.len(),
    ensures
        count_in(s.update(j, x), e) == count_in(s, e) + (if x.0.idx() == e {
            x.1 as nat
        } else {
            0nat
        }) - (if s[j].0.idx() == e {
            s[j].1 as nat
        } else {
            0nat
        }),
    decreases s.len(),
{
    if j == s.len() - 1 {
        assert(s.update(j, x).drop_last() =~= s.drop_last());
    } else {
        assert(s.update(j, x).drop_last() =~= s.drop_last().update(j, x));
        lemma_count_update(s.drop_last(), j, x, e);
    }
}

pub proof fn lemma_total_update(s: Seq<(Emoji, u32)>, j: int, x: (Emoji, u32))
    requires
        0 <= j < s.len(),
    ensures
        total_in(s.update(j, x)) == total_in(s) + x.1 as nat - s[j].1 as nat,
    decreases s.len(),
{
    if j == s.len() - 1 {
        assert(s.update(j, x).drop_last() =~= s.drop_last());
    } else {
        assert(s.update(j, x).drop_last() =~= s.drop_last().update(j, x));
        lemma_total_update(s.drop_last(), j, x);
    }
}

pub proof fn lemma_count_insert(s: Seq<(Emoji, u32)>, j: int, x: (Emoji, u32), e: int)
    requires
        0 <= j <= s.len(),
    ensures
        count_in(s.insert(j, x), e) == count_in(s, e) + (if x.0.idx() == e {
            x.1 as nat
        } else {
            0nat
        }),
    decreases s.len(),
{
    if j == s.len() {
        assert(s.insert(j, x).drop_last() =~= s);
        assert(s.insert(j, x).last() == x);
    } else {
        assert(s.insert(j, x).drop_last() =~= s.drop_last().insert(j, x));
        assert(s.insert(j, x).last() == s.last());
        lemma_count_insert(s.drop_last(), j, x, e);
    }
}

pub proof fn lemma_total_insert(s: Seq<(Emoji, u32)>, j: int, x: (Emoji, u32))
    requires
        0 <= j <= s.len(),
    ensures
        total_in(s.insert(j, x)) == total_in(s) + x.1 as nat,
    decreases s.len(),
{
    if j == s.len() {
        assert(s.insert(j, x).drop_last() =~= s);
        assert(s.insert(j, x).last() == x);
    } else {
        assert(s.insert(j, x).drop_last() =~= s.drop_last().insert(j, x));
        assert(s.insert(j, x).last() == s.last());
        lemma_total_insert(s.drop_last(), j, x);
    }
}

pub proof fn lemma_count_remove(s: Seq<(Emoji, u32)>, j: int, e: int)
    requires
        0 <= j < s.len(),
    ensures
        count_in(s.remove(j), e) == count_in(s, e) - (if s[j].0.idx() == e {
            s[j].1 as nat
        } else {
            0nat
        }),
    decreases s.len(),
{
    if j == s.len() - 1 {
        assert(s.remove(j) =~= s.drop_last());
    } else {
        assert(s.remove(j).drop_last() =~= s.drop_last().remove(j));
        assert(s.remove(j).last() == s.last());
        lemma_count_remove(s.drop_last(), j, e);
    }
}

pub proof fn lemma_total_remove(s: Seq<(Emoji, u32)>, j: int)
    requires
        0 <= j < s.len(),
    ensures
        total_in(s.remove(j)) == total_in(s) - s[j].1 as nat,
    decreases s.len(),
{
    if j == s.len() - 1 {
        assert(s.remove(j) =~= s.drop_last());
    } else {
        assert(s.remove(j).drop_last() =~= s.drop_last().remove(j));
        assert(s.remove(j).last() == s.last());
        lemma_total_remove(s.drop_last(), j);
    }
}

/// A sorted entry list whose entries all name distinct ordinals holds
/// the count of entry `j` exactly as `count_in` at that ordinal.
pub proof fn lemma_unique_entry_count(s: Seq<(Emoji, u32)>, j: int)
    requires
        0 <= j < s.len(),
        forall|a: int, b: int|
            0 <= a < b < s.len() ==> (#[trigger] s[a]).0.idx() < (#[trigger] s[b]).0.idx(),
    ensures
        count_in(s, s[j].0.idx()) == s[j].1 as nat,
    decreases s.len(),
{
    if j == s.len() - 1 {
        lemma_count_absent(s.drop_last(), s[j].0.idx());
    } else {
        lemma_unique_entry_count(s.drop_last(), j);
    }
}

/// Equivalent entry lists count every token alike.
pub proof fn lemma_equiv_counts(a: Seq<(Emoji, u32)>, b: Seq<(Emoji, u32)>)
    requires
        entries_equiv(a, b),
    ensures
        forall|e: int| count_in(a, e) == count_in(b, e),
        total_in(a) == total_in(b),
    decreases a.len(),
{
    if a.len() > 0 {
        assert(entries_equiv(a.drop_last(), b.drop_last()));
        lemma_equiv_counts(a.drop_last(), b.drop_last());
        assert forall|e: int| count_in(a, e) == count_in(b, e) by {
            assert(count_in(a.drop_last(), e) == count_in(b.drop_last(), e));
            assert(a[a.len() - 1].0.idx() == b[a.len() - 1].0.idx() && a[a.len() - 1].1 == b[a.len()
                - 1].1);
        }
    }
}

/// When every count is positive, there are no more entries than units.
pub proof fn lemma_len_le_total(s: Seq<(Emoji, u32)>)
    requires
        forall|i: int| 0 <= i < s.len() ==> (#[trigger] s[i]).1 >= 1,
    ensures
        s.len() <= total_in(s),
    decreases s.len(),
{
    if s.len() > 0 {
        lemma_len_le_total(s.drop_last());
        assert(s[s.len() - 1].1 >= 1);
    }
}

/// Canonical entry lists with the same counts everywhere have the same total:
/// the counts determine the multiset.
pub proof fn lemma_same_counts_same_total(a: Seq<(Emoji, u32)>, b: Seq<(Emoji, u32)>)
    requires
        forall|i: int, j: int|
            0 <= i < j < a.len() ==> (#[trigger] a[i]).0.idx() < (#[trigger] a[j]).0.idx(),
        forall|i: int| 0 <= i < a.len() ==> (#[trigger] a[i]).1 >= 1,
        forall|i: int, j: int|
            0 <= i < j < b.len() ==> (#[trigger] b[i]).0.idx() < (#[trigger] b[j]).0.idx(),
        forall|i: int| 0 <= i < b.len() ==> (#[trigger] b[i]).1 >= 1,
        forall|e: int| count_in(a, e) == count_in(b, e),
    ensures
        total_in(a) == total_in(b),
    decreases a.len() + b.len(),
{
    if a.len() == 0 {
        if b.len() > 0 {
            lemma_unique_entry_count(b, b.len() - 1);
            assert(b[b.len() - 1].1 >= 1);
            assert(count_in(a, b.last().0.idx()) == 0);
            assert(false);
        }
    } else if b.len() == 0 {
        lemma_unique_entry_count(a, a.len() - 1);
        assert(a[a.len() - 1].1 >= 1);
        assert(count_in(b, a.last().0.idx()) == 0);
        assert(false);
    } else {
        let ma = a.last().0.idx();
        let mb = b.last().0.idx();
        lemma_unique_entry_count(a, a.len() - 1);
        lemma_unique_entry_count(b, b.len() - 1);
        assert(a[a.len() - 1].1 >= 1);
        assert(b[b.len() - 1].1 >= 1);
        assert(count_in(b, ma) > 0);
        lemma_count_pos_entry(b, ma);
        let ka = choose|k: int| 0 <= k < b.len() && (#[trigger] b[k]).0.idx() == ma;
        assert(ma <= mb) by {
            if ka < b.len() - 1 {
                assert(b[ka].0.idx() < b[b.len() - 1].0.idx());
            }
        }
        assert(count_in(a, mb) > 0);
        lemma_count_pos_entry(a, mb);
        let kb = choose|k: int| 0 <= k < a.len() && (#[trigger] a[k]).0.idx() == mb;
        assert(mb <= ma) by {
            if kb < a.len() - 1 {
                assert(a[kb].0.idx() < a[a.len() - 1].0.idx());
            }
        }
        assert(ma == mb);
        assert(a.last().1 == b.last().1);
        assert forall|e: int| count_in(a.drop_last(), e) == count_in(b.drop_last(), e) by {
            if e == ma {
                assert forall|i: int|
                    0 <= i < a.drop_last().len() implies (#[trigger] a.drop_last()[i]).0.idx()
                        != e by {
                    assert(a[i].0.idx() < a[a.len() - 1].0.idx());
                }
                lemma_count_absent(a.drop_last(), e);
                assert forall|i: int|
                    0 <= i < b.drop_last().len() implies (#[trigger] b.drop_last()[i]).0.idx()
                        != e by {
                    assert(b[i].0.idx() < b[b.len() - 1].0.idx());
                }
                lemma_count_absent(b.drop_last(), e);
            } else {
                assert(count_in(a, e) == count_in(a.drop_last(), e));
                assert(count_in(b, e) == count_in(b.drop_last(), e));
            }
        }
        lemma_same_counts_same_total(a.drop_last(), b.drop_last());
    }
}

/// A positive count comes from some entry at that ordinal.
pub proof fn lemma_count_pos_entry(s: Seq<(Emoji, u32)>, e: int)
    requires
        count_in(s, e) > 0,
    ensures
        exists|k: int| 0 <= k < s.len() && (#[trigger] s[k]).0.idx() == e,
    decreases s.len(),
{
    if s.last().0.idx() == e {
        assert(s[s.len() - 1].0.idx() == e);
    } else {
        lemma_count_pos_entry(s.drop_last(), e);
        let k = choose|k: int|
            0 <= k < s.drop_last().len() && (#[trigger] s.drop_last()[k]).0.idx() == e;
        assert(s[k].0.idx() == e);
    }
}

/// An entry list with no entry at ordinal `e` counts nothing there.
pub proof fn lemma_count_absent(s: Seq<(Emoji, u32)>, e: int)
    requires
        forall|i: int| 0 <= i < s.len() ==> (#[trigger] s[i]).0.idx() != e,
    ensures
        count_in(s, e) == 0,
    decreases s.len(),
{
    if s.len() > 0 {
        lemma_count_absent(s.drop_last(), e);
    }
}

/// A list of emojis with a count for each emoji, sorted by emoji.
#[derive(Clone, Debug)]
pub struct EmojisWithCounts(Vec<(Emoji, u32)>);

impl EmojisWithCounts {
    /// The entry list.
    pub closed spec fn entries(self) -> Seq<(Emoji, u32)> {
        self.0@
    }

    /// How many units of the token with ordinal `e` this multiset holds.
    pub open spec fn count_of(self, e: int) -> nat {
        count_in(self.entries(), e)
    }

    /// How many units this multiset holds in all.
    pub open spec fn total(self) -> nat {
        total_in(self.entries())
    }

    /// Whether the multiset holds at least one unit of ordinal `e`.
    pub open spec fn has(self, e: int) -> bool {
        self.count_of(e) > 0
    }

    /// Canonical form: strictly sorted by ordinal, all counts positive, and
    /// the total within the count type.
    pub open spec fn wf(self) -> bool {
        &&& forall|a: int, b: int|
            0 <= a < b < self.entries().len() ==> (#[trigger] self.entries()[a]).0.idx()
                < (#[trigger] self.entries()[b]).0.idx()
        &&& forall|i: int| 0 <= i < self.entries().len() ==> (#[trigger] self.entries()[i]).1 >= 1
        &&& self.total() <= u32::MAX
    }

    /// Whether the two multisets hold the same counts everywhere.
    pub open spec fn same_counts(self, other: EmojisWithCounts) -> bool {
        forall|e: int| self.count_of(e) == other.count_of(e)
    }

    /// Whether no token appears in both multisets.
    pub open spec fn disjoint_with(self, other: EmojisWithCounts) -> bool {
        forall|e: int| !(self.has(e) && other.has(e))
    }

    /// Whether this multiset is contained in `other`, count for count.
    pub open spec fn subset_of(self, other: EmojisWithCounts) -> bool {
        forall|e: int| self.count_of(e) <= other.count_of(e)
    }

    /// The empty multiset.
    pub fn empty() -> (r: EmojisWithCounts)
        ensures
            r.wf(),
            r.entries().len() == 0,
            forall|e: int| r.count_of(e) == 0,
    {
        EmojisWithCounts(Vec::new())
    }

    /// Merges `c` units of `e` into the canonical entry list.
    pub fn add(&mut self, e: Emoji, c: u32)
        requires
            old(self).wf(),
            old(self).total() + c <= u32::MAX,
        ensures
            final(self).wf(),
            final(self).total() == old(self).total() + c,
            final(self).count_of(e.idx()) == old(self).count_of(e.idx()) + c,
            forall|x: int| x != e.idx() ==> final(self).count_of(x) == old(self).count_of(x),
            forall|i2: int|
                0 <= i2 < final(self).entries().len()
                    ==> (#[trigger] final(self).entries()[i2]).0 == e || exists|j: int|
                    0 <= j < old(self).entries().len() && final(self).entries()[i2].0 == (
                    #[trigger] old(self).entries()[j]).0,
    {
        if c == 0 {
            proof {
                assert(final(self).entries() =~= old(self).entries());
            }
            return;
        }
        let idx = e.index();
        let mut j: usize = 0;
        while j < self.0.len() && self.0[j].0.index() < idx
            invariant
                j <= self.entries().len(),
                idx as int == e.idx(),
                forall|k: int| 0 <= k < j ==> (#[trigger] self.entries()[k]).0.idx() < e.idx(),
                self == old(self),
            decreases self.entries().len() - j,
        {
            j = j + 1;
        }
        if j < self.0.len() && self.0[j].0.index() == idx {
            let entry = self.0[j];
            proof {
                lemma_unique_entry_count(self.entries(), j as int);
                lemma_count_le_total(self.entries(), e.idx());
            }
            let updated = (entry.0, entry.1 + c);
            self.0.set(j, updated);
            proof {
                lemma_count_update(old(self).entries(), j as int, updated, e.idx());
                lemma_total_update(old(self).entries(), j as int, updated);
                assert forall|x: int| x != e.idx() implies final(self).count_of(x) == old(
                    self,
                ).count_of(x) by {
                    lemma_count_update(old(self).entries(), j as int, updated, x);
                }
            }
        } else {
            self.0.insert(j, (e, c));
            proof {
                lemma_count_insert(old(self).entries(), j as int, (e, c), e.idx());
                lemma_total_insert(old(self).entries(), j as int, (e, c));
                assert forall|x: int| x != e.idx() implies final(self).count_of(x) == old(
                    self,
                ).count_of(x) by {
                    lemma_count_insert(old(self).entries(), j as int, (e, c), x);
                }
            }
        }
    }

    /// Removes up to `c` units of the token with ordinal `idx`; returns how
    /// many were actually removed, which is the lesser of `c` and the count.
    pub fn take_up_to(&mut self, idx: usize, c: u32) -> (taken: u32)
        requires
            old(self).wf(),
        ensures
            final(self).wf(),
            taken == if c as nat <= old(self).count_of(idx as int) {
                c as nat
            } else {
                old(self).count_of(idx as int)
            },
            final(self).count_of(idx as int) == old(self).count_of(idx as int) - taken,
            forall|x: int| x != idx ==> final(self).count_of(x) == old(self).count_of(x),
            final(self).total() == old(self).total() - taken,
    {
        let mut j: usize = 0;
        while j < self.0.len() && self.0[j].0.index() != idx
            invariant
                j <= self.entries().len(),
                forall|k: int| 0 <= k < j ==> (#[trigger] self.entries()[k]).0.idx() != idx as int,
                self == old(self),
            decreases self.entries().len() - j,
        {
            j = j + 1;
        }
        if j == self.0.len() {
            proof {
                lemma_count_absent(self.entries(), idx as int);
                assert(final(self).entries() =~= old(self).entries());
            }
            return 0;
        }
        let entry = self.0[j];
        proof {
            lemma_unique_entry_count(self.entries(), j as int);
        }
        if c < entry.1 {
            let updated = (entry.0, entry.1 - c);
            self.0.set(j, updated);
            proof {
                lemma_count_update(old(self).entries(), j as int, updated, idx as int);
                lemma_total_update(old(self).entries(), j as int, updated);
                assert forall|x: int| x != idx as int implies final(self).count_of(x) == old(
                    self,
                ).count_of(x) by {
                    lemma_count_update(old(self).entries(), j as int, updated, x);
                }
            }
            c
        } else {
            self.0.remove(j);
            proof {
                lemma_count_remove(old(self).entries(), j as int, idx as int);
                lemma_total_remove(old(self).entries(), j as int);
                assert forall|x: int| x != idx as int implies final(self).count_of(x) == old(
                    self,
                ).count_of(x) by {
                    lemma_count_remove(old(self).entries(), j as int, x);
                }
            }
            entry.1
        }
    }

    /// Builds the canonical multiset from a list of (emoji, count) pairs;
    /// duplicate entries are merged and zero counts dropped.
    pub fn new(emojis: Vec<(Emoji, u32)>) -> (r: EmojisWithCounts)
        requires
            total_in(emojis@) <= u32::MAX,
        ensures
            r.wf(),
            r.total() == total_in(emojis@),
            forall|e: int| r.count_of(e) == count_in(emojis@, e),
            forall|i2: int|
                0 <= i2 < r.entries().len() ==> exists|j: int|
                    0 <= j < emojis@.len() && (#[trigger] r.entries()[i2]).0 == (
                    #[trigger] emojis@[j]).0,
    {
        let mut r = EmojisWithCounts(Vec::new());
        let mut i: usize = 0;
        while i < emojis.len()
            invariant
                i <= emojis@.len(),
                r.wf(),
                r.total() == total_in(emojis@.take(i as int)),
                forall|e: int| r.count_of(e) == count_in(emojis@.take(i as int), e),
                total_in(emojis@) <= u32::MAX,
                forall|i2: int|
                    0 <= i2 < r.entries().len() ==> exists|j: int|
                        0 <= j < i && (#[trigger] r.entries()[i2]).0 == (
                        #[trigger] emojis@[j]).0,
            decreases emojis@.len() - i,
        {
            let (e, c) = emojis[i];
            proof {
                lemma_total_take_le(emojis@, i + 1);
                assert(emojis@.take(i + 1).drop_last() =~= emojis@.take(i as int));
                assert(emojis@.take(i + 1).last() == emojis@[i as int]);
            }
            let ghost r_pre = r;
            r.add(e, c);
            proof {
                assert forall|x: int| r.count_of(x) == count_in(emojis@.take(i + 1), x) by {
                }
                assert forall|i2: int|
                    0 <= i2 < r.entries().len() implies exists|j: int|
                    0 <= j < i + 1 && (#[trigger] r.entries()[i2]).0 == (
                    #[trigger] emojis@[j]).0 by {
                    if r.entries()[i2].0 == e {
                        assert(r.entries()[i2].0 == emojis@[i as int].0);
                    } else {
                        let jp = choose|jp: int|
                            0 <= jp < r_pre.entries().len() && r.entries()[i2].0 == (
                            #[trigger] r_pre.entries()[jp]).0;
                        let j = choose|j: int|
                            0 <= j < i && (#[trigger] r_pre.entries()[jp]).0 == (
                            #[trigger] emojis@[j]).0;
                        assert(r.entries()[i2].0 == emojis@[j].0);
                    }
                }
            }
            i = i + 1;
        }
        proof {
            assert(emojis@.take(emojis@.len() as int) =~= emojis@);
        }
        r
    }

    /// Builds the canonical multiset from a list of (emoji, count) pairs.
    pub fn from_iter(emojis: Vec<(Emoji, u32)>) -> (r: EmojisWithCounts)
        requires
            total_in(emojis@) <= u32::MAX,
        ensures
            r.wf(),
            r.total() == total_in(emojis@),
            forall|e: int| r.count_of(e) == count_in(emojis@, e),
            forall|i2: int|
                0 <= i2 < r.entries().len() ==> exists|j: int|
                    0 <= j < emojis@.len() && (#[trigger] r.entries()[i2]).0 == (
                    #[trigger] emojis@[j]).0,
    {
        EmojisWithCounts::new(emojis)
    }

    /// Builds the canonical multiset from a flat list of emojis, counting
    /// repetitions.
    pub fn from_flat(emojis: &Vec<Emoji>) -> (r: EmojisWithCounts)
        requires
            emojis@.len() <= u32::MAX,
        ensures
            r.wf(),
            r.total() == emojis@.len(),
            forall|e: int| r.count_of(e) == flat_count(emojis@, e),
            forall|i2: int|
                0 <= i2 < r.entries().len() ==> exists|j: int|
                    0 <= j < emojis@.len() && (#[trigger] r.entries()[i2]).0
                        == #[trigger] emojis@[j],
    {
        let mut r = EmojisWithCounts(Vec::new());
        let mut i: usize = 0;
        while i < emojis.len()
            invariant
                i <= emojis@.len(),
                r.wf(),
                r.total() == i,
                forall|e: int| r.count_of(e) == flat_count(emojis@.take(i as int), e),
                emojis@.len() <= u32::MAX,
                forall|i2: int|
                    0 <= i2 < r.entries().len() ==> exists|j: int|
                        0 <= j < i && (#[trigger] r.entries()[i2]).0 == #[trigger] emojis@[j],
            decreases emojis@.len() - i,
        {
            let e = emojis[i];
            proof {
                assert(emojis@.take(i + 1).drop_last() =~= emojis@.take(i as int));
                assert(emojis@.take(i + 1).last() == emojis@[i as int]);
            }
            let ghost r_pre = r;
            r.add(e, 1);
            proof {
                assert forall|i2: int|
                    0 <= i2 < r.entries().len() implies exists|j: int|
                    0 <= j < i + 1 && (#[trigger] r.entries()[i2]).0 == #[trigger] emojis@[j] by {
                    if r.entries()[i2].0 == e {
                        assert(r.entries()[i2].0 == emojis@[i as int]);
                    } else {
                        let jp = choose|jp: int|
                            0 <= jp < r_pre.entries().len() && r.entries()[i2].0 == (
                            #[trigger] r_pre.entries()[jp]).0;
                        let j = choose|j: int|
                            0 <= j < i && (#[trigger] r_pre.entries()[jp]).0
                                == #[trigger] emojis@[j];
                        assert(r.entries()[i2].0 == emojis@[j]);
                    }
                }
            }
            i = i + 1;
        }
        proof {
            assert(emojis@.take(emojis@.len() as int) =~= emojis@);
        }
        r
    }

    /// The multiset as a flat list: each token repeated as often as its
    /// count, in ascending ordinal order.
    pub fn flatten(self) -> (r: Vec<Emoji>)
        requires
            self.wf(),
        ensures
            r@ == flat_of(self.entries()),
            r@.len() == self.total(),
            forall|e: int| flat_count(r@, e) == self.count_of(e),
    {
        let mut r: Vec<Emoji> = Vec::new();
        let mut i: usize = 0;
        while i < self.0.len()
            invariant
                i <= self.entries().len(),
                self.wf(),
                r@ == flat_of(self.entries().take(i as int)),
                r@.len() == total_in(self.entries().take(i as int)),
                forall|e: int| flat_count(r@, e) == count_in(self.entries().take(i as int), e),
            decreases self.entries().len() - i,
        {
            let (e, c) = self.0[i];
            let mut k: u32 = 0;
            while k < c
                invariant
                    k <= c,
                    self.wf(),
                    i < self.entries().len(),
                    (e, c) == self.entries()[i as int],
                    r@ == flat_of(self.entries().take(i as int)) + Seq::new(
                        k as nat,
                        |m: int| e,
                    ),
                    r@.len() == total_in(self.entries().take(i as int)) + k,
                    forall|x: int|
                        flat_count(r@, x) == count_in(self.entries().take(i as int), x) + (
                        if e.idx() == x {
                            k as nat
                        } else {
                            0nat
                        }),
                decreases c - k,
            {
                proof {
                    lemma_total_take_le(self.entries(), i + 1);
                    assert(self.entries().take(i + 1).drop_last() =~= self.entries().take(i as int));
                    assert(self.entries().take(i + 1).last() == self.entries()[i as int]);
                    lemma_total_take_le(self.entries(), i as int);
                }
                let ghost old_r = r@;
                r.push(e);
                proof {
                    assert forall|x: int| flat_count(r@, x) == flat_count(old_r, x) + (
                    if e.idx() == x {
                        1nat
                    } else {
                        0nat
                    }) by {
                        assert(r@.drop_last() =~= old_r);
                    }
                    assert(r@ =~= flat_of(self.entries().take(i as int)) + Seq::new(
                        (k + 1) as nat,
                        |m: int| e,
                    ));
                }
                k = k + 1;
            }
            proof {
                assert(self.entries().take(i + 1).drop_last() =~= self.entries().take(i as int));
                assert(self.entries().take(i + 1).last() == self.entries()[i as int]);
                assert(r@ =~= flat_of(self.entries().take(i + 1)));
            }
            i = i + 1;
        }
        proof {
            assert(self.entries().take(self.entries().len() as int) =~= self.entries());
        }
        r
    }

    /// The entry list, for iteration.
    pub fn iter(&self) -> (r: &Vec<(Emoji, u32)>)
        ensures
            r@ == self.entries(),
    {
        &self.0
    }

    /// The number of different emojis.
    pub fn unique_emoji_count(&self) -> (r: usize)
        ensures
            r == self.entries().len(),
    {
        self.0.len()
    }

    /// The number of emojis, counting duplicates.
    pub fn emoji_count(&self) -> (r: u32)
        requires
            self.wf(),
        ensures
            r == self.total(),
    {
        let mut sum: u32 = 0;
        let mut i: usize = 0;
        while i < self.0.len()
            invariant
                i <= self.entries().len(),
                self.wf(),
                sum == total_in(self.entries().take(i as int)),
            decreases self.entries().len() - i,
        {
            proof {
                lemma_total_take_le(self.entries(), i + 1);
                assert(self.entries().take(i + 1).drop_last() =~= self.entries().take(i as int));
                assert(self.entries().take(i + 1).last() == self.entries()[i as int]);
            }
            sum = sum + self.0[i].1;
            i = i + 1;
        }
        proof {
            assert(self.entries().take(self.entries().len() as int) =~= self.entries());
        }
        sum
    }

    pub fn is_empty(&self) -> (r: bool)
        ensures
            r == (self.entries().len() == 0),
    {
        self.0.len() == 0
    }

    /// How many units of the token with ordinal `idx` this multiset holds.
    pub fn count_of_emoji(&self, idx: usize) -> (r: u32)
        requires
            self.wf(),
        ensures
            r == self.count_of(idx as int),
    {
        let mut j: usize = 0;
        while j < self.0.len() && self.0[j].0.index() != idx
            invariant
                j <= self.entries().len(),
                self.wf(),
                forall|k: int| 0 <= k < j ==> (#[trigger] self.entries()[k]).0.idx() != idx as int,
            decreases self.entries().len() - j,
        {
            j = j + 1;
        }
        if j == self.0.len() {
            proof {
                lemma_count_absent(self.entries(), idx as int);
            }
            0
        } else {
            proof {
                lemma_unique_entry_count(self.entries(), j as int);
            }
            self.0[j].1
        }
    }

    /// An identical copy, entry for entry.
    pub fn duplicate(&self) -> (r: EmojisWithCounts)
        ensures
            r.entries() == self.entries(),
    {
        let mut v: Vec<(Emoji, u32)> = Vec::new();
        let mut i: usize = 0;
        while i < self.0.len()
            invariant
                i <= self.entries().len(),
                v@ =~= self.entries().take(i as int),
            decreases self.entries().len() - i,
        {
            v.push(self.0[i]);
            i = i + 1;
        }
        proof {
            assert(v@ =~= self.entries());
        }
        EmojisWithCounts(v)
    }

    /// Whether the two multisets hold exactly the same entries.
    pub fn equals(&self, other: &EmojisWithCounts) -> (r: bool)
        ensures
            r == entries_equiv(self.entries(), other.entries()),
    {
        if self.0.len() != other.0.len() {
            return false;
        }
        let mut i: usize = 0;
        while i < self.0.len()
            invariant
                i <= self.entries().len(),
                self.entries().len() == other.entries().len(),
                forall|k: int|
                    0 <= k < i ==> {
                        &&& (#[trigger] self.entries()[k]).0.idx() == (
                        #[trigger] other.entries()[k]).0.idx()
                        &&& self.entries()[k].0.text() == other.entries()[k].0.text()
                        &&& self.entries()[k].1 == other.entries()[k].1
                    },
            decreases self.entries().len() - i,
        {
            let (ea, ca) = self.0[i];
            let (eb, cb) = other.0[i];
            if ea.index() != eb.index() || ca != cb {
                return false;
            }
            if !crate::emoji::str_eq(ea.as_str(), eb.as_str()) {
                return false;
            }
            i = i + 1;
        }
        true
    }
}

} // verus!
