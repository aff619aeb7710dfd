//! The ledger: the single source of truth for who owns what, together with
//! the outstanding trade offers, the append-only trade log, the privacy
//! flags, and the last-seen markers.

use vstd::prelude::*;

use crate::emoji::Emoji;
use crate::emojis_with_counts::EmojisWithCounts;
use crate::inventory::GroupData;
use crate::inventory::UserInventory;
use crate::inventory::min_nat;
use crate::trade_offer::Counterparty;
use crate::trade_offer::TradeLogEntry;
use crate::trade_offer::TradeOffer;

verus! {

/// The units of ordinal `e` held by user `u` over the inventory list.
pub open spec fn count_for(us: Seq<UserInventory>, u: u64, e: int) -> nat
    decreases us.len(),
{
    if us.len() == 0 {
        0
    } else {
        count_for(us.drop_last(), u, e) + if us.last().user == u {
            us.last().count_of(e)
        } else {
            0nat
        }
    }
}

/// The units of ordinal `e` held over all users.
pub open spec fn total_count(us: Seq<UserInventory>, e: int) -> nat
    decreases us.len(),
{
    if us.len() == 0 {
        0
    } else {
        total_count(us.drop_last(), e) + us.last().count_of(e)
    }
}

/// The units held over all users and all tokens.
pub open spec fn users_total(us: Seq<UserInventory>) -> nat
    decreases us.len(),
{
    if us.len() == 0 {
        0
    } else {
        users_total(us.drop_last()) + us.last().total()
    }
}

pub proof fn lemma_count_for_update(us: Seq<UserInventory>, j: int, x: UserInventory, u: u64, e: int)
    requires
        0 <= j < us.len(),
    ensures
        count_for(us.update(j, x), u, e) == count_for(us, u, e) + (if x.user == u {
            x.count_of(e)
        } else {
            0nat
        }) - (if us[j].user == u {
            us[j].count_of(e)
        } else {
            0nat
        }),
    decreases us.len(),
{
    if j == us.len() - 1 {
        assert(us.update(j, x).drop_last() =~= us.drop_last());
    } else {
        assert(us.update(j, x).drop_last() =~= us.drop_last().update(j, x));
        lemma_count_for_update(us.drop_last(), j, x, u, e);
    }
}

pub proof fn lemma_total_count_update(us: Seq<UserInventory>, j: int, x: UserInventory, e: int)
    requires
        0 <= j < us.len(),
    ensures
        total_count(us.update(j, x), e) == total_count(us, e) + x.count_of(e)
            - us[j].count_of(e),
    decreases us.len(),
{
    if j == us.len() - 1 {
        assert(us.update(j, x).drop_last() =~= us.drop_last());
    } else {
        assert(us.update(j, x).drop_last() =~= us.drop_last().update(j, x));
        lemma_total_count_update(us.drop_last(), j, x, e);
    }
}

pub proof fn lemma_users_total_update(us: Seq<UserInventory>, j: int, x: UserInventory)
    requires
        0 <= j < us.len(),
    ensures
        users_total(us.update(j, x)) == users_total(us) + x.total() - us[j].total(),
    decreases us.len(),
{
    if j == us.len() - 1 {
        assert(us.update(j, x).drop_last() =~= us.drop_last());
    } else {
        assert(us.update(j, x).drop_last() =~= us.drop_last().update(j, x));
        lemma_users_total_update(us.drop_last(), j, x);
    }
}

/// A prefix of the inventories holds no more than the whole.
pub proof fn lemma_users_total_take_le(us: Seq<UserInventory>, i: int)
    requires
        0 <= i <= us.len(),
    ensures
        users_total(us.take(i)) <= users_total(us),
    decreases us.len(),
{
    if i == us.len() {
        assert(us.take(i) =~= us);
    } else {
        assert(us.take(i) =~= us.drop_last().take(i));
        lemma_users_total_take_le(us.drop_last(), i);
    }
}

/// One user's whole inventory never exceeds the grand total.
pub proof fn lemma_user_le_users_total(us: Seq<UserInventory>, j: int)
    requires
        0 <= j < us.len(),
    ensures
        us[j].total() <= users_total(us),
    decreases us.len(),
{
    if j < us.len() - 1 {
        lemma_user_le_users_total(us.drop_last(), j);
    }
}

/// With distinct user ids, the aggregate for a user id is that user's count.
pub proof fn lemma_count_for_unique(us: Seq<UserInventory>, j: int, e: int)
    requires
        0 <= j < us.len(),
        forall|a: int, b: int|
            0 <= a < b < us.len() ==> (#[trigger] us[a]).user != (#[trigger] us[b]).user,
    ensures
        count_for(us, us[j].user, e) == us[j].count_of(e),
    decreases us.len(),
{
    if j == us.len() - 1 {
        lemma_count_for_absent(us.drop_last(), us[j].user, e);
    } else {
        lemma_count_for_unique(us.drop_last(), j, e);
    }
}

/// A positive holding names a user the inventory list carries.
pub proof fn lemma_count_for_pos_user(us: Seq<UserInventory>, u: u64, e: int)
    requires
        count_for(us, u, e) > 0,
    ensures
        exists|i: int| 0 <= i < us.len() && (#[trigger] us[i]).user == u,
    decreases us.len(),
{
    if us.last().user == u {
        assert(us[us.len() - 1].user == u);
    } else {
        lemma_count_for_pos_user(us.drop_last(), u, e);
        let i = choose|i: int|
            0 <= i < us.drop_last().len() && (#[trigger] us.drop_last()[i]).user == u;
        assert(us[i].user == u);
    }
}

/// A user id that no inventory carries holds nothing.
pub proof fn lemma_count_for_absent(us: Seq<UserInventory>, u: u64, e: int)
    requires
        forall|i: int| 0 <= i < us.len() ==> (#[trigger] us[i]).user != u,
    ensures
        count_for(us, u, e) == 0,
    decreases us.len(),
{
    if us.len() > 0 {
        lemma_count_for_absent(us.drop_last(), u, e);
    }
}

/// The whole game state.
pub struct LedgerState {
    pub users: Vec<UserInventory>,
    pub offers: Vec<TradeOffer>,
    pub log: Vec<TradeLogEntry>,
    pub private_users: Vec<u64>,
    pub last_seen: Vec<(u64, u64)>,
}

impl LedgerState {
    /// The units of ordinal `e` that user `u` owns.
    pub open spec fn count_of(self, u: u64, e: int) -> nat {
        count_for(self.users@, u, e)
    }

    /// The units of ordinal `e` owned by anyone.
    pub open spec fn total_of(self, e: int) -> nat {
        total_count(self.users@, e)
    }

    /// The units owned by anyone, of any token.
    pub open spec fn grand_total(self) -> nat {
        users_total(self.users@)
    }

    pub open spec fn has_user(self, u: u64) -> bool {
        exists|i: int| 0 <= i < self.users@.len() && (#[trigger] self.users@[i]).user == u
    }

    /// The position of the user's inventory; meaningful when `has_user`.
    pub open spec fn user_index(self, u: u64) -> int {
        choose|i: int| 0 <= i < self.users@.len() && (#[trigger] self.users@[i]).user == u
    }

    /// The user's inventory; meaningful when `has_user`.
    pub open spec fn inv_of(self, u: u64) -> UserInventory {
        self.users@[self.user_index(u)]
    }

    /// Whether the user has a group of this name, ignoring ASCII case.
    pub open spec fn user_has_group(self, u: u64, name: Seq<char>) -> bool {
        exists|i: int|
            0 <= i < self.users@.len() && (#[trigger] self.users@[i]).user == u
                && self.users@[i].has_group(name)
    }

    /// Whether an offer from `from` to `to` is outstanding.
    pub open spec fn has_offer(self, from: u64, to: u64) -> bool {
        exists|i: int|
            0 <= i < self.offers@.len() && (#[trigger] self.offers@[i]).offering() == from
                && self.offers@[i].target_of() == Counterparty::User(to)
    }

    pub open spec fn users_wf(self) -> bool {
        &&& forall|i: int| 0 <= i < self.users@.len() ==> (#[trigger] self.users@[i]).wf()
        &&& forall|a: int, b: int|
            0 <= a < b < self.users@.len() ==> (#[trigger] self.users@[a]).user != (
            #[trigger] self.users@[b]).user
    }

    /// Every stored offer is from one real user to a different real user,
    /// both sides non-empty and disjoint, and at most one offer exists per
    /// ordered user pair.
    pub open spec fn offers_wf(self) -> bool {
        &&& forall|i: int|
            0 <= i < self.offers@.len() ==> {
                let t = #[trigger] self.offers@[i];
                &&& t.wf()
                &&& t.target_of() is User
                &&& t.target_of() != Counterparty::User(t.offering())
                &&& t.offer_ms().entries().len() > 0
                &&& t.request_ms().entries().len() > 0
            }
        &&& forall|a: int, b: int|
            0 <= a < b < self.offers@.len() ==> !((#[trigger] self.offers@[a]).offering() == (
            #[trigger] self.offers@[b]).offering() && self.offers@[a].target_of()
                == self.offers@[b].target_of())
    }

    pub open spec fn settings_wf(self) -> bool {
        &&& forall|a: int, b: int|
            0 <= a < b < self.private_users@.len() ==> #[trigger] self.private_users@[a]
                != #[trigger] self.private_users@[b]
        &&& forall|a: int, b: int|
            0 <= a < b < self.last_seen@.len() ==> (#[trigger] self.last_seen@[a]).0 != (
            #[trigger] self.last_seen@[b]).0
    }

    /// The whole-ledger invariant: inventories, offers and settings are
    /// well-formed, and the grand total stays within the count type.
    pub open spec fn wf(self) -> bool {
        &&& self.users_wf()
        &&& self.offers_wf()
        &&& self.settings_wf()
        &&& self.grand_total() <= u32::MAX
    }

    /// A ledger with no users, offers, log entries, or settings.
    pub fn new() -> (r: LedgerState)
        ensures
            r.wf(),
            r.users@.len() == 0,
            r.offers@.len() == 0,
            r.log@.len() == 0,
            r.private_users@.len() == 0,
            r.last_seen@.len() == 0,
            forall|u: u64, e: int| r.count_of(u, e) == 0,
            r.grand_total() == 0,
    {
        LedgerState {
            users: Vec::new(),
            offers: Vec::new(),
            log: Vec::new(),
            private_users: Vec::new(),
            last_seen: Vec::new(),
        }
    }

    /// The position of the user's inventory, if one exists.
    pub fn find_user(&self, user: u64) -> (r: Option<usize>)
        ensures
            match r {
                Some(i) => i < self.users@.len() && self.users@[i as int].user == user,
                None => !self.has_user(user),
            },
    {
        let mut i: usize = 0;
        while i < self.users.len()
            invariant
                i <= self.users@.len(),
                forall|k: int| 0 <= k < i ==> (#[trigger] self.users@[k]).user != user,
            decreases self.users@.len() - i,
        {
            if self.users[i].user == user {
                return Some(i);
            }
            i = i + 1;
        }
        None
    }

    /// The position of the user's inventory, creating an empty one if none
    /// exists yet.
    pub(crate) fn ensure_user(&mut self, user: u64) -> (i: usize)
        requires
            old(self).wf(),
        ensures
            final(self).wf(),
            i < final(self).users@.len(),
            final(self).users@[i as int].user == user,
            forall|u2: u64, x: int| final(self).count_of(u2, x) == old(self).count_of(u2, x),
            forall|x: int| final(self).total_of(x) == old(self).total_of(x),
            final(self).grand_total() == old(self).grand_total(),
            final(self).offers@ == old(self).offers@,
            final(self).log@ == old(self).log@,
            final(self).private_users@ == old(self).private_users@,
            final(self).last_seen@ == old(self).last_seen@,
            forall|k: int|
                0 <= k < old(self).users@.len() ==> #[trigger] final(self).users@[k] == old(self).users@[k],
            final(self).has_user(user),
            old(self).has_user(user) ==> *final(self) == *old(self),
            !old(self).has_user(user) ==> {
                &&& final(self).users@.len() == old(self).users@.len() + 1
                &&& i == old(self).users@.len()
                &&& final(self).users@[i as int].groups@.len() == 0
                &&& final(self).users@[i as int].ungrouped.entries().len() == 0
                &&& final(self).users@[i as int].total() == 0
            },
    {
        match self.find_user(user) {
            Some(i) => i,
            None => {
                let ghost pre = self.users@;
                self.users.push(UserInventory::empty(user));
                proof {
                    assert(self.users@.drop_last() =~= pre);
                    let fresh = self.users@.last();
                    assert(fresh.total() == 0);
                    assert forall|u2: u64, x: int|
                        count_for(self.users@, u2, x) == count_for(pre, u2, x) by {
                        assert(fresh.count_of(x) == 0);
                    }
                    assert forall|x: int| total_count(self.users@, x) == total_count(
                        pre,
                        x,
                    ) by {
                        assert(fresh.count_of(x) == 0);
                    }
                }
                self.users.len() - 1
            },
        }
    }

    /// Adds one ungrouped unit of the token to the user's inventory.  This
    /// is the only way tokens enter the game besides the recycling payout.
    pub fn grant(&mut self, user: u64, emoji: Emoji)
        requires
            old(self).wf(),
            old(self).grand_total() < u32::MAX,
        ensures
            final(self).wf(),
            final(self).count_of(user, emoji.idx()) == old(self).count_of(user, emoji.idx()) + 1,
            forall|u2: u64, x: int|
                !(u2 == user && x == emoji.idx()) ==> final(self).count_of(u2, x) == old(self).count_of(u2, x),
            final(self).total_of(emoji.idx()) == old(self).total_of(emoji.idx()) + 1,
            forall|x: int|
                x != emoji.idx() ==> final(self).total_of(x) == old(self).total_of(x),
            final(self).grand_total() == old(self).grand_total() + 1,
            final(self).offers@ == old(self).offers@,
            final(self).log@ == old(self).log@,
            final(self).private_users@ == old(self).private_users@,
            final(self).last_seen@ == old(self).last_seen@,
            final(self).has_user(user),
            final(self).users@.len() == old(self).users@.len() + (if old(self).has_user(user) {
                0int
            } else {
                1
            }),
            forall|k: int|
                0 <= k < old(self).users@.len() && (#[trigger] old(self).users@[k]).user != user
                    ==> final(self).users@[k] == old(self).users@[k],
            final(self).inv_of(user).groups@ == (if old(self).has_user(user) {
                old(self).inv_of(user).groups@
            } else {
                Seq::<crate::inventory::GroupData>::empty()
            }),
            final(self).inv_of(user).ungrouped.count_of(emoji.idx()) == (if old(self).has_user(
                user,
            ) {
                old(self).inv_of(user).ungrouped.count_of(emoji.idx())
            } else {
                0nat
            }) + 1,
            forall|x: int|
                x != emoji.idx() ==> final(self).inv_of(user).ungrouped.count_of(x) == (if old(
                    self,
                ).has_user(user) {
                    old(self).inv_of(user).ungrouped.count_of(x)
                } else {
                    0nat
                }),
    {
        let i = self.ensure_user(user);
        let ghost mid = *self;
        let ghost pre = self.users@;
        proof {
            if old(self).has_user(user) {
                lemma_user_index_unique(*old(self), user, i as int);
            }
            assert(mid.users@[i as int].user == user);
            if !old(self).has_user(user) {
                assert(mid.users@[i as int].groups@.len() == 0);
                assert forall|x: int|
                    mid.users@[i as int].ungrouped.count_of(x) == 0 by {
                    crate::emojis_with_counts::lemma_count_absent(
                        mid.users@[i as int].ungrouped.entries(),
                        x,
                    );
                }
            }
        }
        let mut inv = self.users.remove(i);
        proof {
            lemma_user_le_users_total(pre, i as int);
        }
        inv.receive_units(emoji, 1);
        self.users.insert(i, inv);
        proof {
            assert(self.users@ =~= pre.update(i as int, self.users@[i as int]));
            lemma_count_for_update(pre, i as int, self.users@[i as int], user, emoji.idx());
            lemma_total_count_update(pre, i as int, self.users@[i as int], emoji.idx());
            lemma_users_total_update(pre, i as int, self.users@[i as int]);
            assert forall|u2: u64, x: int|
                !(u2 == user && x == emoji.idx()) implies count_for(self.users@, u2, x)
                == count_for(pre, u2, x) by {
                lemma_count_for_update(pre, i as int, self.users@[i as int], u2, x);
            }
            assert forall|x: int| x != emoji.idx() implies total_count(self.users@, x)
                == total_count(pre, x) by {
                lemma_total_count_update(pre, i as int, self.users@[i as int], x);
            }
            assert(final(self).users@[i as int].user == user);
            lemma_user_index_unique(*final(self), user, i as int);
            assert(final(self).inv_of(user) == final(self).users@[i as int]);
            assert forall|k: int|
                0 <= k < old(self).users@.len() && (#[trigger] old(self).users@[k]).user != user
                    implies final(self).users@[k] == old(self).users@[k] by {
                assert(final(self).users@[k] == mid.users@[k]);
            }
        }
    }

    /// How many units the ledger holds in all, over every user: the reading
    /// a caller needs before `grant`, whose precondition bounds this total.
    pub fn total_tokens(&self) -> (r: u64)
        requires
            self.wf(),
        ensures
            r == self.grand_total(),
    {
        proof {
            assert(self.users@.take(0) =~= Seq::<UserInventory>::empty());
        }
        let mut sum: u64 = 0;
        let mut i: usize = 0;
        while i < self.users.len()
            invariant
                i <= self.users@.len(),
                self.wf(),
                sum == users_total(self.users@.take(i as int)),
                sum <= self.grand_total(),
            decreases self.users@.len() - i,
        {
            proof {
                assert(self.users@.take(i + 1).drop_last() =~= self.users@.take(i as int));
                assert(self.users@.take(i + 1).last() == self.users@[i as int]);
                lemma_users_total_take_le(self.users@, i + 1);
                lemma_user_le_users_total(self.users@, i as int);
            }
            sum = sum + self.users[i].total_units();
            i = i + 1;
        }
        proof {
            assert(self.users@.take(self.users@.len() as int) =~= self.users@);
        }
        sum
    }

    /// The number of units of ordinal `idx` the user owns.
    pub fn count_of_user(&self, user: u64, idx: usize) -> (r: u64)
        requires
            self.wf(),
        ensures
            r == self.count_of(user, idx as int),
    {
        match self.find_user(user) {
            Some(i) => {
                proof {
                    lemma_user_le_users_total(self.users@, i as int);
                    lemma_count_for_unique(self.users@, i as int, idx as int);
                }
                let ghost pre = self.users@;
                self.users[i].count_of_emoji(idx)
            },
            None => {
                proof {
                    lemma_count_for_absent(self.users@, user, idx as int);
                }
                0
            },
        }
    }

    /// The ownership-check primitive: whether the user owns at least the
    /// given multiset, count for count.
    pub fn has_at_least(&self, user: u64, emojis: &EmojisWithCounts) -> (r: bool)
        requires
            self.wf(),
            emojis.wf(),
        ensures
            r == forall|e: int| emojis.count_of(e) <= self.count_of(user, e),
    {
        match self.find_user(user) {
            Some(i) => {
                proof {
                    lemma_user_le_users_total(self.users@, i as int);
                    assert forall|e: int|
                        self.count_of(user, e) == self.users@[i as int].count_of(e) by {
                        lemma_count_for_unique(self.users@, i as int, e);
                    }
                }
                self.users[i].owns_at_least(emojis)
            },
            None => {
                proof {
                    assert forall|e: int| self.count_of(user, e) == 0 by {
                        lemma_count_for_absent(self.users@, user, e);
                    }
                }
                let r = emojis.unique_emoji_count() == 0;
                proof {
                    if emojis.entries().len() == 0 {
                        assert forall|e: int| emojis.count_of(e) <= 0 by {}
                    } else {
                        crate::emojis_with_counts::lemma_unique_entry_count(emojis.entries(), 0);
                        assert(emojis.entries()[0].1 >= 1);
                        assert(emojis.count_of(emojis.entries()[0].0.idx()) > 0);
                    }
                }
                r
            },
        }
    }
    /// Moves the exact requested counts from one user to the other.  The
    /// moved units lose their group tags, coming out of the giver's groups
    /// least prioritised first (the ungrouped pool last) and landing in the
    /// taker's ungrouped pool; groups the move empties are deleted and the
    /// taker's own groups are untouched.  The caller must have verified
    /// ownership: lacking units is a programming error, not a user-facing
    /// one, so it is ruled out here rather than reported.
    pub fn transfer(&mut self, from: u64, to: u64, emojis: &EmojisWithCounts)
        requires
            old(self).wf(),
            emojis.wf(),
            from != to,
            forall|e: int| emojis.count_of(e) <= old(self).count_of(from, e),
        ensures
            final(self).wf(),
            forall|e: int|
                final(self).count_of(from, e) == old(self).count_of(from, e) - emojis.count_of(e),
            forall|e: int|
                final(self).count_of(to, e) == old(self).count_of(to, e) + emojis.count_of(e),
            forall|u2: u64, x: int|
                u2 != from && u2 != to ==> final(self).count_of(u2, x) == old(self).count_of(
                    u2,
                    x,
                ),
            forall|e: int| final(self).total_of(e) == old(self).total_of(e),
            final(self).grand_total() == old(self).grand_total(),
            final(self).offers@ == old(self).offers@,
            final(self).log@ == old(self).log@,
            final(self).private_users@ == old(self).private_users@,
            final(self).last_seen@ == old(self).last_seen@,
            final(self).has_user(to),
            forall|k: int|
                0 <= k < old(self).users@.len() && (#[trigger] old(self).users@[k]).user != from
                    && old(self).users@[k].user != to ==> final(self).users@[k] == old(
                    self,
                ).users@[k],
            old(self).has_user(from) ==> {
                let oldinv = old(self).inv_of(from);
                &&& final(self).has_user(from)
                &&& (forall|n: Seq<char>|
                    #[trigger] final(self).inv_of(from).has_group(n) ==> oldinv.has_group(n))
                &&& (forall|n: Seq<char>|
                    #[trigger] final(self).inv_of(from).has_group(n) ==> (forall|e: int|
                        #[trigger] final(self).inv_of(from).groups@[final(self).inv_of(
                            from,
                        ).group_index_of(n)].contents.count_of(e)
                            == crate::inventory::count_after_draw(
                            oldinv.groups@,
                            oldinv.group_index_of(n),
                            e,
                            emojis.count_of(e),
                        )))
                &&& (forall|e: int|
                    final(self).inv_of(from).ungrouped.count_of(e) == oldinv.ungrouped.count_of(e)
                        - min_nat(
                        (emojis.count_of(e) - min_nat(
                            emojis.count_of(e),
                            crate::inventory::groups_count(oldinv.groups@, e),
                        )) as nat,
                        oldinv.ungrouped.count_of(e),
                    ))
            },
            old(self).has_user(to) ==> final(self).inv_of(to).groups@ == old(self).inv_of(
                to,
            ).groups@,
            !old(self).has_user(to) ==> final(self).inv_of(to).groups@.len() == 0,
            forall|e: int|
                final(self).inv_of(to).ungrouped.count_of(e) == (if old(self).has_user(to) {
                    old(self).inv_of(to).ungrouped.count_of(e)
                } else {
                    0nat
                }) + emojis.count_of(e),
    {
        self.withdraw_units(from, emojis);
        let ghost mid = *self;
        proof {
            assert(mid.grand_total() + crate::emojis_with_counts::total_in(emojis.entries())
                == old(self).grand_total());
            // the taker's holdings before the deposit are their old ones:
            // the withdrawal touched only the giver
            if old(self).has_user(to) {
                let kt = old(self).user_index(to);
                assert(old(self).users@[kt].user == to);
                assert(mid.users@[kt] == old(self).users@[kt]);
                lemma_user_index_unique(mid, to, kt);
                assert(mid.inv_of(to) == old(self).inv_of(to));
            } else {
                assert(!mid.has_user(to)) by {
                    if mid.has_user(to) {
                        let kt = choose|kt: int|
                            0 <= kt < mid.users@.len() && (#[trigger] mid.users@[kt]).user == to;
                        assert(old(self).users@[kt].user == to);
                    }
                }
            }
            assert forall|u2: u64, x: int|
                count_for(mid.users@, u2, x) == old(self).count_of(u2, x) - (if u2 == from {
                    emojis.count_of(x)
                } else {
                    0nat
                }) by {
                assert(mid.count_of(u2, x) == count_for(mid.users@, u2, x));
            }
        }
        self.deposit_units(to, emojis);
        proof {
            assert forall|u2: u64, x: int|
                count_for(final(self).users@, u2, x) == count_for(mid.users@, u2, x) + (if u2
                    == to {
                    emojis.count_of(x)
                } else {
                    0nat
                }) by {
                assert(final(self).count_of(u2, x) == count_for(final(self).users@, u2, x));
                assert(mid.count_of(u2, x) == count_for(mid.users@, u2, x));
            }
            assert forall|x: int|
                crate::ledger::total_count(final(self).users@, x) == old(self).total_of(x) by {
                assert(final(self).total_of(x) == mid.total_of(x) + emojis.count_of(x));
                assert(mid.total_of(x) == old(self).total_of(x) - emojis.count_of(x));
            }
            // the giver's inventory is untouched by the deposit
            if old(self).has_user(from) {
                let kf = mid.user_index(from);
                assert(mid.users@[kf].user == from);
                assert(final(self).users@[kf] == mid.users@[kf]);
                lemma_user_index_unique(*final(self), from, kf as int);
                assert(final(self).inv_of(from) == mid.inv_of(from));
                assert(old(self).inv_of(from) == old(self).inv_of(from));
            }
        }
    }

    /// The user's whole holding as one multiset, groups and ungrouped pooled.
    pub fn query(&self, user: u64) -> (r: EmojisWithCounts)
        requires
            self.wf(),
        ensures
            r.wf(),
            forall|e: int| r.count_of(e) == self.count_of(user, e),
    {
        let i = match self.find_user(user) {
            Some(i) => i,
            None => {
                let r = EmojisWithCounts::empty();
                proof {
                    assert forall|e: int| self.count_of(user, e) == 0 by {
                        lemma_count_for_absent(self.users@, user, e);
                    }
                }
                return r;
            },
        };
        proof {
            lemma_user_le_users_total(self.users@, i as int);
            assert forall|e: int| self.count_of(user, e) == self.users@[i as int].count_of(e) by {
                lemma_count_for_unique(self.users@, i as int, e);
            }
        }
        let inv = &self.users[i];
        let mut r = inv.get_ungrouped_emojis();
        let mut g: usize = 0;
        while g < inv.groups.len()
            invariant
                g <= inv.groups@.len(),
                inv == &self.users@[i as int],
                self.wf(),
                i < self.users@.len(),
                inv.wf(),
                inv.total() <= u32::MAX,
                r.wf(),
                forall|e: int|
                    r.count_of(e) == inv.ungrouped.count_of(e)
                        + crate::inventory::groups_count(inv.groups@.take(g as int), e),
                r.total() == inv.ungrouped.total() + crate::inventory::groups_total(
                    inv.groups@.take(g as int),
                ),
            decreases inv.groups@.len() - g,
        {
            proof {
                assert(inv.groups@.take(g + 1).drop_last() =~= inv.groups@.take(g as int));
                assert(inv.groups@.take(g + 1).last() == inv.groups@[g as int]);
            }
            let group_entries = inv.groups[g].contents.iter();
            let ghost gc = inv.groups@[g as int].contents;
            let mut m: usize = 0;
            proof {
                assert(gc.entries().take(0) =~= Seq::<(Emoji, u32)>::empty());
            }
            while m < group_entries.len()
                invariant
                    m <= gc.entries().len(),
                    group_entries@ == gc.entries(),
                    gc.wf(),
                    r.wf(),
                    forall|e: int|
                        r.count_of(e) == inv.ungrouped.count_of(e)
                            + crate::inventory::groups_count(inv.groups@.take(g as int), e)
                            + crate::emojis_with_counts::count_in(gc.entries().take(m as int), e),
                    r.total() == inv.ungrouped.total() + crate::inventory::groups_total(
                        inv.groups@.take(g as int),
                    ) + crate::emojis_with_counts::total_in(gc.entries().take(m as int)),
                    inv == &self.users@[i as int],
                    self.wf(),
                    i < self.users@.len(),
                    inv.wf(),
                    inv.total() <= u32::MAX,
                    g < inv.groups@.len(),
                    gc == inv.groups@[g as int].contents,
                decreases group_entries@.len() - m,
            {
                let (e, c) = group_entries[m];
                proof {
                    assert(gc.entries().take(m + 1).drop_last() =~= gc.entries().take(m as int));
                    assert(gc.entries().take(m + 1).last() == gc.entries()[m as int]);
                    crate::emojis_with_counts::lemma_total_take_le(gc.entries(), m + 1);
                    assert(inv.groups@.take(g + 1).drop_last() =~= inv.groups@.take(g as int));
                    assert(inv.groups@.take(g + 1).last() == inv.groups@[g as int]);
                    lemma_groups_total_take_le(inv.groups@, g + 1);
                }
                r.add(e, c);
                m = m + 1;
            }
            proof {
                assert(gc.entries().take(gc.entries().len() as int) =~= gc.entries());
            }
            g = g + 1;
        }
        proof {
            assert(inv.groups@.take(inv.groups@.len() as int) =~= inv.groups@);
        }
        r
    }

    /// Adds up to the requested counts of the user's tokens to the named
    /// group, creating it if absent; see `UserInventory::add_to_group`.
    /// Ownership is unchanged: only group tags move.
    pub fn add_to_group(&mut self, user: u64, group_name: &str, emojis: &EmojisWithCounts) -> (r: (
        String,
        EmojisWithCounts,
        bool,
    ))
        requires
            old(self).wf(),
            emojis.wf(),
        ensures
            final(self).wf(),
            forall|u2: u64, x: int| final(self).count_of(u2, x) == old(self).count_of(u2, x),
            forall|x: int| final(self).total_of(x) == old(self).total_of(x),
            final(self).grand_total() == old(self).grand_total(),
            final(self).offers@ == old(self).offers@,
            final(self).log@ == old(self).log@,
            final(self).private_users@ == old(self).private_users@,
            final(self).last_seen@ == old(self).last_seen@,
            r.1.wf(),
            forall|e: int|
                r.1.count_of(e) == min_nat(emojis.count_of(e), old(self).count_of(user, e)),
            r.2 == !old(self).user_has_group(user, group_name@),
            crate::inventory::names_eq_nocase(r.0@, group_name@),
            !old(self).user_has_group(user, group_name@) ==> r.0@ == group_name@,
            !old(self).user_has_group(user, group_name@) ==> (final(self).user_has_group(
                user,
                group_name@,
            ) <==> r.1.total() > 0),
            old(self).has_user(user) ==> forall|e: int|
                final(self).inv_of(user).ungrouped.count_of(e) == old(self).inv_of(
                    user,
                ).ungrouped.count_of(e) - min_nat(
                    emojis.count_of(e),
                    old(self).inv_of(user).ungrouped.count_of(e),
                ),
            old(self).user_has_group(user, group_name@) ==> {
                let inv = old(self).inv_of(user);
                let jj = inv.group_index_of(group_name@);
                &&& r.0@ == inv.groups@[jj].name@
                &&& final(self).user_has_group(user, group_name@)
                &&& (forall|e: int|
                    #[trigger] final(self).inv_of(user).groups@[final(self).inv_of(
                        user,
                    ).group_index_of(group_name@)].contents.count_of(e)
                        == crate::inventory::count_after_draw(
                        inv.groups@,
                        jj,
                        e,
                        (emojis.count_of(e) - min_nat(
                            emojis.count_of(e),
                            inv.ungrouped.count_of(e),
                        )) as nat,
                    ) + r.1.count_of(e))
            },
    {
        let i = self.ensure_user(user);
        let ghost mid = *self;
        let ghost pre = self.users@;
        proof {
            lemma_user_le_users_total(pre, i as int);
            assert forall|e: int| count_for(pre, user, e) == old(self).count_of(user, e) by {
                lemma_count_for_unique(pre, i as int, e);
                assert(mid.count_of(user, e) == count_for(pre, user, e));
            }
            assert forall|e: int|
                mid.users@[i as int].count_of(e) == old(self).count_of(user, e) by {
                lemma_count_for_unique(pre, i as int, e);
                assert(mid.count_of(user, e) == count_for(pre, user, e));
            }
            assert(!old(self).has_user(user) ==> !old(self).user_has_group(user, group_name@));
            assert(mid.users@[i as int].has_group(group_name@) == old(self).user_has_group(
                user,
                group_name@,
            )) by {
                if old(self).has_user(user) {
                    if old(self).user_has_group(user, group_name@) {
                        let k = choose|k: int|
                            0 <= k < old(self).users@.len() && (#[trigger] old(self).users@[k]).user == user && old(self).users@[k].has_group(
                                group_name@,
                            );
                        assert(k == i || old(self).users@[k].user != old(self).users@[i as int].user
                            || true);
                        if k < i {
                            assert(old(self).users@[k].user != old(self).users@[i as int].user);
                        } else if i < k {
                            assert(old(self).users@[i as int].user != old(self).users@[k].user);
                        }
                        assert(k == i);
                    }
                }
            }
        }
        let mut inv = self.users.remove(i);
        let out = inv.add_to_group(group_name, emojis);
        self.users.insert(i, inv);
        proof {
            assert(self.users@ =~= pre.update(i as int, self.users@[i as int]));
            lemma_users_total_update(pre, i as int, self.users@[i as int]);
            assert forall|u2: u64, x: int|
                count_for(self.users@, u2, x) == count_for(pre, u2, x) by {
                lemma_count_for_update(pre, i as int, self.users@[i as int], u2, x);
            }
            assert forall|x: int| total_count(self.users@, x) == total_count(pre, x) by {
                lemma_total_count_update(pre, i as int, self.users@[i as int], x);
            }
            assert forall|a: int, b: int|
                0 <= a < b < self.users@.len() implies (#[trigger] self.users@[a]).user != (
            #[trigger] self.users@[b]).user by {
                assert(mid.users@[a].user != mid.users@[b].user);
                if a != i {
                    assert(self.users@[a] == mid.users@[a]);
                }
                if b != i {
                    assert(self.users@[b] == mid.users@[b]);
                }
            }
            assert(final(self).users@[i as int].user == user);
            lemma_user_index_unique(*final(self), user, i as int);
            assert(final(self).inv_of(user) == final(self).users@[i as int]);
            if old(self).has_user(user) {
                lemma_user_index_unique(*old(self), user, i as int);
                assert(old(self).inv_of(user) == mid.users@[i as int]);
            }
            if old(self).user_has_group(user, group_name@) {
                assert(mid.users@[i as int].has_group(group_name@));
            }
            if !old(self).user_has_group(user, group_name@) {
                assert(final(self).user_has_group(user, group_name@) == final(self).users@[i as int].has_group(group_name@)) by {
                    if final(self).user_has_group(user, group_name@) {
                        let k = choose|k: int|
                            0 <= k < final(self).users@.len() && (#[trigger] final(self).users@[k]).user == user && final(self).users@[k].has_group(
                                group_name@,
                            );
                        if k < i {
                            assert(final(self).users@[k].user != final(self).users@[i as int].user);
                        } else if i < k {
                            assert(final(self).users@[i as int].user != final(self).users@[k].user);
                        }
                        assert(k == i);
                    }
                }
            }
        }
        out
    }

    /// Removes up to the requested counts from a group, or from any group
    /// when none is named; see `UserInventory::remove_from_group`.
    pub fn remove_from_group(&mut self, user: u64, emojis: &EmojisWithCounts, group: Option<&str>)
        -> (r: EmojisWithCounts)
        requires
            old(self).wf(),
            emojis.wf(),
        ensures
            final(self).wf(),
            forall|u2: u64, x: int| final(self).count_of(u2, x) == old(self).count_of(u2, x),
            forall|x: int| final(self).total_of(x) == old(self).total_of(x),
            final(self).grand_total() == old(self).grand_total(),
            final(self).offers@ == old(self).offers@,
            final(self).log@ == old(self).log@,
            final(self).private_users@ == old(self).private_users@,
            final(self).last_seen@ == old(self).last_seen@,
            r.wf(),
            match group {
                Some(g) => {
                    &&& (!old(self).user_has_group(user, g@) ==> r.total() == 0)
                    &&& (old(self).user_has_group(user, g@) ==> {
                        let inv = old(self).inv_of(user);
                        let jj = inv.group_index_of(g@);
                        &&& (forall|e: int|
                            r.count_of(e) == min_nat(
                                emojis.count_of(e),
                                inv.groups@[jj].contents.count_of(e),
                            ))
                        &&& (final(self).user_has_group(user, g@) <==> inv.groups@[jj].contents.total()
                            > r.total())
                    })
                },
                None => {
                    &&& (!old(self).has_user(user) ==> r.total() == 0 && *final(self) == *old(
                        self,
                    ))
                    &&& (old(self).has_user(user) ==> forall|e: int|
                        r.count_of(e) == min_nat(
                            emojis.count_of(e),
                            crate::inventory::groups_count(old(self).inv_of(user).groups@, e),
                        ))
                },
            },
    {
        let i = match self.find_user(user) {
            Some(i) => i,
            None => {
                let r = EmojisWithCounts::empty();
                return r;
            },
        };
        let ghost mid = *self;
        let ghost pre = self.users@;
        proof {
            lemma_user_le_users_total(pre, i as int);
            assert forall|e: int| count_for(pre, user, e) == old(self).count_of(user, e) by {
                lemma_count_for_unique(pre, i as int, e);
                assert(mid.count_of(user, e) == count_for(pre, user, e));
            }
            assert forall|e: int|
                mid.users@[i as int].count_of(e) == old(self).count_of(user, e) by {
                lemma_count_for_unique(pre, i as int, e);
                assert(mid.count_of(user, e) == count_for(pre, user, e));
            }
            lemma_user_index_unique(*old(self), user, i as int);
            assert forall|n: Seq<char>|
                #[trigger] mid.users@[i as int].has_group(n) == old(self).user_has_group(
                    user,
                    n,
                ) by {
                if old(self).user_has_group(user, n) {
                    let k = choose|k: int|
                        0 <= k < old(self).users@.len() && (#[trigger] old(self).users@[k]).user
                            == user && old(self).users@[k].has_group(n);
                    if k < i {
                        assert(old(self).users@[k].user != old(self).users@[i as int].user);
                    } else if i < k {
                        assert(old(self).users@[i as int].user != old(self).users@[k].user);
                    }
                    assert(k == i);
                }
            }
        }
        let mut inv = self.users.remove(i);
        let out = inv.remove_from_group(emojis, group);
        self.users.insert(i, inv);
        proof {
            assert(self.users@ =~= pre.update(i as int, self.users@[i as int]));
            lemma_users_total_update(pre, i as int, self.users@[i as int]);
            assert forall|u2: u64, x: int|
                count_for(self.users@, u2, x) == count_for(pre, u2, x) by {
                lemma_count_for_update(pre, i as int, self.users@[i as int], u2, x);
            }
            assert forall|x: int| total_count(self.users@, x) == total_count(pre, x) by {
                lemma_total_count_update(pre, i as int, self.users@[i as int], x);
            }
            assert forall|a: int, b: int|
                0 <= a < b < self.users@.len() implies (#[trigger] self.users@[a]).user != (
            #[trigger] self.users@[b]).user by {
                assert(mid.users@[a].user != mid.users@[b].user);
                if a != i {
                    assert(self.users@[a] == mid.users@[a]);
                }
                if b != i {
                    assert(self.users@[b] == mid.users@[b]);
                }
            }
            assert forall|n: Seq<char>|
                #[trigger] final(self).user_has_group(user, n) == final(self).users@[i as int].has_group(n) by {
                if final(self).user_has_group(user, n) {
                    let k = choose|k: int|
                        0 <= k < final(self).users@.len() && (#[trigger] final(self).users@[k]).user == user && final(self).users@[k].has_group(n);
                    if k < i {
                        assert(final(self).users@[k].user != final(self).users@[i as int].user);
                    } else if i < k {
                        assert(final(self).users@[i as int].user != final(self).users@[k].user);
                    }
                    assert(k == i);
                }
            }
        }
        out
    }

    /// Renames one of the user's groups; see `UserInventory::rename_group`.
    pub fn rename_group(&mut self, user: u64, group: &str, new_name: &str) -> (r: Result<
        String,
        crate::inventory::RenameGroupError,
    >)
        requires
            old(self).wf(),
        ensures
            final(self).wf(),
            forall|u2: u64, x: int| final(self).count_of(u2, x) == old(self).count_of(u2, x),
            forall|x: int| final(self).total_of(x) == old(self).total_of(x),
            final(self).grand_total() == old(self).grand_total(),
            final(self).offers@ == old(self).offers@,
            final(self).log@ == old(self).log@,
            final(self).private_users@ == old(self).private_users@,
            final(self).last_seen@ == old(self).last_seen@,
            r matches Ok(old_name) ==> old(self).user_has_group(user, group@) && {
                let inv = old(self).inv_of(user);
                let jj = inv.group_index_of(group@);
                &&& old_name@ == inv.groups@[jj].name@
                &&& final(self).has_user(user)
                &&& final(self).inv_of(user).groups@.len() == inv.groups@.len()
                &&& final(self).inv_of(user).groups@[jj].name@ == new_name@
                &&& final(self).inv_of(user).groups@[jj].contents == inv.groups@[jj].contents
                &&& (forall|i2: int|
                    0 <= i2 < inv.groups@.len() && i2 != jj ==> #[trigger] final(self).inv_of(
                        user,
                    ).groups@[i2] == inv.groups@[i2])
                &&& final(self).inv_of(user).ungrouped == inv.ungrouped
                &&& (forall|k: int|
                    0 <= k < old(self).users@.len() && (#[trigger] old(self).users@[k]).user
                        != user ==> final(self).users@[k] == old(self).users@[k])
                &&& final(self).user_has_group(user, new_name@)
            },
            r matches Err(crate::inventory::RenameGroupError::NoSuchGroup) ==> !old(self).user_has_group(user, group@),
            r is Err ==> final(self).users@ == old(self).users@,
            r matches Err(crate::inventory::RenameGroupError::NameTaken(_)) ==> old(self).user_has_group(user, group@) && old(self).user_has_group(user, new_name@),
    {
        let i = match self.find_user(user) {
            Some(i) => i,
            None => {
                return Err(crate::inventory::RenameGroupError::NoSuchGroup);
            },
        };
        let ghost mid = *self;
        let ghost pre = self.users@;
        proof {
            lemma_user_index_unique(*old(self), user, i as int);
            lemma_user_le_users_total(pre, i as int);
            assert forall|n: Seq<char>|
                #[trigger] mid.users@[i as int].has_group(n) == old(self).user_has_group(
                    user,
                    n,
                ) by {
                if old(self).user_has_group(user, n) {
                    let k = choose|k: int|
                        0 <= k < old(self).users@.len() && (#[trigger] old(self).users@[k]).user
                            == user && old(self).users@[k].has_group(n);
                    if k < i {
                        assert(old(self).users@[k].user != old(self).users@[i as int].user);
                    } else if i < k {
                        assert(old(self).users@[i as int].user != old(self).users@[k].user);
                    }
                    assert(k == i);
                }
            }
        }
        let mut inv = self.users.remove(i);
        let ghost inv_pre = inv;
        let out = inv.rename_group(group, new_name);
        self.users.insert(i, inv);
        proof {
            assert(self.users@ =~= pre.update(i as int, self.users@[i as int]));
            lemma_users_total_update(pre, i as int, self.users@[i as int]);
            assert forall|u2: u64, x: int|
                count_for(self.users@, u2, x) == count_for(pre, u2, x) by {
                lemma_count_for_update(pre, i as int, self.users@[i as int], u2, x);
            }
            assert forall|x: int| total_count(self.users@, x) == total_count(pre, x) by {
                lemma_total_count_update(pre, i as int, self.users@[i as int], x);
            }
            assert forall|a: int, b: int|
                0 <= a < b < self.users@.len() implies (#[trigger] self.users@[a]).user != (
            #[trigger] self.users@[b]).user by {
                assert(mid.users@[a].user != mid.users@[b].user);
                if a != i {
                    assert(self.users@[a] == mid.users@[a]);
                }
                if b != i {
                    assert(self.users@[b] == mid.users@[b]);
                }
            }
            if out is Ok {
                let jj = inv_pre.group_index_of(group@);
                assert(final(self).users@[i as int].has_group(new_name@)) by {
                    assert(final(self).users@[i as int].groups@[jj].name@ == new_name@);
                }
                assert(final(self).user_has_group(user, new_name@)) by {
                    assert(final(self).users@[i as int].user == user);
                }
                lemma_user_index_unique(*final(self), user, i as int);
                assert(old(self).inv_of(user) == inv_pre);
                assert(final(self).inv_of(user) == final(self).users@[i as int]);
                assert forall|k: int|
                    0 <= k < old(self).users@.len() && (#[trigger] old(self).users@[k]).user
                        != user implies final(self).users@[k] == old(self).users@[k] by {
                    assert(old(self).users@[i as int].user == user);
                }
            }
            if out is Err {
                assert(final(self).users@ =~= old(self).users@);
            }
        }
        out
    }

    /// The user's group names with unit counts, in rank order, and the number
    /// of ungrouped units; see `UserInventory::list_groups`.
    pub fn list_groups(&self, user: u64) -> (r: (Vec<(String, u32)>, u32))
        requires
            self.wf(),
        ensures
            self.has_user(user) ==> {
                let inv = self.inv_of(user);
                &&& r.0@.len() == inv.groups@.len()
                &&& (forall|i: int|
                    0 <= i < inv.groups@.len() ==> (#[trigger] r.0@[i]).0@ == inv.groups@[i].name@
                        && r.0@[i].1 == inv.groups@[i].contents.total())
                &&& r.1 == inv.ungrouped.total()
            },
            !self.has_user(user) ==> r.0@.len() == 0 && r.1 == 0,
    {
        match self.find_user(user) {
            Some(i) => {
                proof {
                    lemma_user_index_unique(*self, user, i as int);
                    lemma_user_le_users_total(self.users@, i as int);
                }
                self.users[i].list_groups()
            },
            None => (Vec::new(), 0),
        }
    }

    /// The stored name and contents of one of the user's groups, or nothing
    /// when no group matches; see `UserInventory::group_name_and_contents`.
    pub fn group_name_and_contents(&self, user: u64, group: &str) -> (r: Option<
        (String, EmojisWithCounts),
    >)
        requires
            self.wf(),
        ensures
            r is Some <==> self.user_has_group(user, group@),
            match r {
                Some(pair) => {
                    let inv = self.inv_of(user);
                    let jj = inv.group_index_of(group@);
                    &&& pair.0@ == inv.groups@[jj].name@
                    &&& pair.1.entries() == inv.groups@[jj].contents.entries()
                },
                None => true,
            },
    {
        match self.find_user(user) {
            Some(i) => {
                proof {
                    lemma_user_index_unique(*self, user, i as int);
                    assert forall|n: Seq<char>|
                        #[trigger] self.users@[i as int].has_group(n) == self.user_has_group(
                            user,
                            n,
                        ) by {
                        if self.user_has_group(user, n) {
                            let k = choose|k: int|
                                0 <= k < self.users@.len() && (#[trigger] self.users@[k]).user
                                    == user && self.users@[k].has_group(n);
                            if k < i {
                                assert(self.users@[k].user != self.users@[i as int].user);
                            } else if i < k {
                                assert(self.users@[i as int].user != self.users@[k].user);
                            }
                            assert(k == i);
                        }
                    }
                }
                self.users[i].group_name_and_contents(group)
            },
            None => None,
        }
    }

    /// The user's ungrouped tokens.
    pub fn get_ungrouped_emojis(&self, user: u64) -> (r: EmojisWithCounts)
        requires
            self.wf(),
        ensures
            r.wf(),
            self.has_user(user) ==> r.entries() == self.inv_of(user).ungrouped.entries(),
            !self.has_user(user) ==> r.entries().len() == 0,
    {
        match self.find_user(user) {
            Some(i) => {
                proof {
                    lemma_user_index_unique(*self, user, i as int);
                }
                self.users[i].get_ungrouped_emojis()
            },
            None => EmojisWithCounts::empty(),
        }
    }

    /// Moves one of the user's groups to an absolute rank; see
    /// `UserInventory::reposition_group`.
    pub fn reposition_group(&mut self, user: u64, group: &str, new_position: u32) -> (r: Result<
        (String, crate::inventory::RepositionOutcome, u32, u32),
        (),
    >)
        requires
            old(self).wf(),
        ensures
            final(self).wf(),
            forall|u2: u64, x: int| final(self).count_of(u2, x) == old(self).count_of(u2, x),
            forall|x: int| final(self).total_of(x) == old(self).total_of(x),
            final(self).grand_total() == old(self).grand_total(),
            final(self).offers@ == old(self).offers@,
            final(self).log@ == old(self).log@,
            final(self).private_users@ == old(self).private_users@,
            final(self).last_seen@ == old(self).last_seen@,
            r is Err ==> !old(self).user_has_group(user, group@),
            r matches Ok(outcome) ==> old(self).user_has_group(user, group@) && {
                let inv = old(self).inv_of(user);
                let jj = inv.group_index_of(group@);
                let newp = min_nat(new_position as nat, (inv.groups@.len() - 1) as nat);
                &&& outcome.3 == inv.groups@.len()
                &&& outcome.2 == jj
                &&& outcome.0@ == inv.groups@[jj].name@
                &&& final(self).inv_of(user).groups@ == inv.groups@.remove(jj).insert(
                    newp as int,
                    inv.groups@[jj],
                )
                &&& final(self).inv_of(user).ungrouped == inv.ungrouped
                &&& (forall|k: int|
                    0 <= k < old(self).users@.len() && (#[trigger] old(self).users@[k]).user
                        != user ==> final(self).users@[k] == old(self).users@[k])
                &&& (outcome.1 is DidNotMove <==> newp == jj)
                &&& (outcome.1 is MovedToFront <==> newp != jj && newp == 0)
                &&& (outcome.1 is MovedToBack <==> newp != jj && newp != 0 && newp
                    == inv.groups@.len() - 1)
                &&& (outcome.1 is MovedBetween <==> newp != jj && 0 < newp < inv.groups@.len() - 1)
                &&& (outcome.1 matches crate::inventory::RepositionOutcome::MovedBetween(
                    before,
                    after,
                ) ==> {
                    let fg = final(self).inv_of(user).groups@;
                    &&& before@ == fg[newp as int - 1].name@
                    &&& after@ == fg[newp as int + 1].name@
                })
            },
            r is Err ==> final(self).users@ == old(self).users@,
    {
        let i = match self.find_user(user) {
            Some(i) => i,
            None => {
                return Err(());
            },
        };
        proof {
            lemma_user_index_unique(*old(self), user, i as int);
        }
        proof {
            crate::inventory::lemma_groups_len_le_total(self.users@[i as int].groups@);
            lemma_user_le_users_total(self.users@, i as int);
        }
        let ghost pre = self.users@;
        let mut inv = self.users.remove(i);
        let ghost inv_pre = inv;
        let out = inv.reposition_group(group, new_position);
        self.users.insert(i, inv);
        proof {
            assert(self.users@ =~= pre.update(i as int, self.users@[i as int]));
            lemma_users_total_update(pre, i as int, self.users@[i as int]);
            assert forall|u2: u64, x: int|
                count_for(self.users@, u2, x) == count_for(pre, u2, x) by {
                lemma_count_for_update(pre, i as int, self.users@[i as int], u2, x);
            }
            assert forall|x: int| total_count(self.users@, x) == total_count(pre, x) by {
                lemma_total_count_update(pre, i as int, self.users@[i as int], x);
            }
            assert forall|a: int, b: int|
                0 <= a < b < self.users@.len() implies (#[trigger] self.users@[a]).user != (
            #[trigger] self.users@[b]).user by {
                assert(old(self).users@[a].user != old(self).users@[b].user);
                if a != i {
                    assert(self.users@[a] == old(self).users@[a]);
                }
                if b != i {
                    assert(self.users@[b] == old(self).users@[b]);
                }
            }
            if out is Ok {
                assert(!old(self).user_has_group(user, group@) ==> !inv_pre.has_group(group@));
                lemma_user_index_unique(*final(self), user, i as int);
                assert(old(self).inv_of(user) == inv_pre);
                assert(final(self).inv_of(user) == final(self).users@[i as int]);
                assert forall|k: int|
                    0 <= k < old(self).users@.len() && (#[trigger] old(self).users@[k]).user
                        != user implies final(self).users@[k] == old(self).users@[k] by {
                    assert(old(self).users@[i as int].user == user);
                }
            }
            if out is Err {
                assert(!inv_pre.has_group(group@));
                assert forall|k: int|
                    0 <= k < old(self).users@.len() && (#[trigger] old(self).users@[k]).user
                        == user implies !old(self).users@[k].has_group(group@) by {
                    if k < i {
                        assert(old(self).users@[k].user != old(self).users@[i as int].user);
                    } else if i < k {
                        assert(old(self).users@[i as int].user != old(self).users@[k].user);
                    }
                    assert(k == i);
                }
            }
        }
        out
    }

    /// Whether the user has set their inventory private.
    pub fn is_private(&self, user: u64) -> (r: bool)
        ensures
            r == self.private_users@.contains(user),
    {
        let mut i: usize = 0;
        while i < self.private_users.len()
            invariant
                i <= self.private_users@.len(),
                forall|k: int| 0 <= k < i ==> self.private_users@[k] != user,
            decreases self.private_users@.len() - i,
        {
            if self.private_users[i] == user {
                return true;
            }
            i = i + 1;
        }
        proof {
            if self.private_users@.contains(user) {
                let k = choose|k: int|
                    0 <= k < self.private_users@.len() && self.private_users@[k] == user;
            }
        }
        false
    }

    /// Toggles the user's privacy flag; returns whether the inventory is now
    /// private.
    pub fn toggle_private(&mut self, user: u64) -> (r: bool)
        requires
            old(self).wf(),
        ensures
            final(self).wf(),
            r == !old(self).private_users@.contains(user),
            final(self).private_users@.contains(user) == r,
            forall|u2: u64|
                u2 != user ==> final(self).private_users@.contains(u2) == old(self).private_users@.contains(u2),
            final(self).users@ == old(self).users@,
            final(self).offers@ == old(self).offers@,
            final(self).log@ == old(self).log@,
            final(self).last_seen@ == old(self).last_seen@,
    {
        let mut i: usize = 0;
        while i < self.private_users.len()
            invariant
                i <= self.private_users@.len(),
                forall|k: int| 0 <= k < i ==> self.private_users@[k] != user,
                self == old(self),
                old(self).wf(),
            decreases self.private_users@.len() - i,
        {
            if self.private_users[i] == user {
                let ghost pre = self.private_users@;
                self.private_users.remove(i);
                proof {
                    assert(pre.contains(user));
                    assert forall|a: int, b: int|
                        0 <= a < b < final(self).private_users@.len() implies #[trigger] final(self).private_users@[a] != #[trigger] final(self).private_users@[b] by {
                        let ma: int = if a < i { a } else { a + 1 };
                        let mb: int = if b < i { b } else { b + 1 };
                        assert(final(self).private_users@[a] == pre[ma]);
                        assert(final(self).private_users@[b] == pre[mb]);
                        assert(pre[ma] != pre[mb]);
                    }
                    assert forall|u2: u64|
                        u2 != user implies final(self).private_users@.contains(u2) == pre.contains(
                        u2,
                    ) by {
                        if pre.contains(u2) {
                            let k = choose|k: int| 0 <= k < pre.len() && pre[k] == u2;
                            if k < i {
                                assert(final(self).private_users@[k] == u2);
                            } else {
                                assert(k > i);
                                assert(final(self).private_users@[k - 1] == u2);
                            }
                        }
                        if final(self).private_users@.contains(u2) {
                            let k = choose|k: int|
                                0 <= k < final(self).private_users@.len() && final(self).private_users@[k] == u2;
                            if k < i {
                                assert(pre[k] == u2);
                            } else {
                                assert(pre[k + 1] == u2);
                            }
                        }
                    }
                    assert(!final(self).private_users@.contains(user)) by {
                        if final(self).private_users@.contains(user) {
                            let k = choose|k: int|
                                0 <= k < final(self).private_users@.len() && final(self).private_users@[k] == user;
                            if k < i {
                                assert(pre[k] == user);
                            } else {
                                assert(pre[k + 1] == user);
                            }
                        }
                    }
                }
                return false;
            }
            i = i + 1;
        }
        let ghost pre = self.private_users@;
        self.private_users.push(user);
        proof {
            assert(!pre.contains(user)) by {
                if pre.contains(user) {
                    let k = choose|k: int| 0 <= k < pre.len() && pre[k] == user;
                }
            }
            assert(final(self).private_users@.drop_last() =~= pre);
            assert(final(self).private_users@.contains(user)) by {
                assert(final(self).private_users@.last() == user);
            }
            assert forall|u2: u64|
                u2 != user implies final(self).private_users@.contains(u2) == pre.contains(
                u2,
            ) by {
                if pre.contains(u2) {
                    let k = choose|k: int| 0 <= k < pre.len() && pre[k] == u2;
                    assert(final(self).private_users@[k] == u2);
                }
                if final(self).private_users@.contains(u2) {
                    let k = choose|k: int|
                        0 <= k < final(self).private_users@.len() && final(self).private_users@[k] == u2;
                    assert(k < pre.len());
                    assert(pre[k] == u2);
                }
            }
        }
        true
    }

    /// Whether the user was seen at or after the given period, and if not,
    /// marks them seen now.  Returns whether they had already been seen, so a
    /// `false` means the periodic reward is due.
    pub fn check_and_mark_seen(&mut self, user: u64, period: u64) -> (r: bool)
        requires
            old(self).wf(),
        ensures
            final(self).wf(),
            r == exists|k: int|
                0 <= k < old(self).last_seen@.len() && (#[trigger] old(self).last_seen@[k]).0
                    == user && old(self).last_seen@[k].1 >= period,
            exists|k: int|
                0 <= k < final(self).last_seen@.len() && (#[trigger] final(self).last_seen@[k]).0
                    == user && final(self).last_seen@[k].1 >= period,
            final(self).users@ == old(self).users@,
            final(self).offers@ == old(self).offers@,
            final(self).log@ == old(self).log@,
            final(self).private_users@ == old(self).private_users@,
    {
        let mut i: usize = 0;
        while i < self.last_seen.len()
            invariant
                i <= self.last_seen@.len(),
                forall|k: int| 0 <= k < i ==> (#[trigger] self.last_seen@[k]).0 != user,
                self == old(self),
                old(self).wf(),
            decreases self.last_seen@.len() - i,
        {
            let (u, p) = self.last_seen[i];
            if u == user {
                if p >= period {
                    proof {
                        assert(old(self).last_seen@[i as int].0 == user && old(self).last_seen@[i as int].1 >= period);
                    }
                    return true;
                }
                let ghost pre = self.last_seen@;
                self.last_seen.set(i, (user, period));
                proof {
                    assert(final(self).last_seen@[i as int].0 == user && final(self).last_seen@[i as int].1 >= period);
                    assert forall|k: int|
                        0 <= k < old(self).last_seen@.len() && (#[trigger] old(self).last_seen@[k]).0 == user implies old(self).last_seen@[k].1 < period by {
                        if k < i {
                        } else if k > i {
                            assert(pre[i as int].0 != pre[k].0);
                        }
                    }
                    assert forall|a: int, b: int|
                        0 <= a < b < final(self).last_seen@.len() implies (#[trigger] final(self).last_seen@[a]).0 != (#[trigger] final(self).last_seen@[b]).0 by {
                        assert(pre[a].0 != pre[b].0);
                    }
                }
                return false;
            }
            i = i + 1;
        }
        let ghost pre = self.last_seen@;
        self.last_seen.push((user, period));
        proof {
            assert(final(self).last_seen@.last() == (user, period));
            assert(final(self).last_seen@[final(self).last_seen@.len() - 1].0 == user);
            assert forall|k: int|
                0 <= k < old(self).last_seen@.len() implies (#[trigger] old(self).last_seen@[k]).0 != user by {}
            assert forall|a: int, b: int|
                0 <= a < b < final(self).last_seen@.len() implies (#[trigger] final(self).last_seen@[a]).0 != (#[trigger] final(self).last_seen@[b]).0 by {
                if b < pre.len() {
                    assert(pre[a].0 != pre[b].0);
                } else {
                    assert(final(self).last_seen@[a] == pre[a]);
                }
            }
        }
        false
    }

    /// Grants one random catalog token if the user has not been seen at or
    /// after the given period, marking them seen; the reward for showing up.
    pub fn maybe_give_periodic_emoji(
        &mut self,
        catalog: &crate::emoji::EmojiMap,
        user: u64,
        period: u64,
    ) -> (r: Option<Emoji>)
        requires
            old(self).wf(),
            old(self).grand_total() < u32::MAX,
            catalog.wf(),
            catalog.entries().len() > 0,
        ensures
            final(self).wf(),
            r is None <==> exists|k: int|
                0 <= k < old(self).last_seen@.len() && (#[trigger] old(self).last_seen@[k]).0
                    == user && old(self).last_seen@[k].1 >= period,
            exists|k: int|
                0 <= k < final(self).last_seen@.len() && (#[trigger] final(self).last_seen@[k]).0
                    == user && final(self).last_seen@[k].1 >= period,
            final(self).private_users@ == old(self).private_users@,
            match r {
                None => {
                    &&& (forall|u2: u64, x: int|
                        final(self).count_of(u2, x) == old(self).count_of(u2, x))
                    &&& final(self).grand_total() == old(self).grand_total()
                },
                Some(e) => {
                    &&& 0 <= e.idx() < catalog.entries().len()
                    &&& final(self).count_of(user, e.idx()) == old(self).count_of(user, e.idx())
                        + 1
                    &&& final(self).total_of(e.idx()) == old(self).total_of(e.idx()) + 1
                    &&& (forall|x: int|
                        x != e.idx() ==> final(self).total_of(x) == old(self).total_of(x))
                    &&& final(self).grand_total() == old(self).grand_total() + 1
                },
            },
            final(self).offers@ == old(self).offers@,
            final(self).log@ == old(self).log@,
    {
        if self.check_and_mark_seen(user, period) {
            return None;
        }
        let emoji = catalog.random();
        self.grant(user, emoji);
        Some(emoji)
    }

    /// The users who own the given token and have not set their inventory
    /// private, each with how many they own.
    pub fn find_emoji_users(&self, emoji: Emoji) -> (r: Vec<(u64, u64)>)
        requires
            self.wf(),
        ensures
            forall|k: int|
                0 <= k < r@.len() ==> {
                    let (u, c) = #[trigger] r@[k];
                    &&& c > 0
                    &&& c == self.count_of(u, emoji.idx())
                    &&& !self.private_users@.contains(u)
                },
            forall|i: int|
                0 <= i < self.users@.len() && (#[trigger] self.users@[i]).count_of(emoji.idx()) > 0
                    && !self.private_users@.contains(self.users@[i].user) ==> exists|k: int|
                    0 <= k < r@.len() && (#[trigger] r@[k]).0 == self.users@[i].user,
    {
        let mut r: Vec<(u64, u64)> = Vec::new();
        let mut i: usize = 0;
        while i < self.users.len()
            invariant
                i <= self.users@.len(),
                self.wf(),
                forall|k: int|
                    0 <= k < r@.len() ==> {
                        let (u, c) = #[trigger] r@[k];
                        &&& c > 0
                        &&& c == self.count_of(u, emoji.idx())
                        &&& !self.private_users@.contains(u)
                    },
                forall|i2: int|
                    0 <= i2 < i && (#[trigger] self.users@[i2]).count_of(emoji.idx()) > 0
                        && !self.private_users@.contains(self.users@[i2].user) ==> exists|k: int|
                        0 <= k < r@.len() && (#[trigger] r@[k]).0 == self.users@[i2].user,
            decreases self.users@.len() - i,
        {
            proof {
                lemma_user_le_users_total(self.users@, i as int);
            }
            let count = self.users[i].count_of_emoji(emoji.index());
            if count > 0 && !self.is_private(self.users[i].user) {
                let ghost r_pre = r@;
                proof {
                    lemma_count_for_unique(self.users@, i as int, emoji.idx());
                }
                r.push((self.users[i].user, count));
                proof {
                    assert(r@.drop_last() =~= r_pre);
                    assert forall|i2: int|
                        0 <= i2 < i + 1 && (#[trigger] self.users@[i2]).count_of(emoji.idx()) > 0
                            && !self.private_users@.contains(self.users@[i2].user) implies exists|
                        k: int,
                    |
                        0 <= k < r@.len() && (#[trigger] r@[k]).0 == self.users@[i2].user by {
                        if i2 < i {
                            let k = choose|k: int|
                                0 <= k < r_pre.len() && (#[trigger] r_pre[k]).0
                                    == self.users@[i2].user;
                            assert(r@[k].0 == self.users@[i2].user);
                        } else {
                            assert(r@[r@.len() - 1].0 == self.users@[i2].user);
                        }
                    }
                }
            }
            i = i + 1;
        }
        r
    }

    /// The user's holding split by group, in rank order, together with the
    /// ungrouped remainder when there is one.
    pub fn get_user_emojis_grouped(&self, user: u64) -> (r: (
        Vec<(String, EmojisWithCounts)>,
        Option<EmojisWithCounts>,
    ))
        requires
            self.wf(),
        ensures
            self.has_user(user) ==> {
                let inv = self.inv_of(user);
                &&& r.0@.len() == inv.groups@.len()
                &&& (forall|i: int|
                    0 <= i < inv.groups@.len() ==> (#[trigger] r.0@[i]).0@ == inv.groups@[i].name@
                        && r.0@[i].1.entries() == inv.groups@[i].contents.entries())
                &&& (r.1 is Some <==> inv.ungrouped.entries().len() > 0)
                &&& (r.1 matches Some(un) ==> un.entries() == inv.ungrouped.entries())
            },
            !self.has_user(user) ==> r.0@.len() == 0 && r.1 is None,
    {
        let i = match self.find_user(user) {
            Some(i) => i,
            None => {
                return (Vec::new(), None);
            },
        };
        proof {
            lemma_user_index_unique(*self, user, i as int);
        }
        let inv = &self.users[i];
        let mut named: Vec<(String, EmojisWithCounts)> = Vec::new();
        let mut g: usize = 0;
        while g < inv.groups.len()
            invariant
                g <= inv.groups@.len(),
                inv == &self.users@[i as int],
                i < self.users@.len(),
                named@.len() == g,
                forall|k: int|
                    0 <= k < g ==> (#[trigger] named@[k]).0@ == inv.groups@[k].name@
                        && named@[k].1.entries() == inv.groups@[k].contents.entries(),
            decreases inv.groups@.len() - g,
        {
            named.push((inv.groups[g].name.clone(), inv.groups[g].contents.duplicate()));
            g = g + 1;
        }
        let ungrouped = if inv.ungrouped.is_empty() {
            None
        } else {
            Some(inv.ungrouped.duplicate())
        };
        (named, ungrouped)
    }
}

/// A prefix of the group list holds no more than the whole.
pub proof fn lemma_groups_total_take_le(gs: Seq<GroupData>, i: int)
    requires
        0 <= i <= gs.len(),
    ensures
        crate::inventory::groups_total(gs.take(i)) <= crate::inventory::groups_total(gs),
    decreases gs.len(),
{
    if i == gs.len() {
        assert(gs.take(i) =~= gs);
    } else {
        assert(gs.take(i) =~= gs.drop_last().take(i));
        lemma_groups_total_take_le(gs.drop_last(), i);
    }
}

/// Under well-formedness, any position whose user id matches is the one
/// `user_index` names.
pub proof fn lemma_user_index_unique(s: LedgerState, u: u64, j: int)
    requires
        s.users_wf(),
        0 <= j < s.users@.len(),
        s.users@[j].user == u,
    ensures
        s.has_user(u),
        s.user_index(u) == j,
        s.inv_of(u) == s.users@[j],
{
    assert(s.has_user(u));
    let jj = s.user_index(u);
    assert(0 <= jj < s.users@.len() && s.users@[jj].user == u);
    if jj < j {
        assert(s.users@[jj].user != s.users@[j].user);
    } else if j < jj {
        assert(s.users@[j].user != s.users@[jj].user);
    }
}

} // verus!
