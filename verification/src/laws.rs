//! The ledger's standing laws, each stated once over the public
//! specifications and proved.  Laws that speak about a single operation
//! stand in that operation's `ensures` instead: conservation is stated on
//! `grant`, `try_confirm_trade` and `recycle`; offer disjointness and the
//! ordered precondition checks on `try_offer_trade`; exact recycling arity on
//! `recycle`; and the do-nothing guarantee of a declined or timed-out
//! confirmation on `respond_to_confirmation`.

use vstd::prelude::*;

use crate::emojis_with_counts::EmojisWithCounts;
use crate::emojis_with_counts::lemma_same_counts_same_total;
use crate::inventory::UserInventory;
use crate::inventory::char_eq_nocase;
use crate::inventory::lemma_group_index_unique;
use crate::inventory::min_nat;
use crate::inventory::names_eq_nocase;
use crate::ledger::LedgerState;

verus! {

/// No count is ever negative: a count the ledger reports, for any user and
/// any token, is a natural number, so no sequence of operations can drive a
/// holding below zero.
pub proof fn lemma_counts_nonnegative(s: LedgerState, u: u64, e: int)
    ensures
        s.count_of(u, e) >= 0,
        s.total_of(e) >= 0,
{
}

/// At most one outstanding offer exists per ordered pair of users: two
/// stored offers with the same offering user and the same counterparty are
/// the same offer.
pub proof fn lemma_at_most_one_offer(s: LedgerState, a: int, b: int)
    requires
        s.wf(),
        0 <= a < s.offers@.len(),
        0 <= b < s.offers@.len(),
        s.offers@[a].offering() == s.offers@[b].offering(),
        s.offers@[a].target_of() == s.offers@[b].target_of(),
    ensures
        a == b,
{
    if a < b {
        assert(!(s.offers@[a].offering() == s.offers@[b].offering() && s.offers@[a].target_of()
            == s.offers@[b].target_of()));
    } else if b < a {
        assert(!(s.offers@[b].offering() == s.offers@[a].offering() && s.offers@[b].target_of()
            == s.offers@[a].target_of()));
    }
}

/// No group exists with zero member entries at rest: in a well-formed
/// ledger, every group of every user holds at least one unit.
pub proof fn lemma_no_empty_groups(s: LedgerState, i: int, j: int)
    requires
        s.wf(),
        0 <= i < s.users@.len(),
        0 <= j < s.users@[i].groups@.len(),
    ensures
        s.users@[i].groups@[j].contents.entries().len() > 0,
        s.users@[i].groups@[j].contents.total() > 0,
{
    let gc = s.users@[i].groups@[j].contents;
    assert(gc.wf() && gc.entries().len() > 0);
    assert(gc.entries()[gc.entries().len() - 1].1 >= 1);
    assert(gc.total() >= gc.entries().last().1);
}

/// A group's rank: its position in the group list.  Ranks are not stored but
/// structural, which is what keeps them dense.
pub open spec fn group_rank(inv: UserInventory, j: int) -> int {
    j
}

/// Group ranks are dense and gap-free: for a user with k groups the occupied
/// ranks are exactly 0 through k-1, after any operation.
pub proof fn lemma_gap_free_ranks(inv: UserInventory, r: int)
    ensures
        (exists|j: int| 0 <= j < inv.groups@.len() && #[trigger] group_rank(inv, j) == r) <==> 0
            <= r < inv.groups@.len(),
{
    if 0 <= r < inv.groups@.len() {
        assert(0 <= r < inv.groups@.len() && group_rank(inv, r) == r);
    }
}

/// Round trip: when `add_to_group` put the whole of `x` into a freshly named
/// group, a following `remove_from_group` of `x` naming that group removes
/// exactly `x`, and the group ceases to exist.  The premises are what those
/// two operations' contracts guarantee; the conclusion pins the removed
/// subset and the group's deletion.
pub proof fn lemma_group_round_trip(
    pre: UserInventory,
    mid: UserInventory,
    x: EmojisWithCounts,
    added: EmojisWithCounts,
    removed: EmojisWithCounts,
    name: Seq<char>,
    post_has: bool,
)
    requires
        mid.wf(),
        x.wf(),
        added.wf(),
        removed.wf(),
        x.total() > 0,
        // the add fully succeeded on a fresh group name
        !pre.has_group(name),
        forall|e: int| added.count_of(e) == x.count_of(e),
        // what add_to_group then guarantees about the fresh group
        mid.groups@.len() > 0,
        mid.groups@.last().name@ == name,
        forall|e: int|
            mid.groups@.last().contents.count_of(e) == added.count_of(e),
        // what remove_from_group(x, that group) returned and decided
        forall|e: int|
            removed.count_of(e) == min_nat(
                x.count_of(e),
                mid.groups@[mid.group_index_of(name)].contents.count_of(e),
            ),
        post_has == (mid.groups@[mid.group_index_of(name)].contents.total() > removed.total()),
    ensures
        forall|e: int| removed.count_of(e) == x.count_of(e),
        !post_has,
{
    let last = mid.groups@.len() - 1;
    assert(names_eq_nocase(mid.groups@[last].name@, name)) by {
        assert forall|i: int| 0 <= i < name.len() implies char_eq_nocase(name[i], name[i]) by {}
    }
    lemma_group_index_unique(mid, name, last);
    let gc = mid.groups@[mid.group_index_of(name)].contents;
    assert forall|e: int| removed.count_of(e) == gc.count_of(e) by {
        assert(removed.count_of(e) == min_nat(x.count_of(e), gc.count_of(e)));
        assert(gc.count_of(e) == x.count_of(e));
    }
    assert forall|e: int|
        crate::emojis_with_counts::count_in(removed.entries(), e)
            == crate::emojis_with_counts::count_in(gc.entries(), e) by {
        assert(removed.count_of(e) == gc.count_of(e));
    }
    lemma_same_counts_same_total(removed.entries(), gc.entries());
}

} // verus!
