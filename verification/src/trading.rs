//! The trade offer protocol: a one-to-one proposal and acceptance state
//! machine with double validation, a human confirmation step, atomic
//! settlement, and a sweep that deletes offers a settlement has made
//! unfulfillable.  Recycling is settlement's unilateral special case.

use vstd::prelude::*;

use crate::emoji::Emoji;
use crate::emojis_with_counts::EmojisWithCounts;
use crate::inventory::GroupData;
use crate::inventory::count_after_draw;
use crate::inventory::groups_count;
use crate::inventory::min_nat;
use crate::ledger::LedgerState;
use crate::ledger::count_for;
use crate::ledger::lemma_count_for_unique;
use crate::ledger::lemma_user_index_unique;
use crate::trade_offer::Counterparty;
use crate::trade_offer::TradeLogEntry;
use crate::trade_offer::TradeOffer;

verus! {

/// Why a trade offer could not be made or removed.
#[derive(Debug, PartialEq, Eq)]
pub enum TradeError {
    SelfTrade,
    OfferAlreadyExists,
    OfferEmpty,
    RequestEmpty,
    OverlappingSides,
    OffererLacksEmojis,
    NoSuchOffer,
}

/// The outcome of re-deriving an offer's validity from current ledger state.
pub enum TradeOfferValidation {
    Valid(TradeOffer),
    NoTrade,
    TargetLacksEmojis,
    OffererLacksEmojis,
}

/// Why a confirmed trade still could not settle: every prior check is
/// advisory, and state may have changed under the confirmation prompt.
#[derive(Debug, PartialEq, Eq)]
pub enum ConfirmTradeError {
    NoTrade,
    TargetLacksEmojis,
    OffererLacksEmojis,
    OfferChanged,
}

/// What came back from the human confirmation prompt.
#[derive(Debug, PartialEq, Eq)]
pub enum ConfirmationResponse {
    Confirmed,
    Declined,
    TimedOut,
}

/// What the ledger did with the confirmation response.
#[derive(Debug, PartialEq, Eq)]
pub enum ConfirmationOutcome {
    Settled,
    Failed(ConfirmTradeError),
    Declined,
    TimedOut,
}

/// Why a recycling request was rejected before any mutation.
#[derive(Debug, PartialEq, Eq)]
pub enum RecycleError {
    WrongArity,
    NotOwned,
}

/// Whether any of the member's roles is one of the roles that allow trading.
pub fn has_trading_role(member_roles: &Vec<u64>, trading_roles: &Vec<u64>) -> (r: bool)
    ensures
        r == exists|i: int|
            0 <= i < member_roles@.len() && trading_roles@.contains(#[trigger] member_roles@[i]),
{
    let mut i: usize = 0;
    while i < member_roles.len()
        invariant
            i <= member_roles@.len(),
            forall|k: int|
                0 <= k < i ==> !trading_roles@.contains(#[trigger] member_roles@[k]),
        decreases member_roles@.len() - i,
    {
        let role = member_roles[i];
        let mut j: usize = 0;
        while j < trading_roles.len()
            invariant
                j <= trading_roles@.len(),
                role == member_roles@[i as int],
                i < member_roles@.len(),
                forall|k: int| 0 <= k < j ==> trading_roles@[k] != role,
            decreases trading_roles@.len() - j,
        {
            if trading_roles[j] == role {
                return true;
            }
            j = j + 1;
        }
        proof {
            if trading_roles@.contains(role) {
                let k = choose|k: int|
                    0 <= k < trading_roles@.len() && trading_roles@[k] == role;
            }
        }
        i = i + 1;
    }
    proof {
        if exists|i2: int|
            0 <= i2 < member_roles@.len() && trading_roles@.contains(#[trigger] member_roles@[i2]) {
            let i2 = choose|i2: int|
                0 <= i2 < member_roles@.len() && trading_roles@.contains(
                    #[trigger] member_roles@[i2],
                );
        }
    }
    false
}

impl LedgerState {
    /// The position of the outstanding offer from `from` to `to`; meaningful
    /// when `has_offer(from, to)`, since at most one such offer exists.
    pub open spec fn offer_index_of(self, from: u64, to: u64) -> int {
        choose|i: int|
            0 <= i < self.offers@.len() && (#[trigger] self.offers@[i]).offering() == from
                && self.offers@[i].target_of() == Counterparty::User(to)
    }

    /// The stored offer for an ordered user pair; meaningful when
    /// `has_offer(from, to)` holds.
    pub open spec fn stored_offer(self, from: u64, to: u64) -> TradeOffer {
        self.offers@[self.offer_index_of(from, to)]
    }

    /// The final gate's classification of a confirmed copy against current
    /// state, spelled out so the settlement function can promise exactly when
    /// each rejection comes and when settlement is owed.  The cases are
    /// checked in this order and are mutually exclusive.
    pub open spec fn confirm_no_trade(self, t: TradeOffer) -> bool {
        match t.target_of() {
            Counterparty::User(to) => !self.has_offer(t.offering(), to),
            Counterparty::System => true,
        }
    }

    /// The accepting user no longer owns what the stored offer requests.
    pub open spec fn confirm_target_lacks(self, t: TradeOffer) -> bool {
        match t.target_of() {
            Counterparty::User(to) => self.has_offer(t.offering(), to) && !(forall|e: int|
                self.stored_offer(t.offering(), to).request_ms().count_of(e) <= self.count_of(
                    to,
                    e,
                )),
            Counterparty::System => false,
        }
    }

    /// The offering user no longer owns what the stored offer promises.
    pub open spec fn confirm_offerer_lacks(self, t: TradeOffer) -> bool {
        match t.target_of() {
            Counterparty::User(to) => self.has_offer(t.offering(), to) && (forall|e: int|
                self.stored_offer(t.offering(), to).request_ms().count_of(e) <= self.count_of(
                    to,
                    e,
                )) && !(forall|e: int|
                self.stored_offer(t.offering(), to).offer_ms().count_of(e) <= self.count_of(
                    t.offering(),
                    e,
                )),
            Counterparty::System => false,
        }
    }

    /// The stored offer is no longer entry-for-entry the one that was
    /// confirmed: it was withdrawn and replaced during the confirmation
    /// window.
    pub open spec fn confirm_offer_changed(self, t: TradeOffer) -> bool {
        match t.target_of() {
            Counterparty::User(to) => {
                let stored = self.stored_offer(t.offering(), to);
                &&& self.has_offer(t.offering(), to)
                &&& (forall|e: int|
                    stored.request_ms().count_of(e) <= self.count_of(to, e))
                &&& (forall|e: int|
                    stored.offer_ms().count_of(e) <= self.count_of(t.offering(), e))
                &&& !(crate::emojis_with_counts::entries_equiv(
                    t.offer_ms().entries(),
                    stored.offer_ms().entries(),
                ) && crate::emojis_with_counts::entries_equiv(
                    t.request_ms().entries(),
                    stored.request_ms().entries(),
                ))
            },
            Counterparty::System => false,
        }
    }

    /// The stored offer exists, is entry-for-entry the confirmed copy, and
    /// both sides are still owned: the one case in which settlement is owed.
    pub open spec fn confirm_would_settle(self, t: TradeOffer) -> bool {
        match t.target_of() {
            Counterparty::User(to) => {
                let stored = self.stored_offer(t.offering(), to);
                &&& self.has_offer(t.offering(), to)
                &&& (forall|e: int|
                    stored.request_ms().count_of(e) <= self.count_of(to, e))
                &&& (forall|e: int|
                    stored.offer_ms().count_of(e) <= self.count_of(t.offering(), e))
                &&& crate::emojis_with_counts::entries_equiv(
                    t.offer_ms().entries(),
                    stored.offer_ms().entries(),
                )
                &&& crate::emojis_with_counts::entries_equiv(
                    t.request_ms().entries(),
                    stored.request_ms().entries(),
                )
            },
            Counterparty::System => false,
        }
    }

    /// Whether an offer from one user to the other is outstanding.
    pub fn does_trade_offer_exist(&self, user: u64, target_user: u64) -> (r: bool)
        ensures
            r == self.has_offer(user, target_user),
    {
        let mut i: usize = 0;
        while i < self.offers.len()
            invariant
                i <= self.offers@.len(),
                forall|k: int|
                    0 <= k < i ==> !((#[trigger] self.offers@[k]).offering() == user
                        && self.offers@[k].target_of() == Counterparty::User(target_user)),
            decreases self.offers@.len() - i,
        {
            let t = &self.offers[i];
            if t.offering_user() == user {
                match t.target_user() {
                    Counterparty::User(to) => {
                        if to == target_user {
                            return true;
                        }
                    },
                    Counterparty::System => {},
                }
            }
            i = i + 1;
        }
        false
    }

    /// Offers a trade.  The preconditions are checked in order and the first
    /// failure names the reason: no self-trade, no second offer to the same
    /// target, neither side empty, disjoint sides, and the offering user must
    /// own the whole offered multiset.
    pub fn try_offer_trade(
        &mut self,
        user: u64,
        target_user: u64,
        offer: EmojisWithCounts,
        request: EmojisWithCounts,
    ) -> (r: Result<(), TradeError>)
        requires
            old(self).wf(),
            offer.wf(),
            request.wf(),
        ensures
            final(self).wf(),
            match r {
                Err(TradeError::SelfTrade) => user == target_user && *final(self) == *old(self),
                Err(TradeError::OfferAlreadyExists) => user != target_user && old(self).has_offer(
                    user,
                    target_user,
                ) && *final(self) == *old(self),
                Err(TradeError::OfferEmpty) => user != target_user && !old(self).has_offer(
                    user,
                    target_user,
                ) && offer.entries().len() == 0 && *final(self) == *old(self),
                Err(TradeError::RequestEmpty) => user != target_user && !old(self).has_offer(
                    user,
                    target_user,
                ) && offer.entries().len() > 0 && request.entries().len() == 0 && *final(self)
                    == *old(self),
                Err(TradeError::OverlappingSides) => user != target_user && !old(self).has_offer(
                    user,
                    target_user,
                ) && offer.entries().len() > 0 && request.entries().len() > 0
                    && !offer.disjoint_with(request) && *final(self) == *old(self),
                Err(TradeError::OffererLacksEmojis) => user != target_user && !old(self).has_offer(user, target_user) && offer.entries().len() > 0
                    && request.entries().len() > 0 && offer.disjoint_with(request) && !(forall|
                    e: int,
                |
                    offer.count_of(e) <= old(self).count_of(user, e)) && *final(self) == *old(self),
                Err(_) => false,
                Ok(_) => {
                    &&& user != target_user
                    &&& !old(self).has_offer(user, target_user)
                    &&& offer.entries().len() > 0
                    &&& request.entries().len() > 0
                    &&& offer.disjoint_with(request)
                    &&& (forall|e: int| offer.count_of(e) <= old(self).count_of(user, e))
                    &&& final(self).offers@.len() == old(self).offers@.len() + 1
                    &&& (forall|k: int|
                        0 <= k < old(self).offers@.len() ==> #[trigger] final(self).offers@[k]
                            == old(self).offers@[k])
                    &&& final(self).offers@.last().offering() == user
                    &&& final(self).offers@.last().target_of() == Counterparty::User(target_user)
                    &&& final(self).offers@.last().offer_ms() == offer
                    &&& final(self).offers@.last().request_ms() == request
                    &&& final(self).has_offer(user, target_user)
                    &&& final(self).users@ == old(self).users@
                    &&& final(self).log@ == old(self).log@
                    &&& final(self).private_users@ == old(self).private_users@
                    &&& final(self).last_seen@ == old(self).last_seen@
                },
            },
    {
        if user == target_user {
            return Err(TradeError::SelfTrade);
        }
        if self.does_trade_offer_exist(user, target_user) {
            return Err(TradeError::OfferAlreadyExists);
        }
        if offer.is_empty() {
            return Err(TradeError::OfferEmpty);
        }
        if request.is_empty() {
            return Err(TradeError::RequestEmpty);
        }
        let trade_offer = match TradeOffer::new(user, target_user, offer, request) {
            Ok(t) => t,
            Err(_) => {
                return Err(TradeError::OverlappingSides);
            },
        };
        if !self.has_at_least(user, trade_offer.offer()) {
            return Err(TradeError::OffererLacksEmojis);
        }
        let ghost pre = self.offers@;
        self.offers.push(trade_offer);
        proof {
            assert(final(self).offers@.drop_last() =~= pre);
            assert(final(self).offers@.last().offering() == user);
            assert(final(self).has_offer(user, target_user)) by {
                assert(final(self).offers@[final(self).offers@.len() - 1].offering() == user);
            }
        }
        Ok(())
    }

    /// Deletes the offer from one user to the other, if any; used for both
    /// withdrawal by the offerer and rejection by the target.
    fn remove_trade_offer(&mut self, user: u64, target_user: u64) -> (r: bool)
        requires
            old(self).wf(),
        ensures
            final(self).wf(),
            r == old(self).has_offer(user, target_user),
            !final(self).has_offer(user, target_user),
            r ==> final(self).offers@ == old(self).offers@.remove(
                old(self).offer_index_of(user, target_user),
            ),
            !r ==> *final(self) == *old(self),
            final(self).users@ == old(self).users@,
            final(self).log@ == old(self).log@,
            final(self).private_users@ == old(self).private_users@,
            final(self).last_seen@ == old(self).last_seen@,
    {
        let mut i: usize = 0;
        while i < self.offers.len()
            invariant
                i <= self.offers@.len(),
                self == old(self),
                old(self).wf(),
                forall|k: int|
                    0 <= k < i ==> !((#[trigger] self.offers@[k]).offering() == user
                        && self.offers@[k].target_of() == Counterparty::User(target_user)),
            decreases self.offers@.len() - i,
        {
            let same_target = match self.offers[i].target_user() {
                Counterparty::User(to) => to == target_user,
                Counterparty::System => false,
            };
            let matches_pair = self.offers[i].offering_user() == user && same_target;
            if matches_pair {
                let ghost pre = self.offers@;
                proof {
                    lemma_offer_index_unique(*self, user, target_user, i as int);
                }
                self.offers.remove(i);
                proof {
                    assert(final(self).offers@ =~= pre.remove(i as int));
                    assert forall|a: int, b: int|
                        0 <= a < b < final(self).offers@.len() implies !((#[trigger] final(self).offers@[a]).offering() == (#[trigger] final(self).offers@[b]).offering()
                        && final(self).offers@[a].target_of()
                        == final(self).offers@[b].target_of()) by {
                        let ma: int = if a < i { a } else { a + 1 };
                        let mb: int = if b < i { b } else { b + 1 };
                        assert(final(self).offers@[a] == pre[ma]);
                        assert(final(self).offers@[b] == pre[mb]);
                    }
                    assert(!final(self).has_offer(user, target_user)) by {
                        if final(self).has_offer(user, target_user) {
                            let k = choose|k: int|
                                0 <= k < final(self).offers@.len() && (#[trigger] final(self).offers@[k]).offering() == user && final(self).offers@[k].target_of() == Counterparty::User(target_user);
                            let mk: int = if k < i {
                                k
                            } else {
                                k + 1
                            };
                            assert(final(self).offers@[k] == pre[mk]);
                            assert(mk != i);
                            if mk < i {
                                assert(!(pre[mk].offering() == pre[i as int].offering()
                                    && pre[mk].target_of() == pre[i as int].target_of()));
                            } else {
                                assert(!(pre[i as int].offering() == pre[mk].offering()
                                    && pre[i as int].target_of() == pre[mk].target_of()));
                            }
                        }
                    }
                }
                return true;
            }
            i = i + 1;
        }
        proof {
            if old(self).has_offer(user, target_user) {
                let k = choose|k: int|
                    0 <= k < self.offers@.len() && (#[trigger] self.offers@[k]).offering() == user
                        && self.offers@[k].target_of() == Counterparty::User(target_user);
            }
        }
        false
    }

    /// Withdraws the caller's own offer to the target; fails when there is
    /// none.
    pub fn try_cancel_offer(&mut self, user: u64, target_user: u64) -> (r: Result<
        (),
        TradeError,
    >)
        requires
            old(self).wf(),
        ensures
            final(self).wf(),
            match r {
                Ok(_) => {
                    &&& old(self).has_offer(user, target_user)
                    &&& !final(self).has_offer(user, target_user)
                    &&& final(self).offers@ == old(self).offers@.remove(
                        old(self).offer_index_of(user, target_user),
                    )
                    &&& final(self).users@ == old(self).users@
                    &&& final(self).log@ == old(self).log@
                },
                Err(TradeError::NoSuchOffer) => !old(self).has_offer(user, target_user) && *final(self) == *old(self),
                Err(_) => false,
            },
    {
        if self.remove_trade_offer(user, target_user) {
            Ok(())
        } else {
            Err(TradeError::NoSuchOffer)
        }
    }

    /// Rejects an incoming offer from the other user; fails when there is
    /// none.
    pub fn try_reject_offer(&mut self, user: u64, other_user: u64) -> (r: Result<(), TradeError>)
        requires
            old(self).wf(),
        ensures
            final(self).wf(),
            match r {
                Ok(_) => {
                    &&& old(self).has_offer(other_user, user)
                    &&& !final(self).has_offer(other_user, user)
                    &&& final(self).offers@ == old(self).offers@.remove(
                        old(self).offer_index_of(other_user, user),
                    )
                    &&& final(self).users@ == old(self).users@
                    &&& final(self).log@ == old(self).log@
                },
                Err(TradeError::NoSuchOffer) => !old(self).has_offer(other_user, user) && *final(self) == *old(self),
                Err(_) => false,
            },
    {
        if self.remove_trade_offer(other_user, user) {
            Ok(())
        } else {
            Err(TradeError::NoSuchOffer)
        }
    }
    /// A fresh copy of the outstanding offer from one user to the other, as
    /// the settlement protocol re-fetches it rather than trusting any cache.
    pub fn get_trade_offer(&self, offering_user: u64, target_user: u64) -> (r: Option<TradeOffer>)
        requires
            self.wf(),
        ensures
            r is Some <==> self.has_offer(offering_user, target_user),
            match r {
                Some(t) => {
                    let stored = self.offers@[self.offer_index_of(offering_user, target_user)];
                    &&& t.offering() == offering_user
                    &&& t.target_of() == Counterparty::User(target_user)
                    &&& t.offer_ms().entries() == stored.offer_ms().entries()
                    &&& t.request_ms().entries() == stored.request_ms().entries()
                },
                None => true,
            },
    {
        let mut i: usize = 0;
        while i < self.offers.len()
            invariant
                i <= self.offers@.len(),
                self.wf(),
                forall|k: int|
                    0 <= k < i ==> !((#[trigger] self.offers@[k]).offering() == offering_user
                        && self.offers@[k].target_of() == Counterparty::User(target_user)),
            decreases self.offers@.len() - i,
        {
            let same_target = match self.offers[i].target_user() {
                Counterparty::User(to) => to == target_user,
                Counterparty::System => false,
            };
            if self.offers[i].offering_user() == offering_user && same_target {
                proof {
                    lemma_offer_index_unique(*self, offering_user, target_user, i as int);
                }
                return Some(self.offers[i].duplicate());
            }
            i = i + 1;
        }
        proof {
            if self.has_offer(offering_user, target_user) {
                let k = choose|k: int|
                    0 <= k < self.offers@.len() && (#[trigger] self.offers@[k]).offering()
                        == offering_user && self.offers@[k].target_of() == Counterparty::User(
                        target_user,
                    );
            }
        }
        None
    }

    /// The user's outgoing and incoming offers, as fresh copies: exactly the
    /// stored offers whose offering side (outgoing) or counterparty
    /// (incoming) is the user, in stored order, entry for entry.
    pub fn view_offers(&self, user: u64) -> (r: (Vec<TradeOffer>, Vec<TradeOffer>))
        requires
            self.wf(),
        ensures
            ({
                let outgoing_stored = self.offers@.filter(
                    |t: TradeOffer| t.offering() == user,
                );
                let incoming_stored = self.offers@.filter(
                    |t: TradeOffer| t.target_of() == Counterparty::User(user),
                );
                &&& r.0@.len() == outgoing_stored.len()
                &&& (forall|k: int|
                    0 <= k < outgoing_stored.len() ==> {
                        let t = #[trigger] r.0@[k];
                        &&& t.offering() == outgoing_stored[k].offering()
                        &&& t.target_of() == outgoing_stored[k].target_of()
                        &&& t.offer_ms().entries() == outgoing_stored[k].offer_ms().entries()
                        &&& t.request_ms().entries() == outgoing_stored[k].request_ms().entries()
                    })
                &&& r.1@.len() == incoming_stored.len()
                &&& (forall|k: int|
                    0 <= k < incoming_stored.len() ==> {
                        let t = #[trigger] r.1@[k];
                        &&& t.offering() == incoming_stored[k].offering()
                        &&& t.target_of() == incoming_stored[k].target_of()
                        &&& t.offer_ms().entries() == incoming_stored[k].offer_ms().entries()
                        &&& t.request_ms().entries() == incoming_stored[k].request_ms().entries()
                    })
            }),
    {
        let ghost outp = |t: TradeOffer| t.offering() == user;
        let ghost inp = |t: TradeOffer| t.target_of() == Counterparty::User(user);
        let mut outgoing: Vec<TradeOffer> = Vec::new();
        let mut incoming: Vec<TradeOffer> = Vec::new();
        let mut i: usize = 0;
        proof {
            reveal(Seq::filter);
            assert(self.offers@.take(0) =~= Seq::<TradeOffer>::empty());
        }
        while i < self.offers.len()
            invariant
                i <= self.offers@.len(),
                outp == (|t: TradeOffer| t.offering() == user),
                inp == (|t: TradeOffer| t.target_of() == Counterparty::User(user)),
                outgoing@.len() == self.offers@.take(i as int).filter(outp).len(),
                forall|k: int|
                    0 <= k < outgoing@.len() ==> {
                        let t = #[trigger] outgoing@[k];
                        let stored = self.offers@.take(i as int).filter(outp)[k];
                        &&& t.offering() == stored.offering()
                        &&& t.target_of() == stored.target_of()
                        &&& t.offer_ms().entries() == stored.offer_ms().entries()
                        &&& t.request_ms().entries() == stored.request_ms().entries()
                    },
                incoming@.len() == self.offers@.take(i as int).filter(inp).len(),
                forall|k: int|
                    0 <= k < incoming@.len() ==> {
                        let t = #[trigger] incoming@[k];
                        let stored = self.offers@.take(i as int).filter(inp)[k];
                        &&& t.offering() == stored.offering()
                        &&& t.target_of() == stored.target_of()
                        &&& t.offer_ms().entries() == stored.offer_ms().entries()
                        &&& t.request_ms().entries() == stored.request_ms().entries()
                    },
            decreases self.offers@.len() - i,
        {
            let t = &self.offers[i];
            proof {
                reveal(Seq::filter);
                assert(self.offers@.take(i + 1).drop_last() =~= self.offers@.take(i as int));
                assert(self.offers@.take(i + 1).last() == self.offers@[i as int]);
            }
            let ghost out_pre = outgoing@;
            let ghost in_pre = incoming@;
            if t.offering_user() == user {
                outgoing.push(t.duplicate());
                proof {
                    assert(outgoing@.drop_last() =~= out_pre);
                }
            }
            proof {
                assert(self.offers@.take(i + 1).filter(outp) == (
                if outp(self.offers@[i as int]) {
                    self.offers@.take(i as int).filter(outp).push(self.offers@[i as int])
                } else {
                    self.offers@.take(i as int).filter(outp)
                }));
            }
            let to_user = match t.target_user() {
                Counterparty::User(to) => to == user,
                Counterparty::System => false,
            };
            if to_user {
                incoming.push(t.duplicate());
                proof {
                    assert(incoming@.drop_last() =~= in_pre);
                }
            }
            proof {
                assert(self.offers@.take(i + 1).filter(inp) == (
                if inp(self.offers@[i as int]) {
                    self.offers@.take(i as int).filter(inp).push(self.offers@[i as int])
                } else {
                    self.offers@.take(i as int).filter(inp)
                }));
            }
            i = i + 1;
        }
        proof {
            assert(self.offers@.take(self.offers@.len() as int) =~= self.offers@);
        }
        (outgoing, incoming)
    }

    /// Re-derives an offer's validity from current ledger contents: the offer
    /// must still exist, the target must own the requested multiset, and the
    /// offerer must still own the offered multiset, failing in that order.
    pub fn validate_trade_offer(&self, offering_user: u64, target_user: u64) -> (r:
        TradeOfferValidation)
        requires
            self.wf(),
        ensures
            ({
                let stored = self.offers@[self.offer_index_of(offering_user, target_user)];
                match r {
                    TradeOfferValidation::NoTrade => !self.has_offer(offering_user, target_user),
                    TradeOfferValidation::TargetLacksEmojis => self.has_offer(
                        offering_user,
                        target_user,
                    ) && !(forall|e: int|
                        stored.request_ms().count_of(e) <= self.count_of(target_user, e)),
                    TradeOfferValidation::OffererLacksEmojis => self.has_offer(
                        offering_user,
                        target_user,
                    ) && (forall|e: int|
                        stored.request_ms().count_of(e) <= self.count_of(target_user, e)) && !(
                    forall|e: int|
                        stored.offer_ms().count_of(e) <= self.count_of(offering_user, e)),
                    TradeOfferValidation::Valid(t) => {
                        &&& self.has_offer(offering_user, target_user)
                        &&& (forall|e: int|
                            stored.request_ms().count_of(e) <= self.count_of(target_user, e))
                        &&& (forall|e: int|
                            stored.offer_ms().count_of(e) <= self.count_of(offering_user, e))
                        &&& t.offering() == offering_user
                        &&& t.target_of() == Counterparty::User(target_user)
                        &&& t.offer_ms().entries() == stored.offer_ms().entries()
                        &&& t.request_ms().entries() == stored.request_ms().entries()
                        &&& t.offer_ms().wf()
                        &&& t.request_ms().wf()
                    },
                }
            }),
    {
        let trade = match self.get_trade_offer(offering_user, target_user) {
            Some(t) => t,
            None => {
                return TradeOfferValidation::NoTrade;
            },
        };
        proof {
            let stored = self.offers@[self.offer_index_of(offering_user, target_user)];
            assert(stored.wf());
            assert(trade.request_ms().wf() && trade.offer_ms().wf());
            assert forall|e: int|
                trade.request_ms().count_of(e) == stored.request_ms().count_of(e)
                    && trade.offer_ms().count_of(e) == stored.offer_ms().count_of(e) by {}
        }
        if !self.has_at_least(target_user, trade.request()) {
            return TradeOfferValidation::TargetLacksEmojis;
        }
        if !self.has_at_least(offering_user, trade.offer()) {
            return TradeOfferValidation::OffererLacksEmojis;
        }
        TradeOfferValidation::Valid(trade)
    }

    /// Takes the exact requested counts out of one user's holdings, sweeping
    /// any groups this empties.  The caller must have verified ownership.
    pub(crate) fn withdraw_units(&mut self, from: u64, emojis: &EmojisWithCounts)
        requires
            old(self).wf(),
            emojis.wf(),
            forall|e: int| emojis.count_of(e) <= old(self).count_of(from, e),
        ensures
            final(self).wf(),
            forall|e: int|
                final(self).count_of(from, e) == old(self).count_of(from, e) - emojis.count_of(e),
            forall|u2: u64, x: int|
                u2 != from ==> final(self).count_of(u2, x) == old(self).count_of(u2, x),
            forall|e: int|
                final(self).total_of(e) == old(self).total_of(e) - emojis.count_of(e),
            final(self).grand_total() == old(self).grand_total()
                - crate::emojis_with_counts::total_in(emojis.entries()),
            final(self).offers@ == old(self).offers@,
            final(self).log@ == old(self).log@,
            final(self).private_users@ == old(self).private_users@,
            final(self).last_seen@ == old(self).last_seen@,
            !old(self).has_user(from) ==> *final(self) == *old(self),
            final(self).users@.len() == old(self).users@.len(),
            forall|k: int|
                0 <= k < old(self).users@.len() ==> (#[trigger] final(self).users@[k]).user == old(self).users@[k].user,
            forall|k: int|
                0 <= k < old(self).users@.len() && (#[trigger] old(self).users@[k]).user != from
                    ==> final(self).users@[k] == old(self).users@[k],
            old(self).has_user(from) ==> {
                let oldinv = old(self).inv_of(from);
                &&& final(self).has_user(from)
                &&& (forall|n: Seq<char>|
                    #[trigger] final(self).inv_of(from).has_group(n) ==> oldinv.has_group(n))
                &&& (forall|n: Seq<char>|
                    #[trigger] final(self).inv_of(from).has_group(n) ==> (forall|e: int|
                        #[trigger] final(self).inv_of(from).groups@[final(self).inv_of(
                            from,
                        ).group_index_of(n)].contents.count_of(e) == count_after_draw(
                            oldinv.groups@,
                            oldinv.group_index_of(n),
                            e,
                            emojis.count_of(e),
                        )))
                &&& (forall|e: int|
                    final(self).inv_of(from).ungrouped.count_of(e) == oldinv.ungrouped.count_of(e)
                        - min_nat(
                        (emojis.count_of(e) - min_nat(
                            emojis.count_of(e),
                            groups_count(oldinv.groups@, e),
                        )) as nat,
                        oldinv.ungrouped.count_of(e),
                    ))
            },
    {
        let ghost zero = *self;
        let entries = emojis.iter();
        proof {
            assert(emojis.entries().take(0) =~= Seq::<(Emoji, u32)>::empty());
        }
        let i_from = match self.find_user(from) {
            Some(i) => i,
            None => {
                proof {
                    assert forall|e: int| emojis.count_of(e) == 0 by {
                        crate::ledger::lemma_count_for_absent(self.users@, from, e);
                    }
                    crate::emojis_with_counts::lemma_count_le_total(emojis.entries(), 0);
                    assert(crate::emojis_with_counts::total_in(emojis.entries()) == 0) by {
                        if emojis.entries().len() > 0 {
                            crate::emojis_with_counts::lemma_unique_entry_count(
                                emojis.entries(),
                                0,
                            );
                            assert(emojis.count_of(emojis.entries()[0].0.idx())
                                == emojis.entries()[0].1);
                            assert(emojis.entries()[0].1 >= 1);
                        }
                    }
                }
                return ;
            },
        };
        let ghost oldinv = self.users@[i_from as int];
        proof {
            lemma_user_index_unique(*old(self), from, i_from as int);
            assert forall|g: int, x: int|
                0 <= g < oldinv.groups@.len() implies #[trigger] count_after_draw(
                oldinv.groups@,
                g,
                x,
                0nat,
            ) == oldinv.groups@[g].contents.count_of(x) by {
                crate::inventory::lemma_draw_zero(oldinv.groups@, g, x);
            }
        }
        let mut i: usize = 0;
        while i < entries.len()
            invariant
                i <= emojis.entries().len(),
                entries@ == emojis.entries(),
                emojis.wf(),
                old(self).wf(),
                forall|e: int| emojis.count_of(e) <= old(self).count_of(from, e),
                i_from < self.users@.len(),
                self.users@.len() == old(self).users@.len(),
                self.users@[i_from as int].user == from,
                old(self).users@[i_from as int].user == from,
                oldinv == old(self).users@[i_from as int],
                self.users@[i_from as int].base_wf(),
                self.users@[i_from as int].groups@.len() == oldinv.groups@.len(),
                forall|g: int|
                    0 <= g < oldinv.groups@.len()
                        ==> (#[trigger] self.users@[i_from as int].groups@[g]).name@
                        == oldinv.groups@[g].name@,
                forall|g: int, x: int|
                    0 <= g < oldinv.groups@.len()
                        ==> #[trigger] self.users@[i_from as int].groups@[g].contents.count_of(x)
                        == count_after_draw(
                        oldinv.groups@,
                        g,
                        x,
                        crate::emojis_with_counts::count_in(emojis.entries().take(i as int), x),
                    ),
                forall|x: int|
                    #[trigger] self.users@[i_from as int].ungrouped.count_of(x)
                        == oldinv.ungrouped.count_of(x) - min_nat(
                        (crate::emojis_with_counts::count_in(emojis.entries().take(i as int), x)
                            - min_nat(
                            crate::emojis_with_counts::count_in(
                                emojis.entries().take(i as int),
                                x,
                            ),
                            groups_count(oldinv.groups@, x),
                        )) as nat,
                        oldinv.ungrouped.count_of(x),
                    ),
                forall|k: int|
                    0 <= k < self.users@.len() && k != i_from ==> #[trigger] self.users@[k] == old(self).users@[k],
                forall|x: int|
                    count_for(self.users@, from, x) == old(self).count_of(from, x)
                        - crate::emojis_with_counts::count_in(
                        emojis.entries().take(i as int),
                        x,
                    ),
                forall|u2: u64, x: int|
                    u2 != from ==> count_for(self.users@, u2, x) == old(self).count_of(u2, x),
                forall|x: int|
                    crate::ledger::total_count(self.users@, x) == old(self).total_of(x)
                        - crate::emojis_with_counts::count_in(
                        emojis.entries().take(i as int),
                        x,
                    ),
                crate::ledger::users_total(self.users@) == old(self).grand_total()
                    - crate::emojis_with_counts::total_in(emojis.entries().take(i as int)),
                self.offers@ == old(self).offers@,
                self.log@ == old(self).log@,
                self.private_users@ == old(self).private_users@,
                self.last_seen@ == old(self).last_seen@,
            decreases entries@.len() - i,
        {
            let (e, c) = entries[i];
            proof {
                assert forall|k: int|
                    0 <= k < i implies (#[trigger] emojis.entries().take(i as int)[k]).0.idx()
                        != e.idx() by {
                    assert(emojis.entries()[k].0.idx() < emojis.entries()[i as int].0.idx());
                }
                crate::emojis_with_counts::lemma_count_absent(
                    emojis.entries().take(i as int),
                    e.idx(),
                );
                assert(emojis.entries().take(i + 1).drop_last() =~= emojis.entries().take(
                    i as int,
                ));
                assert(emojis.entries().take(i + 1).last() == emojis.entries()[i as int]);
                crate::emojis_with_counts::lemma_unique_entry_count(emojis.entries(), i as int);
            }
            let ghost pre = self.users@;
            let mut inv = self.users.remove(i_from);
            proof {
                assert forall|a: int, b: int|
                    0 <= a < b < pre.len() implies (#[trigger] pre[a]).user != (
                #[trigger] pre[b]).user by {
                    if a != i_from && b != i_from {
                        assert(pre[a] == old(self).users@[a]);
                        assert(pre[b] == old(self).users@[b]);
                        assert(old(self).users@[a].user != old(self).users@[b].user);
                    } else if a == i_from {
                        assert(pre[b] == old(self).users@[b]);
                        assert(old(self).users@[b].user != old(self).users@[i_from as int].user);
                    } else {
                        assert(pre[a] == old(self).users@[a]);
                        assert(old(self).users@[a].user != old(self).users@[i_from as int].user);
                    }
                }
                lemma_count_for_unique(pre, i_from as int, e.idx());
                assert(count_for(pre, from, e.idx()) == pre[i_from as int].count_of(e.idx()));
                assert(crate::emojis_with_counts::count_in(
                    emojis.entries().take(i as int),
                    e.idx(),
                ) == 0);
                assert(emojis.count_of(e.idx()) == c as nat);
                assert(emojis.count_of(e.idx()) <= old(self).count_of(from, e.idx()));
                assert(count_for(pre, from, e.idx()) == old(self).count_of(from, e.idx()));
                assert(pre[i_from as int].count_of(e.idx()) >= c);
            }
            let taken = inv.consume_units(e.index(), c);
            self.users.insert(i_from, inv);
            proof {
                assert(taken == c);
                assert(self.users@ =~= pre.update(i_from as int, self.users@[i_from as int]));
                crate::ledger::lemma_users_total_update(
                    pre,
                    i_from as int,
                    self.users@[i_from as int],
                );
                assert forall|u2: u64, x: int|
                    count_for(self.users@, u2, x) == count_for(pre, u2, x) - (if u2 == from && x
                        == e.idx() {
                        c as nat
                    } else {
                        0nat
                    }) by {
                    crate::ledger::lemma_count_for_update(
                        pre,
                        i_from as int,
                        self.users@[i_from as int],
                        u2,
                        x,
                    );
                }
                assert forall|x: int|
                    crate::ledger::total_count(self.users@, x) == crate::ledger::total_count(
                        pre,
                        x,
                    ) - (if x == e.idx() {
                        c as nat
                    } else {
                        0nat
                    }) by {
                    crate::ledger::lemma_total_count_update(
                        pre,
                        i_from as int,
                        self.users@[i_from as int],
                        x,
                    );
                }
                // per-group and ungrouped draw bookkeeping for this token
                let preu = pre[i_from as int];
                let cu = self.users@[i_from as int];
                assert forall|g: int|
                    0 <= g < oldinv.groups@.len() implies (
                #[trigger] preu.groups@[g]).contents.count_of(e.idx())
                    == oldinv.groups@[g].contents.count_of(e.idx()) by {
                    assert(preu.groups@[g].contents.count_of(e.idx()) == count_after_draw(
                        oldinv.groups@,
                        g,
                        e.idx(),
                        0nat,
                    ));
                    crate::inventory::lemma_draw_zero(oldinv.groups@, g, e.idx());
                }
                crate::inventory::lemma_groups_count_congruent(
                    preu.groups@,
                    oldinv.groups@,
                    e.idx(),
                );
                assert forall|g: int, x: int|
                    0 <= g < oldinv.groups@.len()
                        implies #[trigger] cu.groups@[g].contents.count_of(x)
                        == count_after_draw(
                        oldinv.groups@,
                        g,
                        x,
                        crate::emojis_with_counts::count_in(emojis.entries().take(i + 1), x),
                    ) by {
                    if x == e.idx() {
                        assert(cu.groups@[g].contents.count_of(x) == count_after_draw(
                            preu.groups@,
                            g,
                            x,
                            c as nat,
                        ));
                        assert(preu.groups@.take(g + 1).len() == oldinv.groups@.take(
                            g + 1,
                        ).len());
                        assert forall|g2: int|
                            0 <= g2 < g + 1 implies (#[trigger] preu.groups@.take(
                            g + 1,
                        )[g2]).contents.count_of(x) == oldinv.groups@.take(
                            g + 1,
                        )[g2].contents.count_of(x) by {
                            assert(preu.groups@[g2].contents.count_of(x) == count_after_draw(
                                oldinv.groups@,
                                g2,
                                x,
                                0nat,
                            ));
                            crate::inventory::lemma_draw_zero(oldinv.groups@, g2, x);
                        }
                        crate::inventory::lemma_groups_count_congruent(
                            preu.groups@.take(g + 1),
                            oldinv.groups@.take(g + 1),
                            x,
                        );
                    } else {
                        assert(cu.groups@[g].contents.count_of(x)
                            == preu.groups@[g].contents.count_of(x));
                    }
                }
                assert forall|x: int|
                    #[trigger] cu.ungrouped.count_of(x) == oldinv.ungrouped.count_of(x) - min_nat(
                        (crate::emojis_with_counts::count_in(emojis.entries().take(i + 1), x)
                            - min_nat(
                            crate::emojis_with_counts::count_in(
                                emojis.entries().take(i + 1),
                                x,
                            ),
                            groups_count(oldinv.groups@, x),
                        )) as nat,
                        oldinv.ungrouped.count_of(x),
                    ) by {
                    if x == e.idx() {
                        assert(preu.ungrouped.count_of(x) == oldinv.ungrouped.count_of(x));
                    } else {
                        assert(cu.ungrouped.count_of(x) == preu.ungrouped.count_of(x));
                    }
                }
            }
            i = i + 1;
        }
        proof {
            assert(emojis.entries().take(emojis.entries().len() as int) =~= emojis.entries());
        }
        let ghost pre_sweep = self.users@;
        let mut inv = self.users.remove(i_from);
        inv.remove_empty_groups();
        self.users.insert(i_from, inv);
        proof {
            assert(self.users@ =~= pre_sweep.update(i_from as int, self.users@[i_from as int]));
            crate::ledger::lemma_users_total_update(
                pre_sweep,
                i_from as int,
                self.users@[i_from as int],
            );
            assert forall|u2: u64, x: int|
                count_for(self.users@, u2, x) == count_for(pre_sweep, u2, x) by {
                crate::ledger::lemma_count_for_update(
                    pre_sweep,
                    i_from as int,
                    self.users@[i_from as int],
                    u2,
                    x,
                );
            }
            assert forall|x: int|
                crate::ledger::total_count(self.users@, x) == crate::ledger::total_count(
                    pre_sweep,
                    x,
                ) by {
                crate::ledger::lemma_total_count_update(
                    pre_sweep,
                    i_from as int,
                    self.users@[i_from as int],
                    x,
                );
            }
            assert forall|a: int, b: int|
                0 <= a < b < self.users@.len() implies (#[trigger] self.users@[a]).user != (
            #[trigger] self.users@[b]).user by {
                if a != i_from && b != i_from {
                    assert(self.users@[a] == old(self).users@[a]);
                    assert(self.users@[b] == old(self).users@[b]);
                    assert(old(self).users@[a].user != old(self).users@[b].user);
                } else if a == i_from {
                    assert(self.users@[b] == old(self).users@[b]);
                    assert(old(self).users@[b].user != old(self).users@[i_from as int].user);
                } else {
                    assert(self.users@[a] == old(self).users@[a]);
                    assert(old(self).users@[a].user != old(self).users@[i_from as int].user);
                }
            }
            assert forall|e: int|
                count_for(self.users@, from, e) == old(self).count_of(from, e)
                    - crate::emojis_with_counts::count_in(emojis.entries(), e) by {
                assert(count_for(self.users@, from, e) == count_for(pre_sweep, from, e));
            }
            assert forall|u2: u64, x: int|
                u2 != from implies count_for(self.users@, u2, x) == old(self).count_of(
                u2,
                x,
            ) by {
                assert(count_for(self.users@, u2, x) == count_for(pre_sweep, u2, x));
            }
            assert forall|x: int|
                crate::ledger::total_count(self.users@, x) == old(self).total_of(x)
                    - crate::emojis_with_counts::count_in(emojis.entries(), x) by {
                assert(crate::ledger::total_count(self.users@, x) == crate::ledger::total_count(
                    pre_sweep,
                    x,
                ));
            }
            // the giver's surviving groups and pool follow the draw formulas
            assert(final(self).users@[i_from as int].user == from);
            lemma_user_index_unique(*final(self), from, i_from as int);
            assert(final(self).inv_of(from) == final(self).users@[i_from as int]);
            assert(old(self).inv_of(from) == oldinv);
            let fi = final(self).users@[i_from as int];
            let presweep_inv = pre_sweep[i_from as int];
            let nonempty = |g: GroupData| g.contents.entries().len() > 0;
            assert(fi.groups@ == presweep_inv.groups@.filter(nonempty));
            assert(oldinv.base_wf());
            assert forall|n: Seq<char>| #[trigger] fi.has_group(n) implies oldinv.has_group(n)
                && oldinv.group_index_of(n) < oldinv.groups@.len() by {
                let kk = fi.group_index_of(n);
                assert(0 <= kk < fi.groups@.len() && crate::inventory::names_eq_nocase(
                    fi.groups@[kk].name@,
                    n,
                ));
                crate::inventory::lemma_filter_origin(presweep_inv.groups@, nonempty, kk);
                let m = choose|m: int|
                    0 <= m < presweep_inv.groups@.len() && #[trigger] presweep_inv.groups@[m]
                        == presweep_inv.groups@.filter(nonempty)[kk];
                assert(presweep_inv.groups@[m].name@ == oldinv.groups@[m].name@);
                crate::inventory::lemma_group_index_unique(oldinv, n, m);
            }
            assert forall|n: Seq<char>|
                #[trigger] fi.has_group(n) implies (forall|e: int|
                #[trigger] fi.groups@[fi.group_index_of(n)].contents.count_of(e)
                    == count_after_draw(
                    oldinv.groups@,
                    oldinv.group_index_of(n),
                    e,
                    emojis.count_of(e),
                )) by {
                let kk = fi.group_index_of(n);
                assert(0 <= kk < fi.groups@.len() && crate::inventory::names_eq_nocase(
                    fi.groups@[kk].name@,
                    n,
                ));
                crate::inventory::lemma_filter_origin(presweep_inv.groups@, nonempty, kk);
                let m = choose|m: int|
                    0 <= m < presweep_inv.groups@.len() && #[trigger] presweep_inv.groups@[m]
                        == presweep_inv.groups@.filter(nonempty)[kk];
                assert(presweep_inv.groups@[m].name@ == oldinv.groups@[m].name@);
                crate::inventory::lemma_group_index_unique(oldinv, n, m);
                assert(oldinv.group_index_of(n) == m);
                assert forall|e: int|
                    #[trigger] fi.groups@[kk].contents.count_of(e) == count_after_draw(
                        oldinv.groups@,
                        m,
                        e,
                        emojis.count_of(e),
                    ) by {
                    assert(fi.groups@[kk] == presweep_inv.groups@[m]);
                    assert(presweep_inv.groups@[m].contents.count_of(e) == count_after_draw(
                        oldinv.groups@,
                        m,
                        e,
                        crate::emojis_with_counts::count_in(emojis.entries(), e),
                    ));
                }
            }
            assert(fi.ungrouped == presweep_inv.ungrouped);
        }
    }

    /// Deposits the given counts into the user's ungrouped pool.
    pub(crate) fn deposit_units(&mut self, to: u64, emojis: &EmojisWithCounts)
        requires
            old(self).wf(),
            emojis.wf(),
            old(self).grand_total() + crate::emojis_with_counts::total_in(emojis.entries())
                <= u32::MAX,
        ensures
            final(self).wf(),
            forall|e: int|
                final(self).count_of(to, e) == old(self).count_of(to, e) + emojis.count_of(e),
            forall|u2: u64, x: int|
                u2 != to ==> final(self).count_of(u2, x) == old(self).count_of(u2, x),
            forall|e: int|
                final(self).total_of(e) == old(self).total_of(e) + emojis.count_of(e),
            final(self).grand_total() == old(self).grand_total()
                + crate::emojis_with_counts::total_in(emojis.entries()),
            final(self).offers@ == old(self).offers@,
            final(self).log@ == old(self).log@,
            final(self).private_users@ == old(self).private_users@,
            final(self).last_seen@ == old(self).last_seen@,
            final(self).has_user(to),
            final(self).users@.len() == old(self).users@.len() + (if old(self).has_user(to) {
                0int
            } else {
                1
            }),
            forall|k: int|
                0 <= k < old(self).users@.len() ==> (#[trigger] final(self).users@[k]).user == old(self).users@[k].user,
            forall|k: int|
                0 <= k < old(self).users@.len() && (#[trigger] old(self).users@[k]).user != to
                    ==> final(self).users@[k] == old(self).users@[k],
            final(self).inv_of(to).groups@ == (if old(self).has_user(to) {
                old(self).inv_of(to).groups@
            } else {
                Seq::<crate::inventory::GroupData>::empty()
            }),
            forall|e: int|
                final(self).inv_of(to).ungrouped.count_of(e) == (if old(self).has_user(to) {
                    old(self).inv_of(to).ungrouped.count_of(e)
                } else {
                    0nat
                }) + emojis.count_of(e),
    {
        let entries = emojis.iter();
        proof {
            assert(emojis.entries().take(0) =~= Seq::<(Emoji, u32)>::empty());
        }
        let i_to = self.ensure_user(to);
        proof {
            if old(self).has_user(to) {
                lemma_user_index_unique(*old(self), to, i_to as int);
            }
        }
        let ghost mid = *self;
        proof {
            assert forall|u2: u64, x: int|
                count_for(mid.users@, u2, x) == old(self).count_of(u2, x) by {
                assert(mid.count_of(u2, x) == count_for(mid.users@, u2, x));
            }
            assert forall|x: int|
                crate::ledger::total_count(mid.users@, x) == old(self).total_of(x) by {
                assert(mid.total_of(x) == crate::ledger::total_count(mid.users@, x));
            }
        }
        let mut k: usize = 0;
        while k < entries.len()
            invariant
                k <= emojis.entries().len(),
                entries@ == emojis.entries(),
                emojis.wf(),
                mid.wf(),
                i_to < self.users@.len(),
                self.users@.len() == mid.users@.len(),
                self.users@[i_to as int].user == to,
                mid.users@[i_to as int].user == to,
                forall|k2: int|
                    0 <= k2 < self.users@.len() && k2 != i_to ==> #[trigger] self.users@[k2]
                        == mid.users@[k2],
                self.users@[i_to as int].wf(),
                self.users@[i_to as int].groups@ == mid.users@[i_to as int].groups@,
                forall|x: int|
                    self.users@[i_to as int].ungrouped.count_of(x)
                        == mid.users@[i_to as int].ungrouped.count_of(x)
                        + crate::emojis_with_counts::count_in(
                        emojis.entries().take(k as int),
                        x,
                    ),
                forall|x: int|
                    count_for(self.users@, to, x) == mid.count_of(to, x)
                        + crate::emojis_with_counts::count_in(
                        emojis.entries().take(k as int),
                        x,
                    ),
                forall|u2: u64, x: int|
                    u2 != to ==> count_for(self.users@, u2, x) == mid.count_of(u2, x),
                forall|x: int|
                    crate::ledger::total_count(self.users@, x) == mid.total_of(x)
                        + crate::emojis_with_counts::count_in(
                        emojis.entries().take(k as int),
                        x,
                    ),
                crate::ledger::users_total(self.users@) == mid.grand_total()
                    + crate::emojis_with_counts::total_in(emojis.entries().take(k as int)),
                mid.grand_total() + crate::emojis_with_counts::total_in(emojis.entries())
                    <= u32::MAX,
                self.offers@ == mid.offers@,
                self.log@ == mid.log@,
                self.private_users@ == mid.private_users@,
                self.last_seen@ == mid.last_seen@,
            decreases entries@.len() - k,
        {
            let (e, c) = entries[k];
            proof {
                assert(emojis.entries().take(k + 1).drop_last() =~= emojis.entries().take(
                    k as int,
                ));
                assert(emojis.entries().take(k + 1).last() == emojis.entries()[k as int]);
                crate::emojis_with_counts::lemma_total_take_le(emojis.entries(), k + 1);
            }
            let ghost pre = self.users@;
            let mut inv = self.users.remove(i_to);
            proof {
                crate::ledger::lemma_user_le_users_total(pre, i_to as int);
            }
            inv.receive_units(e, c);
            self.users.insert(i_to, inv);
            proof {
                assert(self.users@ =~= pre.update(i_to as int, self.users@[i_to as int]));
                crate::ledger::lemma_users_total_update(
                    pre,
                    i_to as int,
                    self.users@[i_to as int],
                );
                assert forall|u2: u64, x: int|
                    count_for(self.users@, u2, x) == count_for(pre, u2, x) + (if u2 == to && x
                        == e.idx() {
                        c as nat
                    } else {
                        0nat
                    }) by {
                    crate::ledger::lemma_count_for_update(
                        pre,
                        i_to as int,
                        self.users@[i_to as int],
                        u2,
                        x,
                    );
                }
                assert forall|x: int|
                    crate::ledger::total_count(self.users@, x) == crate::ledger::total_count(
                        pre,
                        x,
                    ) + (if x == e.idx() {
                        c as nat
                    } else {
                        0nat
                    }) by {
                    crate::ledger::lemma_total_count_update(
                        pre,
                        i_to as int,
                        self.users@[i_to as int],
                        x,
                    );
                }
                assert forall|a: int, b: int|
                    0 <= a < b < self.users@.len() implies (#[trigger] self.users@[a]).user != (
                #[trigger] self.users@[b]).user by {
                    if a != i_to && b != i_to {
                        assert(self.users@[a] == mid.users@[a]);
                        assert(self.users@[b] == mid.users@[b]);
                        assert(mid.users@[a].user != mid.users@[b].user);
                    } else if a == i_to {
                        assert(self.users@[b] == mid.users@[b]);
                        assert(mid.users@[b].user != mid.users@[i_to as int].user);
                    } else {
                        assert(self.users@[a] == mid.users@[a]);
                        assert(mid.users@[a].user != mid.users@[i_to as int].user);
                    }
                }
            }
            k = k + 1;
        }
        proof {
            assert(emojis.entries().take(emojis.entries().len() as int) =~= emojis.entries());
            assert forall|u2: u64, x: int|
                count_for(self.users@, u2, x) == old(self).count_of(u2, x) + (if u2 == to {
                    emojis.count_of(x)
                } else {
                    0nat
                }) by {
                assert(mid.count_of(u2, x) == count_for(mid.users@, u2, x));
                if u2 == to {
                    assert(count_for(self.users@, to, x) == mid.count_of(to, x)
                        + crate::emojis_with_counts::count_in(emojis.entries(), x));
                } else {
                    assert(count_for(self.users@, u2, x) == mid.count_of(u2, x));
                }
            }
            assert forall|x: int|
                crate::ledger::total_count(self.users@, x) == old(self).total_of(x)
                    + emojis.count_of(x) by {
                assert(mid.total_of(x) == crate::ledger::total_count(mid.users@, x));
                assert(crate::ledger::total_count(self.users@, x) == mid.total_of(x)
                    + crate::emojis_with_counts::count_in(emojis.entries(), x));
            }
            assert(final(self).users@[i_to as int].user == to);
            lemma_user_index_unique(*final(self), to, i_to as int);
            assert(final(self).inv_of(to) == final(self).users@[i_to as int]);
            if !old(self).has_user(to) {
                assert forall|x: int|
                    mid.users@[i_to as int].ungrouped.count_of(x) == 0 by {
                    crate::emojis_with_counts::lemma_count_absent(
                        mid.users@[i_to as int].ungrouped.entries(),
                        x,
                    );
                }
            }
            assert forall|k2: int|
                0 <= k2 < old(self).users@.len() && (#[trigger] old(self).users@[k2]).user != to
                    implies final(self).users@[k2] == old(self).users@[k2] by {
                assert(final(self).users@[k2] == mid.users@[k2]);
            }
        }
    }

    /// Removes every outstanding offer whose offering side a settlement has
    /// just made unfulfillable: for each settled party, their outgoing offers
    /// are re-checked against current holdings and deleted when no longer
    /// backed.  The recycling counterparty, the game itself, has no offers.
    pub fn remove_invalidated_trade_offers(&mut self, trade_offer: &TradeOffer)
        requires
            old(self).wf(),
        ensures
            final(self).wf(),
            final(self).users@ == old(self).users@,
            final(self).log@ == old(self).log@,
            final(self).private_users@ == old(self).private_users@,
            final(self).last_seen@ == old(self).last_seen@,
            forall|k: int|
                0 <= k < final(self).offers@.len() ==> old(self).offers@.contains(
                    #[trigger] final(self).offers@[k],
                ),
            forall|k: int|
                0 <= k < final(self).offers@.len() && ((#[trigger] final(self).offers@[k]).offering() == trade_offer.offering() || Counterparty::User(
                    final(self).offers@[k].offering(),
                ) == trade_offer.target_of()) ==> (forall|e: int|
                    final(self).offers@[k].offer_ms().count_of(e) <= final(self).count_of(
                        final(self).offers@[k].offering(),
                        e,
                    )),
            final(self).offers@ == old(self).offers@.filter(
                |t: TradeOffer| !((t.offering() == trade_offer.offering() || Counterparty::User(
                    t.offering(),
                ) == trade_offer.target_of()) && !(forall|e: int|
                    t.offer_ms().count_of(e) <= old(self).count_of(t.offering(), e))),
            ),
    {
        let ghost pred = |t: TradeOffer| !((t.offering() == trade_offer.offering()
            || Counterparty::User(t.offering()) == trade_offer.target_of()) && !(forall|e: int|
            t.offer_ms().count_of(e) <= old(self).count_of(t.offering(), e)));
        let u1 = trade_offer.offering_user();
        let mut kept: Vec<TradeOffer> = Vec::new();
        let ghost orig = self.offers@;
        proof {
            reveal(Seq::filter);
            assert(orig.take(0) =~= Seq::<TradeOffer>::empty());
        }
        let mut remaining: usize = self.offers.len();
        while remaining > 0
            invariant
                remaining == self.offers@.len(),
                remaining <= orig.len(),
                self.offers@ =~= orig.skip((orig.len() - remaining) as int),
                orig == old(self).offers@,
                old(self).wf(),
                u1 == trade_offer.offering(),
                self.users@ == old(self).users@,
                self.log@ == old(self).log@,
                self.private_users@ == old(self).private_users@,
                self.last_seen@ == old(self).last_seen@,
                pred == (|t: TradeOffer| !((t.offering() == trade_offer.offering()
                    || Counterparty::User(t.offering()) == trade_offer.target_of()) && !(forall|
                    e: int,
                |
                    t.offer_ms().count_of(e) <= old(self).count_of(t.offering(), e)))),
                kept@ == orig.take((orig.len() - remaining) as int).filter(pred),
                forall|k: int|
                    0 <= k < kept@.len() ==> exists|m: int|
                        0 <= m < orig.len() - remaining && #[trigger] kept@[k] == orig[m],
                forall|a: int, b: int|
                    0 <= a < b < kept@.len() ==> !((#[trigger] kept@[a]).offering() == (
                    #[trigger] kept@[b]).offering() && kept@[a].target_of()
                        == kept@[b].target_of()),
                forall|k: int|
                    0 <= k < kept@.len() && ((#[trigger] kept@[k]).offering()
                        == trade_offer.offering() || Counterparty::User(kept@[k].offering())
                        == trade_offer.target_of()) ==> (forall|e: int|
                        kept@[k].offer_ms().count_of(e) <= count_for(
                            self.users@,
                            kept@[k].offering(),
                            e,
                        )),
            decreases remaining,
        {
            let ghost done = orig.len() - remaining;
            let t = self.offers.remove(0);
            proof {
                assert(t == orig[done as int]);
                assert(self.offers@ =~= orig.skip(done + 1));
            }
            let target_matches = match trade_offer.target_user() {
                Counterparty::User(u2) => t.offering_user() == u2,
                Counterparty::System => false,
            };
            let involved = t.offering_user() == u1 || target_matches;
            let keep = if involved {
                proof {
                    assert(t.offer_ms().wf());
                }
                self.has_at_least(t.offering_user(), t.offer())
            } else {
                true
            };
            proof {
                assert forall|e: int|
                    count_for(self.users@, t.offering(), e) == old(self).count_of(
                        t.offering(),
                        e,
                    ) by {}
                assert(keep == pred(t));
                reveal(Seq::filter);
                assert(orig.take(done + 1).drop_last() =~= orig.take(done as int));
                assert(orig.take(done + 1).last() == orig[done as int]);
                assert(orig.take(done + 1).filter(pred) == (if pred(orig[done as int]) {
                    orig.take(done as int).filter(pred).push(orig[done as int])
                } else {
                    orig.take(done as int).filter(pred)
                }));
            }
            if keep {
                let ghost kept_pre = kept@;
                proof {
                    assert forall|a: int|
                        0 <= a < kept_pre.len() implies !((#[trigger] kept_pre[a]).offering()
                        == t.offering() && kept_pre[a].target_of() == t.target_of()) by {
                        let m = choose|m: int|
                            0 <= m < done && #[trigger] kept_pre[a] == orig[m];
                        assert(!(orig[m].offering() == orig[done as int].offering()
                            && orig[m].target_of() == orig[done as int].target_of()));
                    }
                }
                kept.push(t);
                proof {
                    assert(kept@.drop_last() =~= kept_pre);
                    assert forall|k: int|
                        0 <= k < kept@.len() implies exists|m: int|
                        0 <= m < done + 1 && #[trigger] kept@[k] == orig[m] by {
                        if k < kept_pre.len() {
                            let m = choose|m: int|
                                0 <= m < done && #[trigger] kept_pre[k] == orig[m];
                            assert(kept@[k] == orig[m]);
                        } else {
                            assert(kept@[k] == orig[done as int]);
                        }
                    }
                }
            }
            remaining = remaining - 1;
        }
        proof {
            assert forall|k: int|
                0 <= k < kept@.len() implies exists|m: int|
                0 <= m < orig.len() && #[trigger] kept@[k] == orig[m] by {
                let m = choose|m: int|
                    0 <= m < orig.len() - remaining && #[trigger] kept@[k] == orig[m];
                assert(0 <= m < orig.len() && kept@[k] == orig[m]);
            }
        }
        let ghost kv = kept@;
        self.offers = kept;
        proof {
            assert(orig.take(orig.len() as int) =~= orig);
            assert forall|k: int|
                0 <= k < final(self).offers@.len() implies old(self).offers@.contains(
                #[trigger] final(self).offers@[k]) by {
                let m = choose|m: int| 0 <= m < orig.len() && #[trigger] kv[k] == orig[m];
                assert(old(self).offers@[m] == final(self).offers@[k]);
            }
        }
    }

    /// Settles the trade the accepting user has just confirmed.  The offer is
    /// re-validated a final time and must be byte-for-byte identical to the
    /// copy that was confirmed; only then do the two transfers, the log
    /// record, and the invalidation sweep happen, all in one step.
    pub fn try_confirm_trade(&mut self, trade_offer: &TradeOffer) -> (r: Result<
        (),
        ConfirmTradeError,
    >)
        requires
            old(self).wf(),
        ensures
            final(self).wf(),
            match r {
                Err(ConfirmTradeError::NoTrade) => old(self).confirm_no_trade(*trade_offer)
                    && *final(self) == *old(self),
                Err(ConfirmTradeError::TargetLacksEmojis) => old(self).confirm_target_lacks(
                    *trade_offer,
                ) && *final(self) == *old(self),
                Err(ConfirmTradeError::OffererLacksEmojis) => old(self).confirm_offerer_lacks(
                    *trade_offer,
                ) && *final(self) == *old(self),
                Err(ConfirmTradeError::OfferChanged) => old(self).confirm_offer_changed(
                    *trade_offer,
                ) && *final(self) == *old(self),
                Ok(_) => {
                    &&& old(self).confirm_would_settle(*trade_offer)
                    &&& trade_offer.target_of() is User
                    &&& (trade_offer.target_of() matches Counterparty::User(target) ==> {
                        &&& old(self).has_user(trade_offer.offering())
                        &&& old(self).has_user(target)
                        &&& final(self).has_user(trade_offer.offering())
                        &&& final(self).has_user(target)
                        &&& (forall|n: Seq<char>|
                            #[trigger] final(self).inv_of(trade_offer.offering()).has_group(n)
                                ==> old(self).inv_of(trade_offer.offering()).has_group(n))
                        &&& (forall|n: Seq<char>|
                            #[trigger] final(self).inv_of(trade_offer.offering()).has_group(n)
                                ==> (forall|e: int|
                                #[trigger] final(self).inv_of(
                                    trade_offer.offering(),
                                ).groups@[final(self).inv_of(trade_offer.offering()).group_index_of(
                                    n,
                                )].contents.count_of(e) == count_after_draw(
                                    old(self).inv_of(trade_offer.offering()).groups@,
                                    old(self).inv_of(trade_offer.offering()).group_index_of(n),
                                    e,
                                    trade_offer.offer_ms().count_of(e),
                                )))
                        &&& (forall|e: int|
                            final(self).inv_of(trade_offer.offering()).ungrouped.count_of(e)
                                == old(self).inv_of(trade_offer.offering()).ungrouped.count_of(e)
                                - min_nat(
                                (trade_offer.offer_ms().count_of(e) - min_nat(
                                    trade_offer.offer_ms().count_of(e),
                                    groups_count(
                                        old(self).inv_of(trade_offer.offering()).groups@,
                                        e,
                                    ),
                                )) as nat,
                                old(self).inv_of(trade_offer.offering()).ungrouped.count_of(e),
                            ) + trade_offer.request_ms().count_of(e))
                        &&& (forall|n: Seq<char>|
                            #[trigger] final(self).inv_of(target).has_group(n) ==> old(
                                self,
                            ).inv_of(target).has_group(n))
                        &&& (forall|n: Seq<char>|
                            #[trigger] final(self).inv_of(target).has_group(n) ==> (forall|e: int|
                                #[trigger] final(self).inv_of(target).groups@[final(self).inv_of(
                                    target,
                                ).group_index_of(n)].contents.count_of(e) == count_after_draw(
                                    old(self).inv_of(target).groups@,
                                    old(self).inv_of(target).group_index_of(n),
                                    e,
                                    trade_offer.request_ms().count_of(e),
                                )))
                        &&& (forall|e: int|
                            final(self).inv_of(target).ungrouped.count_of(e) == old(self).inv_of(
                                target,
                            ).ungrouped.count_of(e) + trade_offer.offer_ms().count_of(e)
                                - min_nat(
                                (trade_offer.request_ms().count_of(e) - min_nat(
                                    trade_offer.request_ms().count_of(e),
                                    groups_count(old(self).inv_of(target).groups@, e),
                                )) as nat,
                                old(self).inv_of(target).ungrouped.count_of(e)
                                    + trade_offer.offer_ms().count_of(e),
                            ))
                        &&& (forall|e: int|
                            final(self).count_of(trade_offer.offering(), e) == old(self).count_of(
                                trade_offer.offering(),
                                e,
                            ) - trade_offer.offer_ms().count_of(e)
                                + trade_offer.request_ms().count_of(e))
                        &&& (forall|e: int|
                            final(self).count_of(target, e) == old(self).count_of(target, e)
                                + trade_offer.offer_ms().count_of(e)
                                - trade_offer.request_ms().count_of(e))
                        &&& (forall|u2: u64, x: int|
                            u2 != trade_offer.offering() && u2 != target ==> final(self).count_of(
                                u2,
                                x,
                            ) == old(self).count_of(u2, x))
                        &&& !final(self).has_offer(trade_offer.offering(), target)
                    })
                    &&& (forall|e: int| final(self).total_of(e) == old(self).total_of(e))
                    &&& final(self).grand_total() == old(self).grand_total()
                    &&& final(self).log@.len() == old(self).log@.len() + 1
                    &&& final(self).log@.last().initiating_user == trade_offer.offering()
                    &&& final(self).log@.last().recipient == trade_offer.target_of()
                    &&& final(self).log@.last().contents@.len() == trade_offer.request_ms().entries().len() + trade_offer.offer_ms().entries().len()
                    &&& (forall|k: int|
                        0 <= k < trade_offer.request_ms().entries().len()
                            ==> #[trigger] final(self).log@.last().contents@[k] == (
                            trade_offer.request_ms().entries()[k].0,
                            trade_offer.request_ms().entries()[k].1 as i64,
                        ))
                    &&& (forall|k: int|
                        0 <= k < trade_offer.offer_ms().entries().len()
                            ==> #[trigger] final(self).log@.last().contents@[trade_offer.request_ms().entries().len() + k] == (
                            trade_offer.offer_ms().entries()[k].0,
                            (-(trade_offer.offer_ms().entries()[k].1 as int)) as i64,
                        ))
                    &&& (forall|k: int|
                        0 <= k < old(self).log@.len() ==> #[trigger] final(self).log@[k] == old(self).log@[k])
                },
            },
    {
        let target_user = match trade_offer.target_user() {
            Counterparty::User(t) => t,
            Counterparty::System => {
                return Err(ConfirmTradeError::NoTrade);
            },
        };
        let offering_user = trade_offer.offering_user();
        let fresh = match self.validate_trade_offer(offering_user, target_user) {
            TradeOfferValidation::NoTrade => {
                return Err(ConfirmTradeError::NoTrade);
            },
            TradeOfferValidation::TargetLacksEmojis => {
                return Err(ConfirmTradeError::TargetLacksEmojis);
            },
            TradeOfferValidation::OffererLacksEmojis => {
                return Err(ConfirmTradeError::OffererLacksEmojis);
            },
            TradeOfferValidation::Valid(t) => t,
        };
        if !trade_offer.equals(&fresh) {
            return Err(ConfirmTradeError::OfferChanged);
        }
        proof {
            crate::emojis_with_counts::lemma_equiv_counts(
                trade_offer.offer_ms().entries(),
                fresh.offer_ms().entries(),
            );
            crate::emojis_with_counts::lemma_equiv_counts(
                trade_offer.request_ms().entries(),
                fresh.request_ms().entries(),
            );
            let j = old(self).offer_index_of(offering_user, target_user);
            assert(old(self).offers@[j].wf());
            assert(offering_user != target_user);
            // the confirmed copy is well-formed because the fresh one is and
            // they agree entry for entry
            assert(trade_offer.offer_ms().wf()) by {
                let a = trade_offer.offer_ms().entries();
                let b = fresh.offer_ms().entries();
                assert forall|x: int, y: int|
                    0 <= x < y < a.len() implies (#[trigger] a[x]).0.idx() < (
                #[trigger] a[y]).0.idx() by {
                    assert(b[x].0.idx() < b[y].0.idx());
                }
                assert forall|x: int| 0 <= x < a.len() implies (#[trigger] a[x]).1 >= 1 by {
                    assert(b[x].1 >= 1);
                }
            }
            assert(trade_offer.request_ms().wf()) by {
                let a = trade_offer.request_ms().entries();
                let b = fresh.request_ms().entries();
                assert forall|x: int, y: int|
                    0 <= x < y < a.len() implies (#[trigger] a[x]).0.idx() < (
                #[trigger] a[y]).0.idx() by {
                    assert(b[x].0.idx() < b[y].0.idx());
                }
                assert forall|x: int| 0 <= x < a.len() implies (#[trigger] a[x]).1 >= 1 by {
                    assert(b[x].1 >= 1);
                }
            }
        }
        // the atomic settlement: log, delete the offer, move both sides,
        // then sweep offers the settlement has starved
        let record = TradeLogEntry {
            initiating_user: trade_offer.offering_user(),
            recipient: trade_offer.target_user(),
            contents: trade_offer.to_database_format(),
        };
        let ghost pre_log = self.log@;
        self.log.push(record);
        proof {
            assert(self.log@.drop_last() =~= pre_log);
        }
        let removed = self.remove_trade_offer(offering_user, target_user);
        let ghost before_moves = *self;
        proof {
            assert(before_moves.users@ == old(self).users@);
            assert forall|e: int|
                trade_offer.offer_ms().count_of(e) <= before_moves.count_of(
                    offering_user,
                    e,
                ) by {
                assert(before_moves.count_of(offering_user, e) == old(self).count_of(
                    offering_user,
                    e,
                ));
                assert(trade_offer.offer_ms().count_of(e) == fresh.offer_ms().count_of(e));
            }
            assert forall|e: int|
                trade_offer.request_ms().count_of(e) <= before_moves.count_of(
                    target_user,
                    e,
                ) by {
                assert(before_moves.count_of(target_user, e) == old(self).count_of(
                    target_user,
                    e,
                ));
                assert(trade_offer.request_ms().count_of(e) == fresh.request_ms().count_of(e));
            }
        }
        proof {
            // both parties exist: each owns a non-empty multiset
            let stored = old(self).stored_offer(offering_user, target_user);
            assert(stored.offer_ms().entries().len() > 0 && stored.request_ms().entries().len()
                > 0);
            assert(trade_offer.offer_ms().entries().len() > 0) by {
                assert(trade_offer.offer_ms().entries().len()
                    == stored.offer_ms().entries().len());
            }
            assert(trade_offer.request_ms().entries().len() > 0) by {
                assert(trade_offer.request_ms().entries().len()
                    == stored.request_ms().entries().len());
            }
            crate::emojis_with_counts::lemma_unique_entry_count(
                trade_offer.offer_ms().entries(),
                0,
            );
            assert(trade_offer.offer_ms().entries()[0].1 >= 1);
            assert(before_moves.count_of(
                offering_user,
                trade_offer.offer_ms().entries()[0].0.idx(),
            ) > 0);
            crate::ledger::lemma_count_for_pos_user(
                before_moves.users@,
                offering_user,
                trade_offer.offer_ms().entries()[0].0.idx(),
            );
            crate::emojis_with_counts::lemma_unique_entry_count(
                trade_offer.request_ms().entries(),
                0,
            );
            assert(trade_offer.request_ms().entries()[0].1 >= 1);
            assert(before_moves.count_of(
                target_user,
                trade_offer.request_ms().entries()[0].0.idx(),
            ) > 0);
            crate::ledger::lemma_count_for_pos_user(
                before_moves.users@,
                target_user,
                trade_offer.request_ms().entries()[0].0.idx(),
            );
            assert(before_moves.has_user(offering_user) && before_moves.has_user(target_user));
            assert(old(self).has_user(offering_user) && old(self).has_user(target_user)) by {
                let ko = choose|ko: int|
                    0 <= ko < before_moves.users@.len() && (#[trigger] before_moves.users@[ko]).user
                        == offering_user;
                assert(old(self).users@[ko].user == offering_user);
                let kt = choose|kt: int|
                    0 <= kt < before_moves.users@.len() && (#[trigger] before_moves.users@[kt]).user
                        == target_user;
                assert(old(self).users@[kt].user == target_user);
            }
        }
        self.transfer(offering_user, target_user, trade_offer.offer());
        let ghost t1 = *self;
        proof {
            assert forall|e: int|
                trade_offer.request_ms().count_of(e) <= t1.count_of(target_user, e) by {
                assert(t1.count_of(target_user, e) == before_moves.count_of(target_user, e)
                    + trade_offer.offer_ms().count_of(e));
            }
        }
        self.transfer(target_user, offering_user, trade_offer.request());
        let ghost s4 = *self;
        proof {
            assert forall|e: int|
                s4.count_of(offering_user, e) == before_moves.count_of(offering_user, e)
                    - trade_offer.offer_ms().count_of(e) + trade_offer.request_ms().count_of(
                    e,
                ) by {
                assert(t1.count_of(offering_user, e) == before_moves.count_of(offering_user, e)
                    - trade_offer.offer_ms().count_of(e));
                assert(s4.count_of(offering_user, e) == t1.count_of(offering_user, e)
                    + trade_offer.request_ms().count_of(e));
            }
            assert forall|e: int|
                s4.count_of(target_user, e) == before_moves.count_of(target_user, e)
                    + trade_offer.offer_ms().count_of(e) - trade_offer.request_ms().count_of(
                    e,
                ) by {
                assert(t1.count_of(target_user, e) == before_moves.count_of(target_user, e)
                    + trade_offer.offer_ms().count_of(e));
                assert(s4.count_of(target_user, e) == t1.count_of(target_user, e)
                    - trade_offer.request_ms().count_of(e));
            }
            assert forall|u2: u64, x: int|
                u2 != offering_user && u2 != target_user implies s4.count_of(u2, x)
                == before_moves.count_of(u2, x) by {
                assert(t1.count_of(u2, x) == before_moves.count_of(u2, x));
                assert(s4.count_of(u2, x) == t1.count_of(u2, x));
            }
            assert forall|e: int|
                s4.total_of(e) == before_moves.total_of(e) by {
                assert(t1.total_of(e) == before_moves.total_of(e));
                assert(s4.total_of(e) == t1.total_of(e));
            }
            assert(s4.grand_total() == before_moves.grand_total());
        }
        self.remove_invalidated_trade_offers(trade_offer);
        proof {
            assert(!final(self).has_offer(offering_user, target_user)) by {
                if final(self).has_offer(offering_user, target_user) {
                    let k = choose|k: int|
                        0 <= k < final(self).offers@.len() && (#[trigger] final(self).offers@[k]).offering() == offering_user && final(self).offers@[k].target_of() == Counterparty::User(target_user);
                    assert(s4.offers@.contains(final(self).offers@[k]));
                    let m = choose|m: int|
                        0 <= m < s4.offers@.len() && s4.offers@[m] == final(self).offers@[k];
                    assert(s4.offers@ == before_moves.offers@);
                    assert(before_moves.offers@[m].offering() == offering_user);
                    assert(before_moves.has_offer(offering_user, target_user));
                }
            }
            assert(final(self).users@ == s4.users@);
            assert forall|e: int|
                final(self).count_of(offering_user, e) == old(self).count_of(offering_user, e)
                    - trade_offer.offer_ms().count_of(e) + trade_offer.request_ms().count_of(
                    e,
                ) by {
                assert(final(self).count_of(offering_user, e) == count_for(
                    final(self).users@,
                    offering_user,
                    e,
                ));
                assert(s4.count_of(offering_user, e) == count_for(s4.users@, offering_user, e));
                assert(before_moves.count_of(offering_user, e) == old(self).count_of(
                    offering_user,
                    e,
                ));
            }
            assert forall|e: int|
                final(self).count_of(target_user, e) == old(self).count_of(target_user, e)
                    + trade_offer.offer_ms().count_of(e) - trade_offer.request_ms().count_of(
                    e,
                ) by {
                assert(final(self).count_of(target_user, e) == count_for(
                    final(self).users@,
                    target_user,
                    e,
                ));
                assert(s4.count_of(target_user, e) == count_for(s4.users@, target_user, e));
                assert(before_moves.count_of(target_user, e) == old(self).count_of(
                    target_user,
                    e,
                ));
            }
            assert forall|u2: u64, x: int|
                u2 != offering_user && u2 != target_user implies final(self).count_of(u2, x)
                == old(self).count_of(u2, x) by {
                assert(final(self).count_of(u2, x) == count_for(final(self).users@, u2, x));
                assert(s4.count_of(u2, x) == count_for(s4.users@, u2, x));
                assert(before_moves.count_of(u2, x) == old(self).count_of(u2, x));
            }
            assert forall|e: int| final(self).total_of(e) == old(self).total_of(e) by {
                assert(final(self).total_of(e) == crate::ledger::total_count(
                    final(self).users@,
                    e,
                ));
                assert(s4.total_of(e) == crate::ledger::total_count(s4.users@, e));
                assert(before_moves.total_of(e) == old(self).total_of(e));
            }
            assert(final(self).grand_total() == crate::ledger::users_total(final(self).users@));
            assert(s4.grand_total() == crate::ledger::users_total(s4.users@));
            assert(before_moves.grand_total() == old(self).grand_total());
            // settlement's effect on each party's group structure: moved
            // units leave the giver's groups least prioritised first and
            // arrive ungrouped
            assert(before_moves.inv_of(offering_user) == old(self).inv_of(offering_user)) by {
                let ko = old(self).user_index(offering_user);
                assert(old(self).users@[ko].user == offering_user);
                lemma_user_index_unique(before_moves, offering_user, ko);
                lemma_user_index_unique(*old(self), offering_user, ko);
            }
            assert(before_moves.inv_of(target_user) == old(self).inv_of(target_user)) by {
                let kt = old(self).user_index(target_user);
                assert(old(self).users@[kt].user == target_user);
                lemma_user_index_unique(before_moves, target_user, kt);
                lemma_user_index_unique(*old(self), target_user, kt);
            }
            assert(final(self).users@ == s4.users@);
            assert(final(self).inv_of(offering_user) == s4.inv_of(offering_user)) by {
                let ko = s4.user_index(offering_user);
                assert(s4.users@[ko].user == offering_user);
                lemma_user_index_unique(s4, offering_user, ko);
                lemma_user_index_unique(*final(self), offering_user, ko);
            }
            assert(final(self).inv_of(target_user) == s4.inv_of(target_user)) by {
                let kt = s4.user_index(target_user);
                assert(s4.users@[kt].user == target_user);
                lemma_user_index_unique(s4, target_user, kt);
                lemma_user_index_unique(*final(self), target_user, kt);
            }
            assert(s4.inv_of(offering_user).groups@ == t1.inv_of(offering_user).groups@);
            assert(t1.inv_of(target_user).groups@ == before_moves.inv_of(target_user).groups@);
            assert forall|n: Seq<char>|
                #[trigger] final(self).inv_of(offering_user).has_group(n) implies old(self).inv_of(
                offering_user,
            ).has_group(n) by {
                assert(t1.inv_of(offering_user).has_group(n));
                assert(before_moves.inv_of(offering_user).has_group(n));
            }
            assert forall|n: Seq<char>|
                #[trigger] final(self).inv_of(offering_user).has_group(n) implies (forall|e: int|
                #[trigger] final(self).inv_of(offering_user).groups@[final(self).inv_of(
                    offering_user,
                ).group_index_of(n)].contents.count_of(e) == count_after_draw(
                    old(self).inv_of(offering_user).groups@,
                    old(self).inv_of(offering_user).group_index_of(n),
                    e,
                    trade_offer.offer_ms().count_of(e),
                )) by {
                assert(t1.inv_of(offering_user).has_group(n));
                let kk = final(self).inv_of(offering_user).group_index_of(n);
                assert(0 <= kk < final(self).inv_of(offering_user).groups@.len()
                    && crate::inventory::names_eq_nocase(
                    final(self).inv_of(offering_user).groups@[kk].name@,
                    n,
                ));
                assert(t1.users@[t1.user_index(offering_user)].wf());
                assert(t1.inv_of(offering_user).base_wf());
                crate::inventory::lemma_group_index_unique(t1.inv_of(offering_user), n, kk);
                assert(t1.inv_of(offering_user).group_index_of(n) == kk);
                assert forall|e: int|
                    #[trigger] final(self).inv_of(offering_user).groups@[kk].contents.count_of(e)
                        == count_after_draw(
                        old(self).inv_of(offering_user).groups@,
                        old(self).inv_of(offering_user).group_index_of(n),
                        e,
                        trade_offer.offer_ms().count_of(e),
                    ) by {
                    assert(t1.inv_of(offering_user).groups@[kk].contents.count_of(e)
                        == count_after_draw(
                        before_moves.inv_of(offering_user).groups@,
                        before_moves.inv_of(offering_user).group_index_of(n),
                        e,
                        trade_offer.offer_ms().count_of(e),
                    ));
                }
            }
            assert forall|e: int|
                final(self).inv_of(offering_user).ungrouped.count_of(e) == old(self).inv_of(
                offering_user,
            ).ungrouped.count_of(e) - min_nat(
                (trade_offer.offer_ms().count_of(e) - min_nat(
                    trade_offer.offer_ms().count_of(e),
                    groups_count(old(self).inv_of(offering_user).groups@, e),
                )) as nat,
                old(self).inv_of(offering_user).ungrouped.count_of(e),
            ) + trade_offer.request_ms().count_of(e) by {
                assert(s4.inv_of(offering_user).ungrouped.count_of(e) == t1.inv_of(
                    offering_user,
                ).ungrouped.count_of(e) + trade_offer.request_ms().count_of(e));
                assert(t1.inv_of(offering_user).ungrouped.count_of(e) == before_moves.inv_of(
                    offering_user,
                ).ungrouped.count_of(e) - min_nat(
                    (trade_offer.offer_ms().count_of(e) - min_nat(
                        trade_offer.offer_ms().count_of(e),
                        groups_count(before_moves.inv_of(offering_user).groups@, e),
                    )) as nat,
                    before_moves.inv_of(offering_user).ungrouped.count_of(e),
                ));
            }
            assert forall|n: Seq<char>|
                #[trigger] final(self).inv_of(target_user).has_group(n) implies old(self).inv_of(
                target_user,
            ).has_group(n) by {
                assert(t1.inv_of(target_user).has_group(n));
                assert(before_moves.inv_of(target_user).has_group(n));
            }
            assert forall|n: Seq<char>|
                #[trigger] final(self).inv_of(target_user).has_group(n) implies (forall|e: int|
                #[trigger] final(self).inv_of(target_user).groups@[final(self).inv_of(
                    target_user,
                ).group_index_of(n)].contents.count_of(e) == count_after_draw(
                    old(self).inv_of(target_user).groups@,
                    old(self).inv_of(target_user).group_index_of(n),
                    e,
                    trade_offer.request_ms().count_of(e),
                )) by {
                assert(t1.inv_of(target_user).has_group(n));
                let m = t1.inv_of(target_user).group_index_of(n);
                assert(0 <= m < t1.inv_of(target_user).groups@.len()
                    && crate::inventory::names_eq_nocase(
                    t1.inv_of(target_user).groups@[m].name@,
                    n,
                ));
                assert(old(self).users@[old(self).user_index(target_user)].wf());
                assert(old(self).inv_of(target_user).base_wf());
                crate::inventory::lemma_group_index_unique(old(self).inv_of(target_user), n, m);
                assert(old(self).inv_of(target_user).group_index_of(n) == m);
                assert forall|e: int|
                    #[trigger] final(self).inv_of(target_user).groups@[final(self).inv_of(
                        target_user,
                    ).group_index_of(n)].contents.count_of(e) == count_after_draw(
                        old(self).inv_of(target_user).groups@,
                        m,
                        e,
                        trade_offer.request_ms().count_of(e),
                    ) by {
                    assert(s4.inv_of(target_user).groups@[s4.inv_of(
                        target_user,
                    ).group_index_of(n)].contents.count_of(e) == count_after_draw(
                        t1.inv_of(target_user).groups@,
                        t1.inv_of(target_user).group_index_of(n),
                        e,
                        trade_offer.request_ms().count_of(e),
                    ));
                }
            }
            assert forall|e: int|
                final(self).inv_of(target_user).ungrouped.count_of(e) == old(self).inv_of(
                target_user,
            ).ungrouped.count_of(e) + trade_offer.offer_ms().count_of(e) - min_nat(
                (trade_offer.request_ms().count_of(e) - min_nat(
                    trade_offer.request_ms().count_of(e),
                    groups_count(old(self).inv_of(target_user).groups@, e),
                )) as nat,
                old(self).inv_of(target_user).ungrouped.count_of(e)
                    + trade_offer.offer_ms().count_of(e),
            ) by {
                assert(s4.inv_of(target_user).ungrouped.count_of(e) == t1.inv_of(
                    target_user,
                ).ungrouped.count_of(e) - min_nat(
                    (trade_offer.request_ms().count_of(e) - min_nat(
                        trade_offer.request_ms().count_of(e),
                        groups_count(t1.inv_of(target_user).groups@, e),
                    )) as nat,
                    t1.inv_of(target_user).ungrouped.count_of(e),
                ));
                assert(t1.inv_of(target_user).ungrouped.count_of(e) == before_moves.inv_of(
                    target_user,
                ).ungrouped.count_of(e) + trade_offer.offer_ms().count_of(e));
            }
        }
        Ok(())
    }

    /// Applies the accepting user's response to the confirmation prompt: a
    /// decline or a timeout changes nothing at all, and only an explicit
    /// confirmation goes on to the final validation and settlement.
    pub fn respond_to_confirmation(
        &mut self,
        trade_offer: &TradeOffer,
        response: ConfirmationResponse,
    ) -> (r: ConfirmationOutcome)
        requires
            old(self).wf(),
        ensures
            final(self).wf(),
            response is Declined ==> *final(self) == *old(self) && r is Declined,
            response is TimedOut ==> *final(self) == *old(self) && r is TimedOut,
            response is Confirmed ==> match r {
                ConfirmationOutcome::Settled => old(self).confirm_would_settle(*trade_offer),
                ConfirmationOutcome::Failed(e) => *final(self) == *old(self) && match e {
                    ConfirmTradeError::NoTrade => old(self).confirm_no_trade(*trade_offer),
                    ConfirmTradeError::TargetLacksEmojis => old(self).confirm_target_lacks(
                        *trade_offer,
                    ),
                    ConfirmTradeError::OffererLacksEmojis => old(self).confirm_offerer_lacks(
                        *trade_offer,
                    ),
                    ConfirmTradeError::OfferChanged => old(self).confirm_offer_changed(
                        *trade_offer,
                    ),
                },
                ConfirmationOutcome::Declined => false,
                ConfirmationOutcome::TimedOut => false,
            },
            r is Failed ==> *final(self) == *old(self),
            r is Declined ==> response is Declined,
            r is TimedOut ==> response is TimedOut,
    {
        match response {
            ConfirmationResponse::Declined => ConfirmationOutcome::Declined,
            ConfirmationResponse::TimedOut => ConfirmationOutcome::TimedOut,
            ConfirmationResponse::Confirmed => {
                match self.try_confirm_trade(trade_offer) {
                    Ok(_) => ConfirmationOutcome::Settled,
                    Err(e) => ConfirmationOutcome::Failed(e),
                }
            },
        }
    }

    /// Recycles exactly three tokens for one random new one.  A request whose
    /// total is not three, or one the user cannot cover, is rejected before
    /// any mutation.  The exchange is logged like a trade against the game
    /// itself, and the user's own outgoing offers are re-checked afterwards.
    pub fn recycle(
        &mut self,
        catalog: &crate::emoji::EmojiMap,
        user: u64,
        emojis: EmojisWithCounts,
    ) -> (r: Result<Emoji, RecycleError>)
        requires
            old(self).wf(),
            emojis.wf(),
            catalog.wf(),
            catalog.entries().len() >= 4,
        ensures
            final(self).wf(),
            match r {
                Err(RecycleError::WrongArity) => emojis.total() != 3 && *final(self) == *old(self),
                Err(RecycleError::NotOwned) => emojis.total() == 3 && !(forall|e: int|
                    emojis.count_of(e) <= old(self).count_of(user, e)) && *final(self) == *old(self),
                Ok(payout) => {
                    &&& emojis.total() == 3
                    &&& (forall|e: int| emojis.count_of(e) <= old(self).count_of(user, e))
                    &&& old(self).has_user(user)
                    &&& final(self).has_user(user)
                    &&& (forall|n: Seq<char>|
                        #[trigger] final(self).inv_of(user).has_group(n) ==> old(self).inv_of(
                            user,
                        ).has_group(n))
                    &&& (forall|n: Seq<char>|
                        #[trigger] final(self).inv_of(user).has_group(n) ==> (forall|e: int|
                            #[trigger] final(self).inv_of(user).groups@[final(self).inv_of(
                                user,
                            ).group_index_of(n)].contents.count_of(e) == count_after_draw(
                                old(self).inv_of(user).groups@,
                                old(self).inv_of(user).group_index_of(n),
                                e,
                                emojis.count_of(e),
                            )))
                    &&& (forall|e: int|
                        final(self).inv_of(user).ungrouped.count_of(e) == old(self).inv_of(
                            user,
                        ).ungrouped.count_of(e) - min_nat(
                            (emojis.count_of(e) - min_nat(
                                emojis.count_of(e),
                                groups_count(old(self).inv_of(user).groups@, e),
                            )) as nat,
                            old(self).inv_of(user).ungrouped.count_of(e),
                        ) + (if e == payout.idx() {
                            1nat
                        } else {
                            0nat
                        }))
                    &&& 0 <= payout.idx() < catalog.entries().len()
                    &&& emojis.count_of(payout.idx()) == 0
                    &&& (forall|e: int|
                        final(self).count_of(user, e) == old(self).count_of(user, e)
                            - emojis.count_of(e) + (if e == payout.idx() {
                            1nat
                        } else {
                            0nat
                        }))
                    &&& (forall|u2: u64, x: int|
                        u2 != user ==> final(self).count_of(u2, x) == old(self).count_of(u2, x))
                    &&& (forall|e: int|
                        final(self).total_of(e) == old(self).total_of(e) - emojis.count_of(e) + (
                        if e == payout.idx() {
                            1nat
                        } else {
                            0nat
                        }))
                    &&& final(self).grand_total() == old(self).grand_total() - 2
                    &&& final(self).log@.len() == old(self).log@.len() + 1
                    &&& final(self).log@.last().initiating_user == user
                    &&& final(self).log@.last().recipient == Counterparty::System
                    &&& final(self).log@.last().contents@.len() == 1 + emojis.entries().len()
                    &&& final(self).log@.last().contents@[0] == (payout, 1i64)
                    &&& (forall|k: int|
                        0 <= k < emojis.entries().len()
                            ==> #[trigger] final(self).log@.last().contents@[1 + k] == (
                            emojis.entries()[k].0,
                            (-(emojis.entries()[k].1 as int)) as i64,
                        ))
                    &&& (forall|k: int|
                        0 <= k < old(self).log@.len() ==> #[trigger] final(self).log@[k] == old(self).log@[k])
                },
            },
    {
        if emojis.emoji_count() != 3 {
            return Err(RecycleError::WrongArity);
        }
        if !self.has_at_least(user, &emojis) {
            return Err(RecycleError::NotOwned);
        }
        proof {
            crate::emojis_with_counts::lemma_len_le_total(emojis.entries());
            // owning three units means the user exists in the ledger
            assert(emojis.entries().len() > 0) by {
                if emojis.entries().len() == 0 {
                    assert(emojis.total() == 0);
                }
            }
            crate::emojis_with_counts::lemma_unique_entry_count(emojis.entries(), 0);
            assert(emojis.entries()[0].1 >= 1);
            assert(emojis.count_of(emojis.entries()[0].0.idx()) >= 1);
            assert(emojis.count_of(emojis.entries()[0].0.idx()) <= old(self).count_of(
                user,
                emojis.entries()[0].0.idx(),
            ));
            assert(old(self).count_of(user, emojis.entries()[0].0.idx()) > 0);
            crate::ledger::lemma_count_for_pos_user(
                old(self).users@,
                user,
                emojis.entries()[0].0.idx(),
            );
        }
        let trade_offer = TradeOffer::new_recycling(user, emojis, catalog);
        let payout = trade_offer.recycling_emoji();
        let record = TradeLogEntry {
            initiating_user: user,
            recipient: Counterparty::System,
            contents: trade_offer.to_database_format(),
        };
        let ghost pre_log = self.log@;
        self.log.push(record);
        proof {
            assert(self.log@.drop_last() =~= pre_log);
        }
        self.withdraw_units(user, trade_offer.offer());
        let ghost w1 = *self;
        self.grant(user, payout);
        let ghost g1 = *self;
        self.remove_invalidated_trade_offers(&trade_offer);
        proof {
            assert(final(self).users@ == g1.users@);
            // the user's inventory: consumed least-prioritised-first, the
            // payout ungrouped, the groups otherwise untouched
            let ku = choose|ku: int|
                0 <= ku < old(self).users@.len() && (#[trigger] old(self).users@[ku]).user
                    == user;
            lemma_user_index_unique(*old(self), user, ku);
            assert(w1.has_user(user));
            let kw = w1.user_index(user);
            assert(w1.users@[kw].user == user);
            assert(g1.users@[kw] == final(self).users@[kw]);
            assert(g1.inv_of(user) == final(self).inv_of(user)) by {
                lemma_user_index_unique(g1, user, g1.user_index(user));
                assert(g1.users@[g1.user_index(user)].user == user);
                lemma_user_index_unique(*final(self), user, g1.user_index(user));
            }
            assert(final(self).inv_of(user).groups@ == w1.inv_of(user).groups@);
            assert forall|n: Seq<char>|
                #[trigger] final(self).inv_of(user).has_group(n) implies old(self).inv_of(
                user,
            ).has_group(n) by {
                assert(w1.inv_of(user).has_group(n));
            }
            assert forall|n: Seq<char>|
                #[trigger] final(self).inv_of(user).has_group(n) implies (forall|e: int|
                #[trigger] final(self).inv_of(user).groups@[final(self).inv_of(
                    user,
                ).group_index_of(n)].contents.count_of(e) == count_after_draw(
                    old(self).inv_of(user).groups@,
                    old(self).inv_of(user).group_index_of(n),
                    e,
                    emojis.count_of(e),
                )) by {
                assert(w1.inv_of(user).has_group(n));
                assert(final(self).inv_of(user).group_index_of(n) == w1.inv_of(
                    user,
                ).group_index_of(n));
                assert forall|e: int|
                    #[trigger] final(self).inv_of(user).groups@[final(self).inv_of(
                        user,
                    ).group_index_of(n)].contents.count_of(e) == count_after_draw(
                        old(self).inv_of(user).groups@,
                        old(self).inv_of(user).group_index_of(n),
                        e,
                        emojis.count_of(e),
                    ) by {
                    assert(w1.inv_of(user).groups@[w1.inv_of(user).group_index_of(
                        n,
                    )].contents.count_of(e) == count_after_draw(
                        old(self).inv_of(user).groups@,
                        old(self).inv_of(user).group_index_of(n),
                        e,
                        emojis.count_of(e),
                    ));
                }
            }
            assert forall|e: int|
                final(self).count_of(user, e) == old(self).count_of(user, e) - emojis.count_of(e)
                    + (if e == payout.idx() {
                    1nat
                } else {
                    0nat
                }) by {
                assert(final(self).count_of(user, e) == g1.count_of(user, e));
                assert(w1.count_of(user, e) == old(self).count_of(user, e) - emojis.count_of(e));
            }
            assert forall|u2: u64, x: int|
                u2 != user implies final(self).count_of(u2, x) == old(self).count_of(u2, x) by {
                assert(final(self).count_of(u2, x) == g1.count_of(u2, x));
                assert(w1.count_of(u2, x) == old(self).count_of(u2, x));
            }
            assert forall|e: int|
                final(self).total_of(e) == old(self).total_of(e) - emojis.count_of(e) + (if e
                    == payout.idx() {
                    1nat
                } else {
                    0nat
                }) by {
                assert(final(self).total_of(e) == g1.total_of(e));
                assert(w1.total_of(e) == old(self).total_of(e) - emojis.count_of(e));
            }
            assert(final(self).grand_total() == g1.grand_total());
            assert(w1.grand_total() == old(self).grand_total() - 3);
        }
        Ok(payout)
    }

}

/// Under well-formedness, any position whose offer names the ordered user
/// pair is the one `offer_index_of` names.
pub proof fn lemma_offer_index_unique(s: LedgerState, from: u64, to: u64, j: int)
    requires
        s.offers_wf(),
        0 <= j < s.offers@.len(),
        s.offers@[j].offering() == from,
        s.offers@[j].target_of() == Counterparty::User(to),
    ensures
        s.has_offer(from, to),
        s.offer_index_of(from, to) == j,
{
    assert(s.has_offer(from, to));
    let jj = s.offer_index_of(from, to);
    assert(0 <= jj < s.offers@.len() && s.offers@[jj].offering() == from
        && s.offers@[jj].target_of() == Counterparty::User(to));
    if jj < j {
        assert(!(s.offers@[jj].offering() == s.offers@[j].offering() && s.offers@[jj].target_of()
            == s.offers@[j].target_of()));
    } else if j < jj {
        assert(!(s.offers@[j].offering() == s.offers@[jj].offering() && s.offers@[j].target_of()
            == s.offers@[jj].target_of()));
    }
}

} // verus!
