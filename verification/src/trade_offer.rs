//! A trade offer from one user to another, with an offered and a requested
//! multiset of tokens, and the immutable log record a settled trade leaves.

use vstd::prelude::*;
use vstd::string::StringExecFns;

use crate::emoji::Emoji;
use crate::emojis_with_counts::EmojisWithCounts;
use crate::emojis_with_counts::count_in;
use crate::emojis_with_counts::entries_equiv;

verus! {

/// The other side of an exchange: a real user, or the game itself (as in
/// recycling, which trades against no one).
#[derive(Clone, Copy, Debug, PartialEq, Eq, Structural)]
pub enum Counterparty {
    User(u64),
    System,
}

/// The immutable audit record of a settled trade or recycling: who initiated
/// it, who received, and the signed multiset of tokens moved (positive counts
/// are what the initiator gained, negative what they gave away).
pub struct TradeLogEntry {
    pub initiating_user: u64,
    pub recipient: Counterparty,
    pub contents: Vec<(Emoji, i64)>,
}

/// The units of ordinal `e` that a signed entry list grants the initiator.
pub open spec fn pos_count_in(s: Seq<(Emoji, i64)>, e: int) -> nat
    decreases s.len(),
{
    if s.len() == 0 {
        0
    } else {
        pos_count_in(s.drop_last(), e) + if s.last().0.idx() == e && s.last().1 > 0 {
            s.last().1 as nat
        } else {
            0nat
        }
    }
}

/// The units of ordinal `e` that a signed entry list takes from the initiator.
pub open spec fn neg_count_in(s: Seq<(Emoji, i64)>, e: int) -> nat
    decreases s.len(),
{
    if s.len() == 0 {
        0
    } else {
        neg_count_in(s.drop_last(), e) + if s.last().0.idx() == e && s.last().1 <= 0 {
            (-s.last().1) as nat
        } else {
            0nat
        }
    }
}

/// A trade offer: the offering user, the counterparty, and the two sides of
/// the exchange, each kept in canonical sorted form.
pub struct TradeOffer {
    offering_user: u64,
    target: Counterparty,
    offer: EmojisWithCounts,
    request: EmojisWithCounts,
}

impl TradeOffer {
    /// The user who made the offer.
    pub closed spec fn offering(self) -> u64 {
        self.offering_user
    }

    /// Whom the offer is addressed to.
    pub closed spec fn target_of(self) -> Counterparty {
        self.target
    }

    /// What the offering user would give away.
    pub closed spec fn offer_ms(self) -> EmojisWithCounts {
        self.offer
    }

    /// What the offering user asks for in return.
    pub closed spec fn request_ms(self) -> EmojisWithCounts {
        self.request
    }

    /// No token stands on both sides of the trade.
    pub open spec fn sides_disjoint(self) -> bool {
        self.offer_ms().disjoint_with(self.request_ms())
    }

    /// Both sides canonical and disjoint.
    pub open spec fn wf(self) -> bool {
        &&& self.offer_ms().wf()
        &&& self.request_ms().wf()
        &&& self.sides_disjoint()
    }

    /// Builds an offer.  Fails exactly when the same token stands on both
    /// sides of the trade; performs no other checks.
    pub fn new(user: u64, target_user: u64, offer: EmojisWithCounts, request: EmojisWithCounts)
        -> (r: Result<TradeOffer, String>)
        requires
            offer.wf(),
            request.wf(),
        ensures
            r is Ok <==> offer.disjoint_with(request),
            match r {
                Ok(t) => {
                    &&& t.wf()
                    &&& t.offering() == user
                    &&& t.target_of() == Counterparty::User(target_user)
                    &&& t.offer_ms() == offer
                    &&& t.request_ms() == request
                },
                Err(_) => true,
            },
    {
        let entries = offer.iter();
        let mut i: usize = 0;
        while i < entries.len()
            invariant
                i <= offer.entries().len(),
                entries@ == offer.entries(),
                offer.wf(),
                request.wf(),
                forall|k: int|
                    0 <= k < i ==> request.count_of((#[trigger] offer.entries()[k]).0.idx()) == 0,
            decreases entries@.len() - i,
        {
            let (e, _c) = entries[i];
            if request.count_of_emoji(e.index()) > 0 {
                proof {
                    crate::emojis_with_counts::lemma_unique_entry_count(offer.entries(), i as int);
                    assert(offer.entries()[i as int].1 >= 1);
                    assert(offer.has(e.idx()) && request.has(e.idx()));
                }
                return Err(String::from_str("You put an emoji on both sides of the trade."));
            }
            i = i + 1;
        }
        proof {
            assert forall|e: int| !(offer.has(e) && request.has(e)) by {
                if offer.count_of(e) > 0 {
                    crate::emojis_with_counts::lemma_count_pos_entry(offer.entries(), e);
                    let k = choose|k: int|
                        0 <= k < offer.entries().len() && (#[trigger] offer.entries()[k]).0.idx()
                            == e;
                }
            }
        }
        Ok(
            TradeOffer {
                offering_user: user,
                target: Counterparty::User(target_user),
                offer,
                request,
            },
        )
    }

    /// Rebuilds an offer from the signed entry list the backing store keeps:
    /// positive counts are the requested side, the rest the offered side.
    pub fn from_database(user: u64, target_user: u64, contents: Vec<(Emoji, i64)>) -> (r:
        TradeOffer)
        requires
            forall|i: int|
                0 <= i < contents@.len() ==> -(u32::MAX as int) <= (#[trigger] contents@[i]).1
                    <= u32::MAX as int,
            pos_total_in(contents@) <= u32::MAX,
            neg_total_in(contents@) <= u32::MAX,
        ensures
            r.offering() == user,
            r.target_of() == Counterparty::User(target_user),
            r.offer_ms().wf(),
            r.request_ms().wf(),
            forall|e: int| r.request_ms().count_of(e) == pos_count_in(contents@, e),
            forall|e: int| r.offer_ms().count_of(e) == neg_count_in(contents@, e),
            forall|i2: int|
                0 <= i2 < r.request_ms().entries().len() ==> exists|j: int|
                    0 <= j < contents@.len() && (#[trigger] r.request_ms().entries()[i2]).0 == (
                    #[trigger] contents@[j]).0,
            forall|i2: int|
                0 <= i2 < r.offer_ms().entries().len() ==> exists|j: int|
                    0 <= j < contents@.len() && (#[trigger] r.offer_ms().entries()[i2]).0 == (
                    #[trigger] contents@[j]).0,
    {
        let mut offered: Vec<(Emoji, u32)> = Vec::new();
        let mut requested: Vec<(Emoji, u32)> = Vec::new();
        let mut i: usize = 0;
        while i < contents.len()
            invariant
                i <= contents@.len(),
                forall|k: int|
                    0 <= k < contents@.len() ==> -(u32::MAX as int) <= (#[trigger] contents@[k]).1
                        <= u32::MAX as int,
                forall|e: int|
                    count_in(requested@, e) == pos_count_in(contents@.take(i as int), e),
                forall|e: int| count_in(offered@, e) == neg_count_in(contents@.take(i as int), e),
                crate::emojis_with_counts::total_in(requested@) == pos_total_in(
                    contents@.take(i as int),
                ),
                crate::emojis_with_counts::total_in(offered@) == neg_total_in(
                    contents@.take(i as int),
                ),
                forall|k: int|
                    0 <= k < requested@.len() ==> exists|j: int|
                        0 <= j < i && (#[trigger] requested@[k]).0 == (#[trigger] contents@[j]).0,
                forall|k: int|
                    0 <= k < offered@.len() ==> exists|j: int|
                        0 <= j < i && (#[trigger] offered@[k]).0 == (#[trigger] contents@[j]).0,
            decreases contents@.len() - i,
        {
            let (e, c) = contents[i];
            proof {
                assert(contents@.take(i + 1).drop_last() =~= contents@.take(i as int));
                assert(contents@.take(i + 1).last() == contents@[i as int]);
            }
            let ghost req_pre = requested@;
            let ghost off_pre = offered@;
            if c > 0 {
                requested.push((e, c as u32));
                proof {
                    assert(requested@.drop_last() =~= req_pre);
                    assert(requested@.last() == (e, c as u32));
                    assert forall|k: int|
                        0 <= k < requested@.len() implies exists|j: int|
                        0 <= j < i + 1 && (#[trigger] requested@[k]).0 == (
                        #[trigger] contents@[j]).0 by {
                        if k < req_pre.len() {
                            let j = choose|j: int|
                                0 <= j < i && (#[trigger] req_pre[k]).0 == (
                                #[trigger] contents@[j]).0;
                            assert(requested@[k].0 == contents@[j].0);
                        } else {
                            assert(requested@[k].0 == contents@[i as int].0);
                        }
                    }
                    assert forall|x: int|
                        count_in(requested@, x) == pos_count_in(contents@.take(i + 1), x) by {
                        assert(count_in(req_pre, x) == pos_count_in(contents@.take(i as int), x));
                        assert(count_in(requested@, x) == count_in(requested@.drop_last(), x) + (
                        if requested@.last().0.idx() == x {
                            requested@.last().1 as nat
                        } else {
                            0nat
                        }));
                    }
                    assert forall|x: int|
                        count_in(offered@, x) == neg_count_in(contents@.take(i + 1), x) by {
                        assert(count_in(off_pre, x) == neg_count_in(contents@.take(i as int), x));
                    }
                }
            } else {
                offered.push((e, (-c) as u32));
                proof {
                    assert(offered@.drop_last() =~= off_pre);
                    assert(offered@.last() == (e, (-c) as u32));
                    assert forall|k: int|
                        0 <= k < offered@.len() implies exists|j: int|
                        0 <= j < i + 1 && (#[trigger] offered@[k]).0 == (
                        #[trigger] contents@[j]).0 by {
                        if k < off_pre.len() {
                            let j = choose|j: int|
                                0 <= j < i && (#[trigger] off_pre[k]).0 == (
                                #[trigger] contents@[j]).0;
                            assert(offered@[k].0 == contents@[j].0);
                        } else {
                            assert(offered@[k].0 == contents@[i as int].0);
                        }
                    }
                    assert forall|x: int|
                        count_in(requested@, x) == pos_count_in(contents@.take(i + 1), x) by {
                        assert(count_in(req_pre, x) == pos_count_in(contents@.take(i as int), x));
                    }
                    assert forall|x: int|
                        count_in(offered@, x) == neg_count_in(contents@.take(i + 1), x) by {
                        assert(count_in(off_pre, x) == neg_count_in(contents@.take(i as int), x));
                        assert(count_in(offered@, x) == count_in(offered@.drop_last(), x) + (
                        if offered@.last().0.idx() == x {
                            offered@.last().1 as nat
                        } else {
                            0nat
                        }));
                    }
                }
            }
            i = i + 1;
        }
        proof {
            assert(contents@.take(contents@.len() as int) =~= contents@);
            lemma_pos_total_take_le(contents@, contents@.len() as int);
        }
        let ghost off_view = offered@;
        let ghost req_view = requested@;
        let offer = EmojisWithCounts::new(offered);
        let request = EmojisWithCounts::new(requested);
        proof {
            assert forall|i2: int|
                0 <= i2 < request.entries().len() implies exists|j: int|
                0 <= j < contents@.len() && (#[trigger] request.entries()[i2]).0 == (
                #[trigger] contents@[j]).0 by {
                let k = choose|k: int|
                    0 <= k < req_view.len() && (#[trigger] request.entries()[i2]).0 == (
                    #[trigger] req_view[k]).0;
                let j = choose|j: int|
                    0 <= j < contents@.len() && (#[trigger] req_view[k]).0 == (
                    #[trigger] contents@[j]).0;
                assert(request.entries()[i2].0 == contents@[j].0);
            }
            assert forall|i2: int|
                0 <= i2 < offer.entries().len() implies exists|j: int|
                0 <= j < contents@.len() && (#[trigger] offer.entries()[i2]).0 == (
                #[trigger] contents@[j]).0 by {
                let k = choose|k: int|
                    0 <= k < off_view.len() && (#[trigger] offer.entries()[i2]).0 == (
                    #[trigger] off_view[k]).0;
                let j = choose|j: int|
                    0 <= j < contents@.len() && (#[trigger] off_view[k]).0 == (
                    #[trigger] contents@[j]).0;
                assert(offer.entries()[i2].0 == contents@[j].0);
            }
        }
        TradeOffer { offering_user: user, target: Counterparty::User(target_user), offer, request }
    }

    /// Builds the unilateral exchange recycling performs: the given tokens
    /// are offered to the game itself, and one random catalog token not among
    /// them is requested in return.
    pub fn new_recycling(user: u64, offer: EmojisWithCounts, catalog: &crate::emoji::EmojiMap)
        -> (r: TradeOffer)
        requires
            offer.wf(),
            offer.entries().len() <= 3,
            catalog.wf(),
            catalog.entries().len() >= 4,
        ensures
            r.offering() == user,
            r.target_of() == Counterparty::System,
            r.offer_ms() == offer,
            r.request_ms().wf(),
            r.request_ms().entries().len() == 1,
            r.request_ms().total() == 1,
            0 <= r.request_ms().entries()[0].0.idx() < catalog.entries().len(),
            offer.count_of(r.request_ms().entries()[0].0.idx()) == 0,
            r.wf(),
    {
        let random_emoji = random_emoji_avoiding(&offer, catalog);
        let mut entries: Vec<(Emoji, u32)> = Vec::new();
        entries.push((random_emoji, 1u32));
        proof {
            assert(entries@.drop_last() =~= Seq::<(Emoji, u32)>::empty());
            assert(entries@.last() == (random_emoji, 1u32));
            assert(crate::emojis_with_counts::total_in(Seq::<(Emoji, u32)>::empty()) == 0);
            assert(crate::emojis_with_counts::total_in(entries@) == 1);
        }
        let ghost entries_view = entries@;
        let request = EmojisWithCounts::new(entries);
        proof {
            assert(request.entries().len() == 1) by {
                if request.entries().len() == 0 {
                    assert(request.total() == 0);
                }
                if request.entries().len() >= 2 {
                    crate::emojis_with_counts::lemma_total_take_le(request.entries(), 2);
                    assert(request.entries().take(2).drop_last() =~= request.entries().take(1));
                    assert(request.entries().take(1).drop_last() =~= request.entries().take(0));
                    assert(request.entries().take(0) =~= Seq::<(Emoji, u32)>::empty());
                    assert(crate::emojis_with_counts::total_in(Seq::<(Emoji, u32)>::empty()) == 0);
                    assert(crate::emojis_with_counts::total_in(request.entries().take(1))
                        == request.entries()[0].1);
                    assert(request.entries().take(2).last() == request.entries()[1]);
                    assert(crate::emojis_with_counts::total_in(request.entries().take(2))
                        == request.entries()[0].1 + request.entries()[1].1);
                    assert(crate::emojis_with_counts::total_in(request.entries().take(2)) >= 2);
                }
            }
            assert(request.entries()[0].0.idx() == random_emoji.idx()) by {
                crate::emojis_with_counts::lemma_unique_entry_count(request.entries(), 0);
                if request.entries()[0].0.idx() != random_emoji.idx() {
                    assert(request.count_of(request.entries()[0].0.idx()) == count_in(
                        entries_view,
                        request.entries()[0].0.idx(),
                    ));
                    crate::emojis_with_counts::lemma_count_absent(
                        entries_view,
                        request.entries()[0].0.idx(),
                    );
                }
            }
            assert forall|e: int| !(offer.has(e) && request.has(e)) by {
                if request.count_of(e) > 0 {
                    crate::emojis_with_counts::lemma_count_pos_entry(request.entries(), e);
                }
            }
        }
        TradeOffer { offering_user: user, target: Counterparty::System, offer, request }
    }

    /// The first requested emoji: for a recycling exchange, the payout.
    pub fn recycling_emoji(&self) -> (r: Emoji)
        requires
            self.request_ms().entries().len() > 0,
        ensures
            r == self.request_ms().entries()[0].0,
    {
        self.request.iter()[0].0
    }

    pub fn offering_user(&self) -> (r: u64)
        ensures
            r == self.offering(),
    {
        self.offering_user
    }

    pub fn target_user(&self) -> (r: Counterparty)
        ensures
            r == self.target_of(),
    {
        self.target
    }

    pub fn offer(&self) -> (r: &EmojisWithCounts)
        ensures
            r == self.offer_ms(),
    {
        &self.offer
    }

    pub fn request(&self) -> (r: &EmojisWithCounts)
        ensures
            r == self.request_ms(),
    {
        &self.request
    }

    /// The single signed entry list the store keeps: positive counts for the
    /// requested side, negative for the offered side.
    pub fn to_database_format(&self) -> (r: Vec<(Emoji, i64)>)
        ensures
            r@.len() == self.request_ms().entries().len() + self.offer_ms().entries().len(),
            forall|i: int|
                0 <= i < self.request_ms().entries().len() ==> #[trigger] r@[i] == (
                    self.request_ms().entries()[i].0,
                    self.request_ms().entries()[i].1 as i64,
                ),
            forall|i: int|
                0 <= i < self.offer_ms().entries().len() ==> #[trigger] r@[self.request_ms().entries().len() + i]
                    == (self.offer_ms().entries()[i].0, (-(self.offer_ms().entries()[i].1 as int)) as i64),
    {
        let mut r: Vec<(Emoji, i64)> = Vec::new();
        let req = self.request.iter();
        let mut i: usize = 0;
        while i < req.len()
            invariant
                i <= self.request_ms().entries().len(),
                req@ == self.request_ms().entries(),
                r@.len() == i,
                forall|k: int|
                    0 <= k < i ==> #[trigger] r@[k] == (
                        self.request_ms().entries()[k].0,
                        self.request_ms().entries()[k].1 as i64,
                    ),
            decreases req@.len() - i,
        {
            let (e, c) = req[i];
            r.push((e, c as i64));
            i = i + 1;
        }
        let off = self.offer.iter();
        let mut k: usize = 0;
        while k < off.len()
            invariant
                k <= self.offer_ms().entries().len(),
                off@ == self.offer_ms().entries(),
                r@.len() == self.request_ms().entries().len() + k,
                forall|m: int|
                    0 <= m < self.request_ms().entries().len() ==> #[trigger] r@[m] == (
                        self.request_ms().entries()[m].0,
                        self.request_ms().entries()[m].1 as i64,
                    ),
                forall|m: int|
                    0 <= m < k ==> #[trigger] r@[self.request_ms().entries().len() + m] == (
                        self.offer_ms().entries()[m].0,
                        (-(self.offer_ms().entries()[m].1 as int)) as i64,
                    ),
            decreases off@.len() - k,
        {
            let (e, c) = off[k];
            let signed: i64 = -(c as i64);
            r.push((e, signed));
            k = k + 1;
        }
        r
    }

    /// Whether two offers name the same users and exactly the same entries on
    /// both sides.
    pub fn equals(&self, other: &TradeOffer) -> (r: bool)
        ensures
            r == (self.offering() == other.offering() && self.target_of() == other.target_of()
                && entries_equiv(self.offer_ms().entries(), other.offer_ms().entries())
                && entries_equiv(self.request_ms().entries(), other.request_ms().entries())),
    {
        self.offering_user == other.offering_user && self.target == other.target
            && self.offer.equals(&other.offer) && self.request.equals(&other.request)
    }

    /// An identical copy, entry for entry.
    pub fn duplicate(&self) -> (r: TradeOffer)
        ensures
            r.offering() == self.offering(),
            r.target_of() == self.target_of(),
            r.offer_ms().entries() == self.offer_ms().entries(),
            r.request_ms().entries() == self.request_ms().entries(),
    {
        TradeOffer {
            offering_user: self.offering_user,
            target: self.target,
            offer: self.offer.duplicate(),
            request: self.request.duplicate(),
        }
    }
}

/// The total the requested side of a signed entry list comes to.
pub open spec fn pos_total_in(s: Seq<(Emoji, i64)>) -> nat
    decreases s.len(),
{
    if s.len() == 0 {
        0
    } else {
        pos_total_in(s.drop_last()) + if s.last().1 > 0 {
            s.last().1 as nat
        } else {
            0nat
        }
    }
}

/// The total the offered side of a signed entry list comes to.
pub open spec fn neg_total_in(s: Seq<(Emoji, i64)>) -> nat
    decreases s.len(),
{
    if s.len() == 0 {
        0
    } else {
        neg_total_in(s.drop_last()) + if s.last().1 <= 0 {
            (-s.last().1) as nat
        } else {
            0nat
        }
    }
}

pub proof fn lemma_pos_total_take_le(s: Seq<(Emoji, i64)>, i: int)
    requires
        0 <= i <= s.len(),
    ensures
        pos_total_in(s.take(i)) <= pos_total_in(s),
        neg_total_in(s.take(i)) <= neg_total_in(s),
    decreases s.len(),
{
    if i == s.len() {
        assert(s.take(i) =~= s);
    } else {
        assert(s.take(i) =~= s.drop_last().take(i));
        lemma_pos_total_take_le(s.drop_last(), i);
    }
}

/// A uniformly chosen catalog token whose ordinal does not occur in the small
/// multiset `excluded`: the draw starts at a random ordinal and walks forward
/// past excluded ones.
/// How many entries of a sorted excluded list name ordinals inside the
/// catalog range.
pub open spec fn short_count(s: Seq<(Emoji, u32)>, n: int) -> nat
    decreases s.len(),
{
    if s.len() == 0 {
        0
    } else {
        short_count(s.drop_last(), n) + if s.last().0.idx() < n {
            1nat
        } else {
            0nat
        }
    }
}

/// A prefix never counts more in-range ordinals than the whole list.
pub proof fn lemma_short_count_take_le(s: Seq<(Emoji, u32)>, i: int, n: int)
    requires
        0 <= i <= s.len(),
    ensures
        short_count(s.take(i), n) <= short_count(s, n),
    decreases s.len(),
{
    if i == s.len() {
        assert(s.take(i) =~= s);
    } else {
        assert(s.take(i) =~= s.drop_last().take(i));
        lemma_short_count_take_le(s.drop_last(), i, n);
    }
}

/// A uniformly chosen catalog token whose ordinal does not occur in the small
/// multiset `excluded`: a uniform draw over the non-excluded ordinals, found
/// by shifting the drawn rank past each excluded ordinal in ascending order.
pub(crate) fn random_emoji_avoiding(
    excluded: &EmojisWithCounts,
    catalog: &crate::emoji::EmojiMap,
) -> (r: Emoji)
    requires
        excluded.wf(),
        excluded.entries().len() <= 3,
        catalog.wf(),
        catalog.entries().len() >= 4,
    ensures
        0 <= r.idx() < catalog.entries().len(),
        excluded.count_of(r.idx()) == 0,
{
    let n = catalog_len(catalog);
    let entries = excluded.iter();
    proof {
        assert(excluded.entries().take(0) =~= Seq::<(Emoji, u32)>::empty());
    }
    // how many excluded ordinals lie inside the catalog range
    let mut k: usize = 0;
    let mut i: usize = 0;
    while i < entries.len()
        invariant
            i <= excluded.entries().len(),
            entries@ == excluded.entries(),
            k <= i,
            k == short_count(excluded.entries().take(i as int), n as int),
        decreases entries@.len() - i,
    {
        proof {
            assert(excluded.entries().take(i + 1).drop_last() =~= excluded.entries().take(
                i as int,
            ));
            assert(excluded.entries().take(i + 1).last() == excluded.entries()[i as int]);
        }
        if entries[i].0.index() < n {
            k = k + 1;
        }
        i = i + 1;
    }
    proof {
        assert(excluded.entries().take(excluded.entries().len() as int) =~= excluded.entries());
    }
    // draw a rank among the non-excluded ordinals
    let m = crate::emoji::random_below(n - k);
    let mut c = m;
    let mut i2: usize = 0;
    let ghost mut bumping = true;
    while i2 < entries.len()
        invariant
            i2 <= excluded.entries().len(),
            entries@ == excluded.entries(),
            excluded.wf(),
            n == catalog.entries().len(),
            c + (short_count(excluded.entries(), n as int) - short_count(
                excluded.entries().take(i2 as int),
                n as int,
            )) < n,
            short_count(excluded.entries().take(i2 as int), n as int) <= short_count(
                excluded.entries(),
                n as int,
            ),
            bumping ==> forall|j: int|
                0 <= j < i2 ==> (#[trigger] excluded.entries()[j]).0.idx() < c,
            !bumping ==> (forall|j: int|
                0 <= j < i2 ==> (#[trigger] excluded.entries()[j]).0.idx() != c) && (forall|
                j: int,
            |
                i2 <= j < excluded.entries().len() ==> (#[trigger] excluded.entries()[j]).0.idx()
                    > c),
        decreases entries@.len() - i2,
    {
        let idx_i = entries[i2].0.index();
        proof {
            assert(excluded.entries().take(i2 + 1).drop_last() =~= excluded.entries().take(
                i2 as int,
            ));
            assert(excluded.entries().take(i2 + 1).last() == excluded.entries()[i2 as int]);
            lemma_short_count_take_le(excluded.entries(), i2 + 1, n as int);
        }
        if idx_i <= c {
            proof {
                assert(bumping);
                assert(idx_i < n);
            }
            c = c + 1;
        } else {
            proof {
                if bumping {
                    bumping = false;
                    assert forall|j: int|
                        i2 + 1 <= j < excluded.entries().len() implies (
                    #[trigger] excluded.entries()[j]).0.idx() > c by {
                        assert(excluded.entries()[i2 as int].0.idx()
                            < excluded.entries()[j].0.idx());
                    }
                }
            }
        }
        i2 = i2 + 1;
    }
    proof {
        assert(excluded.entries().take(excluded.entries().len() as int) =~= excluded.entries());
        assert(c < n);
        assert forall|j: int|
            0 <= j < excluded.entries().len() implies (
        #[trigger] excluded.entries()[j]).0.idx() != c by {}
        crate::emojis_with_counts::lemma_count_absent(excluded.entries(), c as int);
    }
    catalog.entry_at(c)
}

/// The number of catalog entries.
fn catalog_len(catalog: &crate::emoji::EmojiMap) -> (r: usize)
    ensures
        r == catalog.entries().len(),
{
    catalog.len()
}


} // verus!
