use emoji_ledger::ConfirmTradeError;
use emoji_ledger::ConfirmationOutcome;
use emoji_ledger::ConfirmationResponse;
use emoji_ledger::Counterparty;
use emoji_ledger::Emoji;
use emoji_ledger::EmojisWithCounts;
use emoji_ledger::LedgerState;
use emoji_ledger::RecycleError;
use emoji_ledger::TradeError;
use emoji_ledger::has_trading_role;

fn apple() -> Emoji {
    Emoji::new("🍎", 10)
}

fn orange() -> Emoji {
    Emoji::new("🍊", 11)
}

fn pear() -> Emoji {
    Emoji::new("🍐", 12)
}

fn multiset(entries: Vec<(Emoji, u32)>) -> EmojisWithCounts {
    EmojisWithCounts::new(entries)
}

#[test]
fn offer_precondition_failures_in_order() {
    let mut ledger = LedgerState::new();
    ledger.grant(1, apple());
    let one_apple = || multiset(vec![(apple(), 1)]);
    let one_orange = || multiset(vec![(orange(), 1)]);
    assert_eq!(
        ledger.try_offer_trade(1, 1, one_apple(), one_orange()),
        Err(TradeError::SelfTrade)
    );
    assert_eq!(
        ledger.try_offer_trade(1, 2, multiset(vec![]), one_orange()),
        Err(TradeError::OfferEmpty)
    );
    assert_eq!(
        ledger.try_offer_trade(1, 2, one_apple(), multiset(vec![])),
        Err(TradeError::RequestEmpty)
    );
    // a token on both sides of the trade is rejected, whatever its counts
    assert_eq!(
        ledger.try_offer_trade(1, 2, one_apple(), multiset(vec![(apple(), 2)])),
        Err(TradeError::OverlappingSides)
    );
    assert_eq!(
        ledger.try_offer_trade(1, 2, multiset(vec![(apple(), 2)]), one_orange()),
        Err(TradeError::OffererLacksEmojis)
    );
    assert_eq!(ledger.try_offer_trade(1, 2, one_apple(), one_orange()), Ok(()));
    assert!(ledger.does_trade_offer_exist(1, 2));
    // a second offer to the same target is rejected, not overwritten
    assert_eq!(
        ledger.try_offer_trade(1, 2, one_apple(), one_orange()),
        Err(TradeError::OfferAlreadyExists)
    );
}

#[test]
fn withdraw_and_reject_offers() {
    let mut ledger = LedgerState::new();
    ledger.grant(1, apple());
    assert_eq!(
        ledger.try_cancel_offer(1, 2),
        Err(TradeError::NoSuchOffer)
    );
    ledger
        .try_offer_trade(1, 2, multiset(vec![(apple(), 1)]), multiset(vec![(orange(), 1)]))
        .unwrap();
    assert_eq!(ledger.try_cancel_offer(1, 2), Ok(()));
    assert!(!ledger.does_trade_offer_exist(1, 2));
    ledger
        .try_offer_trade(1, 2, multiset(vec![(apple(), 1)]), multiset(vec![(orange(), 1)]))
        .unwrap();
    assert_eq!(ledger.try_reject_offer(2, 1), Ok(()));
    assert!(!ledger.does_trade_offer_exist(1, 2));
    assert_eq!(ledger.try_reject_offer(2, 1), Err(TradeError::NoSuchOffer));
}

#[test]
fn confirmed_trade_settles_atomically() {
    let mut ledger = LedgerState::new();
    ledger.grant(1, apple());
    ledger.grant(2, orange());
    ledger.grant(2, orange());
    ledger
        .try_offer_trade(
            1,
            2,
            multiset(vec![(apple(), 1)]),
            multiset(vec![(orange(), 2)]),
        )
        .unwrap();
    let confirmed_copy = ledger.get_trade_offer(1, 2).unwrap();
    let outcome = ledger.respond_to_confirmation(&confirmed_copy, ConfirmationResponse::Confirmed);
    assert_eq!(outcome, ConfirmationOutcome::Settled);
    // the trade is zero-sum and the offer is gone
    assert_eq!(ledger.count_of_user(1, 10), 0);
    assert_eq!(ledger.count_of_user(1, 11), 2);
    assert_eq!(ledger.count_of_user(2, 10), 1);
    assert_eq!(ledger.count_of_user(2, 11), 0);
    assert!(!ledger.does_trade_offer_exist(1, 2));
    // the settlement was logged with the real counterparty
    assert_eq!(ledger.log.len(), 1);
    assert_eq!(ledger.log[0].initiating_user, 1);
    assert_eq!(ledger.log[0].recipient, Counterparty::User(2));
}

#[test]
fn timeout_and_decline_change_nothing() {
    let mut ledger = LedgerState::new();
    ledger.grant(1, apple());
    ledger.grant(2, orange());
    ledger
        .try_offer_trade(1, 2, multiset(vec![(apple(), 1)]), multiset(vec![(orange(), 1)]))
        .unwrap();
    let copy = ledger.get_trade_offer(1, 2).unwrap();
    let outcome = ledger.respond_to_confirmation(&copy, ConfirmationResponse::TimedOut);
    assert_eq!(outcome, ConfirmationOutcome::TimedOut);
    // no ledger mutation: the offer is still there, byte for byte
    assert!(ledger.does_trade_offer_exist(1, 2));
    let still_there = ledger.get_trade_offer(1, 2).unwrap();
    assert!(still_there.equals(&copy));
    assert_eq!(ledger.count_of_user(1, 10), 1);
    assert_eq!(ledger.count_of_user(2, 11), 1);
    let outcome = ledger.respond_to_confirmation(&copy, ConfirmationResponse::Declined);
    assert_eq!(outcome, ConfirmationOutcome::Declined);
    assert!(ledger.does_trade_offer_exist(1, 2));
}

#[test]
fn settlement_detects_target_losing_the_requested_tokens() {
    // A offers an apple for B's two oranges; meanwhile B trades one orange
    // away to C.  When A's trade is then confirmed, the system must see that
    // B no longer holds both oranges and reject it, leaving the ledgers as
    // only the B-C trade made them.
    let mut ledger = LedgerState::new();
    let a = 1u64;
    let b = 2u64;
    let c = 3u64;
    ledger.grant(a, apple());
    ledger.grant(b, orange());
    ledger.grant(b, orange());
    ledger.grant(c, pear());
    ledger
        .try_offer_trade(a, b, multiset(vec![(apple(), 1)]), multiset(vec![(orange(), 2)]))
        .unwrap();
    let a_trade_copy = ledger.get_trade_offer(a, b).unwrap();
    // the concurrent B-C trade settles first
    ledger
        .try_offer_trade(b, c, multiset(vec![(orange(), 1)]), multiset(vec![(pear(), 1)]))
        .unwrap();
    let bc_copy = ledger.get_trade_offer(b, c).unwrap();
    assert_eq!(ledger.try_confirm_trade(&bc_copy), Ok(()));
    // now B's acceptance of A's offer must fail the re-validation
    assert_eq!(
        ledger.try_confirm_trade(&a_trade_copy),
        Err(ConfirmTradeError::TargetLacksEmojis)
    );
    // only the B-C trade affected the ledgers
    assert_eq!(ledger.count_of_user(a, 10), 1);
    assert_eq!(ledger.count_of_user(b, 11), 1);
    assert_eq!(ledger.count_of_user(b, 12), 1);
    assert_eq!(ledger.count_of_user(c, 11), 1);
    assert_eq!(ledger.count_of_user(c, 12), 0);
}

#[test]
fn changed_offer_cancels_the_confirmed_trade() {
    let mut ledger = LedgerState::new();
    ledger.grant(1, apple());
    ledger.grant(1, pear());
    ledger.grant(2, orange());
    ledger
        .try_offer_trade(1, 2, multiset(vec![(apple(), 1)]), multiset(vec![(orange(), 1)]))
        .unwrap();
    let stale_copy = ledger.get_trade_offer(1, 2).unwrap();
    // the offerer replaces the offer during the confirmation window
    ledger.try_cancel_offer(1, 2).unwrap();
    ledger
        .try_offer_trade(1, 2, multiset(vec![(pear(), 1)]), multiset(vec![(orange(), 1)]))
        .unwrap();
    assert_eq!(
        ledger.try_confirm_trade(&stale_copy),
        Err(ConfirmTradeError::OfferChanged)
    );
    // nothing was traded
    assert_eq!(ledger.count_of_user(1, 10), 1);
    assert_eq!(ledger.count_of_user(2, 11), 1);
}

#[test]
fn settlement_sweeps_starved_offers() {
    // user 1 promises the same apple to two targets; settling one trade
    // deletes the other, now unfulfillable, offer, while offers that stay
    // backed and offers of uninvolved users survive
    let mut ledger = LedgerState::new();
    ledger.grant(1, apple());
    ledger.grant(1, pear());
    ledger.grant(2, orange());
    ledger.grant(3, pear());
    ledger.grant(4, pear());
    ledger
        .try_offer_trade(1, 2, multiset(vec![(apple(), 1)]), multiset(vec![(orange(), 1)]))
        .unwrap();
    ledger
        .try_offer_trade(1, 3, multiset(vec![(apple(), 1)]), multiset(vec![(pear(), 1)]))
        .unwrap();
    // this offer of user 1 stays backed by the pear and must survive
    ledger
        .try_offer_trade(1, 4, multiset(vec![(pear(), 1)]), multiset(vec![(orange(), 1)]))
        .unwrap();
    // an uninvolved user's offer must survive untouched
    ledger
        .try_offer_trade(4, 3, multiset(vec![(pear(), 1)]), multiset(vec![(apple(), 1)]))
        .unwrap();
    let copy = ledger.get_trade_offer(1, 2).unwrap();
    assert_eq!(ledger.try_confirm_trade(&copy), Ok(()));
    assert!(!ledger.does_trade_offer_exist(1, 3));
    assert!(ledger.does_trade_offer_exist(1, 4));
    assert!(ledger.does_trade_offer_exist(4, 3));
}

#[test]
fn view_offers_lists_exactly_the_users_offers() {
    let mut ledger = LedgerState::new();
    ledger.grant(1, apple());
    ledger.grant(2, orange());
    ledger.grant(3, pear());
    ledger
        .try_offer_trade(1, 2, multiset(vec![(apple(), 1)]), multiset(vec![(orange(), 1)]))
        .unwrap();
    ledger
        .try_offer_trade(3, 1, multiset(vec![(pear(), 1)]), multiset(vec![(apple(), 1)]))
        .unwrap();
    let (outgoing, incoming) = ledger.view_offers(1);
    assert_eq!(outgoing.len(), 1);
    assert_eq!(outgoing[0].offering_user(), 1);
    assert_eq!(outgoing[0].target_user(), Counterparty::User(2));
    assert_eq!(outgoing[0].offer().emoji_count(), 1);
    assert_eq!(incoming.len(), 1);
    assert_eq!(incoming[0].offering_user(), 3);
    assert_eq!(incoming[0].target_user(), Counterparty::User(1));
    let (none_out, none_in) = ledger.view_offers(2);
    assert_eq!(none_out.len(), 0);
    assert_eq!(none_in.len(), 1);
}

fn catalog() -> emoji_ledger::EmojiMap {
    // the apple sits at its ledger ordinal so consumed tokens map to entries
    let mut names: Vec<&'static str> = vec!["😀"; 10];
    names.push("🍎");
    names.push("🍊");
    names.push("🍐");
    emoji_ledger::make_emoji_map(&names)
}

#[test]
fn recycle_exchanges_three_for_one() {
    let mut ledger = LedgerState::new();
    ledger.grant(1, apple());
    ledger.grant(1, apple());
    ledger.grant(1, apple());
    // wrong arity is rejected before any mutation
    assert_eq!(
        ledger.recycle(&catalog(), 1, multiset(vec![(apple(), 2)])).unwrap_err(),
        RecycleError::WrongArity
    );
    assert_eq!(ledger.count_of_user(1, 10), 3);
    // tokens the user does not own are rejected before any mutation
    assert_eq!(
        ledger.recycle(&catalog(), 1, multiset(vec![(orange(), 3)])).unwrap_err(),
        RecycleError::NotOwned
    );
    let payout = ledger.recycle(&catalog(), 1, multiset(vec![(apple(), 3)])).unwrap();
    // the payout is never one of the consumed tokens
    assert_ne!(payout.index(), 10);
    assert!(payout.index() < 13);
    assert_eq!(ledger.count_of_user(1, 10), 0);
    assert_eq!(ledger.count_of_user(1, payout.index()), 1);
    // logged like a trade, against the game itself
    assert_eq!(ledger.log.len(), 1);
    assert_eq!(ledger.log[0].initiating_user, 1);
    assert_eq!(ledger.log[0].recipient, Counterparty::System);
}

#[test]
fn recycle_invalidates_own_starved_offers() {
    let mut ledger = LedgerState::new();
    ledger.grant(1, apple());
    ledger.grant(1, apple());
    ledger.grant(1, apple());
    ledger.grant(2, orange());
    ledger
        .try_offer_trade(1, 2, multiset(vec![(apple(), 3)]), multiset(vec![(orange(), 1)]))
        .unwrap();
    ledger.recycle(&catalog(), 1, multiset(vec![(apple(), 3)])).unwrap();
    assert!(!ledger.does_trade_offer_exist(1, 2));
}

#[test]
fn trading_role_check() {
    let member = vec![5u64, 9u64];
    let allowed = vec![9u64, 12u64];
    assert!(has_trading_role(&member, &allowed));
    let member2 = vec![5u64];
    assert!(!has_trading_role(&member2, &allowed));
    assert!(!has_trading_role(&Vec::new(), &allowed));
}

#[test]
fn database_format_round_trip() {
    let offered = multiset(vec![(apple(), 2)]);
    let requested = multiset(vec![(orange(), 1), (pear(), 3)]);
    let offer = emoji_ledger::TradeOffer::new(1, 2, offered, requested).unwrap();
    let signed = offer.to_database_format();
    // requested counts positive, offered counts negative
    assert_eq!(signed.len(), 3);
    assert_eq!((signed[0].0.index(), signed[0].1), (11, 1));
    assert_eq!((signed[1].0.index(), signed[1].1), (12, 3));
    assert_eq!((signed[2].0.index(), signed[2].1), (10, -2));
    let rebuilt = emoji_ledger::TradeOffer::from_database(1, 2, signed);
    assert!(rebuilt.equals(&offer));
}

#[test]
fn offer_on_both_sides_is_rejected_by_the_constructor() {
    let offered = multiset(vec![(apple(), 1), (orange(), 1)]);
    let requested = multiset(vec![(orange(), 2)]);
    assert!(emoji_ledger::TradeOffer::new(1, 2, offered, requested).is_err());
    let offered = multiset(vec![(apple(), 1)]);
    let requested = multiset(vec![(orange(), 2)]);
    assert!(emoji_ledger::TradeOffer::new(1, 2, offered, requested).is_ok());
}
