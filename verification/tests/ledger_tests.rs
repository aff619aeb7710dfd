use emoji_ledger::Emoji;
use emoji_ledger::EmojisWithCounts;
use emoji_ledger::LedgerState;
use emoji_ledger::RenameGroupError;
use emoji_ledger::RepositionOutcome;

fn apple() -> Emoji {
    Emoji::new("🍎", 10)
}

fn orange() -> Emoji {
    Emoji::new("🍊", 11)
}

fn pear() -> Emoji {
    Emoji::new("🍐", 12)
}

fn multiset(entries: Vec<(Emoji, u32)>) -> EmojisWithCounts {
    EmojisWithCounts::new(entries)
}

#[test]
fn grant_and_query() {
    let mut ledger = LedgerState::new();
    ledger.grant(1, apple());
    ledger.grant(1, apple());
    ledger.grant(1, orange());
    assert_eq!(ledger.count_of_user(1, 10), 2);
    assert_eq!(ledger.count_of_user(1, 11), 1);
    assert_eq!(ledger.count_of_user(2, 10), 0);
    let q = ledger.query(1);
    assert_eq!(q.emoji_count(), 3);
    assert!(ledger.has_at_least(1, &multiset(vec![(apple(), 2)])));
    assert!(!ledger.has_at_least(1, &multiset(vec![(apple(), 3)])));
}

#[test]
fn transfer_moves_exact_counts() {
    let mut ledger = LedgerState::new();
    ledger.grant(1, apple());
    ledger.grant(1, apple());
    ledger.transfer(1, 2, &multiset(vec![(apple(), 1)]));
    assert_eq!(ledger.count_of_user(1, 10), 1);
    assert_eq!(ledger.count_of_user(2, 10), 1);
}

#[test]
fn group_round_trip() {
    let mut ledger = LedgerState::new();
    ledger.grant(1, apple());
    ledger.grant(1, apple());
    let x = multiset(vec![(apple(), 2)]);
    let (name, added, is_new) = ledger.add_to_group(1, "G", &x);
    assert_eq!(name, "G");
    assert!(is_new);
    assert!(added.equals(&x));
    let removed = ledger.remove_from_group(1, &x, Some("G"));
    assert!(removed.equals(&x));
    // the emptied group ceases to exist
    assert!(ledger.group_name_and_contents(1, "G").is_none());
    // ownership was never affected
    assert_eq!(ledger.count_of_user(1, 10), 2);
}

#[test]
fn add_to_group_is_case_insensitive_merge() {
    let mut ledger = LedgerState::new();
    ledger.grant(1, apple());
    ledger.grant(1, orange());
    let (name, added, is_new) = ledger.add_to_group(1, "Fruit", &multiset(vec![(apple(), 1)]));
    assert_eq!(name, "Fruit");
    assert!(is_new);
    assert_eq!(added.emoji_count(), 1);
    let (name2, added2, is_new2) = ledger.add_to_group(1, "fruit", &multiset(vec![(orange(), 1)]));
    assert_eq!(name2, "Fruit");
    assert!(!is_new2);
    assert_eq!(added2.emoji_count(), 1);
    let (groups, ungrouped) = ledger.list_groups(1);
    assert_eq!(groups.len(), 1);
    assert_eq!(groups[0].0, "Fruit");
    assert_eq!(groups[0].1, 2);
    assert_eq!(ungrouped, 0);
}

#[test]
fn add_to_group_reports_partial_success() {
    let mut ledger = LedgerState::new();
    ledger.grant(1, apple());
    // asking for three apples when only one is owned moves just the one
    let (_, added, _) = ledger.add_to_group(1, "G", &multiset(vec![(apple(), 3)]));
    assert_eq!(added.emoji_count(), 1);
    // asking for tokens the user lacks entirely adds nothing, and the fresh
    // group is swept away at once
    let (_, added2, _) = ledger.add_to_group(1, "H", &multiset(vec![(orange(), 1)]));
    assert!(added2.is_empty());
    assert!(ledger.group_name_and_contents(1, "H").is_none());
}

#[test]
fn rename_group_failures_are_distinct() {
    let mut ledger = LedgerState::new();
    ledger.grant(1, apple());
    ledger.grant(1, orange());
    ledger.add_to_group(1, "A", &multiset(vec![(apple(), 1)]));
    ledger.add_to_group(1, "B", &multiset(vec![(orange(), 1)]));
    assert_eq!(
        ledger.rename_group(1, "missing", "C"),
        Err(RenameGroupError::NoSuchGroup)
    );
    assert_eq!(
        ledger.rename_group(1, "A", "b"),
        Err(RenameGroupError::NameTaken(String::from("B")))
    );
    assert_eq!(ledger.rename_group(1, "A", "Apples"), Ok(String::from("A")));
    // renaming a group to another casing of its own name is allowed
    assert_eq!(
        ledger.rename_group(1, "apples", "APPLES"),
        Ok(String::from("Apples"))
    );
}

#[test]
fn reposition_group_outcomes() {
    let mut ledger = LedgerState::new();
    ledger.grant(1, apple());
    ledger.grant(1, orange());
    ledger.grant(1, pear());
    ledger.add_to_group(1, "A", &multiset(vec![(apple(), 1)]));
    ledger.add_to_group(1, "B", &multiset(vec![(orange(), 1)]));
    ledger.add_to_group(1, "C", &multiset(vec![(pear(), 1)]));
    // move C to the front
    let (name, outcome, old_pos, count) = ledger.reposition_group(1, "C", 0).unwrap();
    assert_eq!(name, "C");
    assert_eq!(outcome, RepositionOutcome::MovedToFront);
    assert_eq!(old_pos, 2);
    assert_eq!(count, 3);
    // ranks stay dense: the order is now C, A, B
    let (groups, _) = ledger.list_groups(1);
    assert_eq!(groups[0].0, "C");
    assert_eq!(groups[1].0, "A");
    assert_eq!(groups[2].0, "B");
    // a huge target rank clamps to the end
    let (_, outcome, _, _) = ledger.reposition_group(1, "C", 99).unwrap();
    assert_eq!(outcome, RepositionOutcome::MovedToBack);
    // moving between two groups names the neighbours
    let (_, outcome, _, _) = ledger.reposition_group(1, "C", 1).unwrap();
    assert_eq!(
        outcome,
        RepositionOutcome::MovedBetween(String::from("A"), String::from("B"))
    );
    // moving a group onto its own rank does nothing
    let (_, outcome, _, _) = ledger.reposition_group(1, "C", 1).unwrap();
    assert_eq!(outcome, RepositionOutcome::DidNotMove);
    assert!(ledger.reposition_group(1, "missing", 0).is_err());
}

#[test]
fn remove_from_any_group_takes_only_tagged_units() {
    let mut ledger = LedgerState::new();
    ledger.grant(1, apple());
    ledger.grant(1, apple());
    ledger.add_to_group(1, "G", &multiset(vec![(apple(), 1)]));
    // one apple grouped, one ungrouped; removing one from "any group" takes
    // the group-tagged copy, so the emptied group is deleted
    let removed = ledger.remove_from_group(1, &multiset(vec![(apple(), 1)]), None);
    assert_eq!(removed.emoji_count(), 1);
    assert!(ledger.group_name_and_contents(1, "G").is_none());
    assert_eq!(ledger.get_ungrouped_emojis(1).emoji_count(), 2);
    // asking for more only untags what groups actually hold
    ledger.add_to_group(1, "H", &multiset(vec![(apple(), 1)]));
    let removed = ledger.remove_from_group(1, &multiset(vec![(apple(), 2)]), None);
    assert_eq!(removed.emoji_count(), 1);
    assert_eq!(ledger.count_of_user(1, 10), 2);
}

#[test]
fn grouped_query_lists_groups_in_rank_order() {
    let mut ledger = LedgerState::new();
    ledger.grant(1, apple());
    ledger.grant(1, orange());
    ledger.grant(1, pear());
    ledger.add_to_group(1, "A", &multiset(vec![(apple(), 1)]));
    ledger.add_to_group(1, "B", &multiset(vec![(orange(), 1)]));
    let (groups, ungrouped) = ledger.get_user_emojis_grouped(1);
    assert_eq!(groups.len(), 2);
    assert_eq!(groups[0].0, "A");
    assert_eq!(groups[1].0, "B");
    assert_eq!(ungrouped.unwrap().emoji_count(), 1);
    let ungrouped_only = ledger.get_ungrouped_emojis(1);
    assert_eq!(ungrouped_only.emoji_count(), 1);
}

#[test]
fn privacy_flag_toggles() {
    let mut ledger = LedgerState::new();
    assert!(!ledger.is_private(1));
    assert!(ledger.toggle_private(1));
    assert!(ledger.is_private(1));
    assert!(!ledger.toggle_private(1));
    assert!(!ledger.is_private(1));
}

#[test]
fn find_emoji_users_respects_privacy() {
    let mut ledger = LedgerState::new();
    ledger.grant(1, apple());
    ledger.grant(2, apple());
    ledger.grant(2, apple());
    ledger.toggle_private(2);
    let users = ledger.find_emoji_users(apple());
    assert_eq!(users.len(), 1);
    assert_eq!(users[0], (1, 1));
}

#[test]
fn periodic_reward_granted_once_per_period() {
    let catalog = emoji_ledger::make_emoji_map(&vec!["😀", "😃", "🍎", "🍊"]);
    let mut ledger = LedgerState::new();
    let first = ledger.maybe_give_periodic_emoji(&catalog, 1, 7);
    assert!(first.is_some());
    let again = ledger.maybe_give_periodic_emoji(&catalog, 1, 7);
    assert!(again.is_none());
    let next_period = ledger.maybe_give_periodic_emoji(&catalog, 1, 8);
    assert!(next_period.is_some());
}

#[test]
fn conservation_under_grant_and_transfer() {
    let mut ledger = LedgerState::new();
    ledger.grant(1, apple());
    ledger.grant(2, apple());
    let before = ledger.count_of_user(1, 10) + ledger.count_of_user(2, 10);
    assert_eq!(before, 2);
    ledger.transfer(1, 2, &multiset(vec![(apple(), 1)]));
    let after = ledger.count_of_user(1, 10) + ledger.count_of_user(2, 10);
    assert_eq!(after, 2);
}

#[test]
fn transfer_disturbs_groups_before_the_ungrouped_pool() {
    let mut ledger = LedgerState::new();
    ledger.grant(1, apple());
    ledger.grant(1, apple());
    ledger.add_to_group(1, "G", &multiset(vec![(apple(), 1)]));
    // moving one apple takes the group-tagged copy first, and the emptied
    // group is deleted
    ledger.transfer(1, 2, &multiset(vec![(apple(), 1)]));
    assert!(ledger.group_name_and_contents(1, "G").is_none());
    assert_eq!(ledger.get_ungrouped_emojis(1).emoji_count(), 1);
    // the moved unit arrives ungrouped
    assert_eq!(ledger.get_ungrouped_emojis(2).emoji_count(), 1);
}
