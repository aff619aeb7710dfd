use emoji_ledger::Emoji;
use emoji_ledger::make_emoji_map;

#[test]
fn test_emoji_file_name() {
    let emoji = Emoji::new("\u{1f642}", 0);
    assert_eq!(emoji.file_name(), "1f642.svg"); // Basic
    let emoji = Emoji::new("\u{1f44d}\u{1f3fd}", 0);
    assert_eq!(emoji.file_name(), "1f44d-1f3fd.svg"); // Skin tone modifier
    let emoji = Emoji::new("\u{1f487}\u{200d}\u{2642}\u{fe0f}", 0);
    assert_eq!(emoji.file_name(), "1f487-200d-2642-fe0f.svg"); // ZWJ, male modifier, variant selector
    let emoji = Emoji::new("\u{1f468}\u{200d}\u{1f469}\u{200d}\u{1f467}\u{200d}\u{1f466}", 0);
    assert_eq!(
        emoji.file_name(),
        "1f468-200d-1f469-200d-1f467-200d-1f466.svg"
    ); // Large ZWJ-based composite
}

#[test]
fn emoji_file_name() {
    let emoji = Emoji::new("🙂", 0);
    assert_eq!(emoji.file_name(), "1f642.svg"); // Basic
    let emoji = Emoji::new("👍🏽", 0);
    assert_eq!(emoji.file_name(), "1f44d-1f3fd.svg"); // Skin tone modifier
    let emoji = Emoji::new("💇‍♂️", 0);
    assert_eq!(emoji.file_name(), "1f487-200d-2642-fe0f.svg"); // ZWJ, male modifier, variant selector
    let emoji = Emoji::new("👨‍👩‍👧‍👦", 0);
    assert_eq!(
        emoji.file_name(),
        "1f468-200d-1f469-200d-1f467-200d-1f466.svg"
    ); // Large ZWJ-based composite
}

#[test]
fn short_emoji_skips_variant_selector() {
    // a short emoji with VS16 drops the selector from the file name
    let emoji = Emoji::new("\u{2764}\u{fe0f}", 0);
    assert_eq!(emoji.file_name(), "2764.svg");
}

#[test]
fn map_lookup_round_trip() {
    let catalog = vec!["😀", "😃", "🍎"];
    let map = make_emoji_map(&catalog);
    let grin = map.get("😀").expect("first catalog entry");
    assert_eq!(grin.index(), 0);
    assert_eq!(grin.as_str(), "😀");
    let apple = map.get("🍎").expect("third catalog entry");
    assert_eq!(apple.index(), 2);
    assert!(map.get("not an emoji").is_none());
}

#[test]
fn random_emoji_is_in_catalog() {
    let catalog = vec!["😀", "😃", "🍎", "🍊"];
    let map = make_emoji_map(&catalog);
    let e = map.random();
    assert!(e.index() < 4);
    assert_eq!(e.as_str(), catalog[e.index()]);
}
