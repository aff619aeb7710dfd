use emoji_ledger::EmojisWithCounts;
use emoji_ledger::EmojiMap;
use emoji_ledger::make_emoji_map;

fn small_map() -> EmojiMap {
    make_emoji_map(&vec!["😀", "😃", "👍", "🤔"])
}
use emoji_ledger::parse_emoji_input;
use unicode_segmentation::UnicodeSegmentation;

/// This is basically just validating my understanding of the grapheme iterator as it relates to ZWNJ.
#[test]
fn grapheme_clusters() {
    let zwnj = "\u{200C}";
    let messy_input = "\u{200C}👍👍\u{200C}🤔 \u{200C}\u{200C}\u{200C}";
    let expected_outcome = [
        "\u{200C}",
        "👍",
        "👍\u{200C}",
        "🤔",
        " \u{200C}\u{200C}\u{200C}",
    ];
    for (input, expected) in messy_input.graphemes(true).zip(expected_outcome) {
        assert_eq!(input, expected);
    }
    let expected_trimmed_outcome = ["", "👍", "👍", "🤔", " "];
    for (input, expected) in messy_input.graphemes(true).zip(expected_trimmed_outcome) {
        assert_eq!(input.trim_end_matches(zwnj), expected);
    }
}

#[test]
fn parse_simple_emojis() {
    let map = small_map();
    let emojis = parse_emoji_input(&map, "😀😃").expect("both emojis are in the catalog");
    assert_eq!(emojis.len(), 2);
    assert_eq!(emojis[0].as_str(), "😀");
    assert_eq!(emojis[1].as_str(), "😃");
}

#[test]
fn parse_skips_blanks_and_nonjoiners() {
    let map = small_map();
    let emojis = parse_emoji_input(&map, "\u{200C}😀 😀\u{200C}").expect("parses");
    assert_eq!(emojis.len(), 2);
    assert_eq!(emojis[0].as_str(), "😀");
    assert_eq!(emojis[1].as_str(), "😀");
}

#[test]
fn parse_rejects_unknown_text() {
    let map = small_map();
    let err = parse_emoji_input(&map, "😀q").unwrap_err();
    assert!(err.contains("Could not recognize"));
    assert!(err.contains("q"));
}

#[test]
fn multiset_counts_and_flatten() {
    let map = small_map();
    let emojis = parse_emoji_input(&map, "😀😃😀").expect("parses");
    let counted = EmojisWithCounts::from_flat(&emojis);
    assert_eq!(counted.unique_emoji_count(), 2);
    assert_eq!(counted.emoji_count(), 3);
    assert!(!counted.is_empty());
    let flat = counted.flatten();
    assert_eq!(flat.len(), 3);
    // sorted by catalog ordinal: two of the first emoji, then one of the second
    assert_eq!(flat[0].as_str(), "😀");
    assert_eq!(flat[1].as_str(), "😀");
    assert_eq!(flat[2].as_str(), "😃");
}

#[test]
fn multiset_equality_and_canonical_form() {
    let map = small_map();
    let a = map.get("😀").unwrap();
    let b = map.get("😃").unwrap();
    let one = EmojisWithCounts::new(vec![(a, 1), (b, 2)]);
    let two = EmojisWithCounts::new(vec![(b, 1), (a, 1), (b, 1)]);
    assert!(one.equals(&two));
    let three = EmojisWithCounts::new(vec![(a, 2), (b, 1)]);
    assert!(!one.equals(&three));
    assert_eq!(one.iter().len(), 2);
}
