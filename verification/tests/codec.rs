use anybase::{AnyBase, EMOJI_LIST};

#[test]
fn test_map_ord() {
    let emojibase = AnyBase::new(EMOJI_LIST);
    assert_eq!(emojibase.map_ord("\u{270a}"), Some(1));
    assert_eq!(emojibase.map_emoji(1), "\u{270a}");
    assert_eq!(emojibase.map_ord("\u{1f60e}"), Some(112));
    assert_eq!(emojibase.map_emoji(112), "\u{1f60e}");
    assert_eq!(emojibase.map_ord("\u{1fab3}"), Some(227));
    assert_eq!(emojibase.map_emoji(227), "\u{1fab3}");
    assert_eq!(emojibase.map_ord("\u{270a}\u{270a}"), Some(228));
    assert_eq!(emojibase.map_emoji(228), "\u{270a}\u{270a}");
}

#[test]
fn test_encode_small_ordinals() {
    let base = AnyBase::new("ABC");
    assert_eq!(base.map_emoji(1), "A");
    assert_eq!(base.map_emoji(2), "B");
    assert_eq!(base.map_emoji(3), "C");
    assert_eq!(base.map_emoji(4), "AA");
    assert_eq!(base.map_emoji(5), "AB");
    assert_eq!(base.map_emoji(6), "AC");
    assert_eq!(base.map_emoji(7), "BA");
    assert_eq!(base.map_emoji(12), "CC");
    assert_eq!(base.map_emoji(13), "AAA");
}

#[test]
fn test_encode_zero_is_empty() {
    let base = AnyBase::new("ABC");
    assert_eq!(base.map_emoji(0), "");
}

#[test]
fn test_decode_empty_is_zero() {
    let base = AnyBase::new("ABC");
    assert_eq!(base.map_ord(""), Some(0));
}

#[test]
fn test_round_trip_first_thousand() {
    let base = AnyBase::new("ABC");
    for n in 1..=1000usize {
        assert_eq!(base.map_ord(base.map_emoji(n).as_str()), Some(n));
    }
}

#[test]
fn test_decode_invalid_symbol() {
    let base = AnyBase::new("ABC");
    assert_eq!(base.map_ord("A1"), None);
    assert_eq!(base.map_ord("D"), None);
    assert_eq!(base.map_ord("AB9C"), None);
}

#[test]
fn test_decode_overflow_is_none() {
    let emojibase = AnyBase::new(EMOJI_LIST);
    // 227^40 is far beyond any machine word, so the value cannot be
    // represented and the string is reported as carrying no ordinal.
    let long = "\u{1fab3}".repeat(40);
    assert_eq!(emojibase.map_ord(long.as_str()), None);
}

#[test]
fn test_encode_length_monotonic() {
    let base = AnyBase::new("ABC");
    let mut prev_len = 0usize;
    for n in 1..=1000usize {
        let len = base.map_emoji(n).chars().count();
        assert!(len >= prev_len);
        prev_len = len;
    }
}

#[test]
fn test_duplicate_alphabet_breaks_round_trip() {
    // With a duplicated symbol the round-trip guarantee is void: some
    // ordinal must come back wrong. Pin that boundary.
    let base = AnyBase::new("AAB");
    let mut broken = false;
    for n in 1..=30usize {
        if base.map_ord(base.map_emoji(n).as_str()) != Some(n) {
            broken = true;
        }
    }
    assert!(broken);
    // The second symbol 'A' re-decodes as the first: ordinal 2 turns into 1.
    assert_eq!(base.map_emoji(2), "A");
    assert_eq!(base.map_ord("A"), Some(1));
}

#[test]
fn test_unique_symbols() {
    assert!(anybase::unique_symbols("ABC"));
    assert!(!anybase::unique_symbols("AAB"));
    assert!(anybase::unique_symbols(""));
    assert!(anybase::unique_symbols(EMOJI_LIST));
}

#[test]
fn test_next_name_simple() {
    let base = AnyBase::new("ABC");
    let none: Vec<String> = Vec::new();
    assert_eq!(base.next_name(&none), "A");

    let taken = vec!["A".to_string(), "B".to_string(), "C".to_string()];
    assert_eq!(base.next_name(&taken), "AA");
}

#[test]
fn test_next_name_ignores_foreign_names() {
    let base = AnyBase::new("ABC");
    // "Z9" has no decoding, "AA" takes 4, "A" takes 1: smallest free is 2.
    let taken = vec!["A".to_string(), "Z9".to_string(), "AA".to_string()];
    assert_eq!(base.next_name(&taken), "B");
}

#[test]
fn test_next_name_fills_gap() {
    let base = AnyBase::new("ABC");
    let taken = vec!["A".to_string(), "B".to_string(), "AA".to_string()];
    // 1, 2 and 4 are taken; 3 is the smallest free ordinal.
    assert_eq!(base.next_name(&taken), "C");
}
