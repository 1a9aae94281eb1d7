use lettergen::matcher::{filter_literal, find_first, find_literal, matches_literal, Span};
use lettergen::text::{string_to_word, word_to_string};

fn word(s: &str) -> Vec<char> {
    s.chars().collect()
}

#[test]
fn case_insensitive_span_covers_whole_string() {
    let hay = word("Cab");
    let pat = word("cab");
    let span = find_literal(&hay, &pat, true).unwrap();
    assert_eq!(span, Span { start: 0, end: 3 });
}

#[test]
fn case_sensitive_match_fails_on_different_case() {
    let hay = word("Cab");
    let pat = word("cab");
    assert_eq!(find_literal(&hay, &pat, false), None);
    assert!(!matches_literal(&hay, &pat, false));
}

#[test]
fn first_match_is_reported() {
    let hay = word("abcabc");
    let pat = word("bc");
    assert_eq!(find_first(&hay, &pat), Some(1));
    let span = find_literal(&hay, &pat, false).unwrap();
    assert_eq!(span, Span { start: 1, end: 3 });
}

#[test]
fn empty_pattern_matches_at_start() {
    let hay = word("abc");
    let pat = word("");
    assert_eq!(find_first(&hay, &pat), Some(0));
    assert!(matches_literal(&hay, &pat, true));
}

#[test]
fn pattern_longer_than_haystack_never_matches() {
    let hay = word("ab");
    let pat = word("abc");
    assert_eq!(find_first(&hay, &pat), None);
    assert!(!matches_literal(&hay, &pat, false));
}

#[test]
fn folding_changes_only_ascii_uppercase() {
    let hay = word("aBcD");
    let pat = word("bcd");
    assert!(matches_literal(&hay, &pat, true));
    assert!(!matches_literal(&hay, &pat, false));
    let span = find_literal(&hay, &pat, true).unwrap();
    assert_eq!(span, Span { start: 1, end: 4 });
}

#[test]
fn filter_keeps_matching_words_in_order() {
    let words = vec![word("cab"), word("abc"), word("bca"), word("ABX")];
    let pat = word("ab");
    let kept = filter_literal(&words, &pat, false);
    let kept_strings: Vec<String> = kept.iter().map(|w| w.iter().collect()).collect();
    assert_eq!(kept_strings, vec!["cab", "abc"]);

    let kept_folded = filter_literal(&words, &pat, true);
    let folded_strings: Vec<String> = kept_folded.iter().map(|w| w.iter().collect()).collect();
    assert_eq!(folded_strings, vec!["cab", "abc", "ABX"]);
}

#[test]
fn string_word_round_trip() {
    let w = string_to_word("Hello");
    assert_eq!(w, word("Hello"));
    assert_eq!(word_to_string(&w), "Hello".to_string());
}
