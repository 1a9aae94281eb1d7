use lettergen::search::{default_alphabet, matches_query, prepare_query, search, SearchQuery};
use lettergen::ErrorKind;

fn word(s: &str) -> Vec<char> {
    s.chars().collect()
}

fn as_strings(words: &[Vec<char>]) -> Vec<String> {
    words.iter().map(|w| w.iter().collect()).collect()
}

#[test]
fn search_without_filter_yields_full_cross_product() {
    // An empty literal pattern matches every word: the full cross
    // product of "ab" at length 2, in lexicographic order.
    let alphabet = word("ab");
    let query = SearchQuery { pattern: word(""), case_insensitive: false, is_regex: false };
    let results = search(&alphabet, 2, &query).unwrap();
    assert_eq!(as_strings(&results), vec!["aa", "ab", "ba", "bb"]);
}

#[test]
fn search_literal_filters_candidates() {
    let alphabet = word("ab");
    let query = SearchQuery { pattern: word("ab"), case_insensitive: false, is_regex: false };
    let results = search(&alphabet, 2, &query).unwrap();
    assert_eq!(as_strings(&results), vec!["ab"]);
}

#[test]
fn search_regex_anchored_pattern() {
    // "^a.c$" matches "abc" (and the other three-letter a_c words) but
    // no word of length four, such as "abcd".
    let alphabet = word("abc");
    let query = SearchQuery { pattern: word("^a.c$"), case_insensitive: false, is_regex: true };
    let results = search(&alphabet, 3, &query).unwrap();
    assert_eq!(as_strings(&results), vec!["aac", "abc", "acc"]);

    let alphabet4 = word("abcd");
    let query4 = SearchQuery { pattern: word("^a.c$"), case_insensitive: false, is_regex: true };
    let results4 = search(&alphabet4, 4, &query4).unwrap();
    assert!(results4.is_empty());
}

#[test]
fn search_regex_exact_word() {
    let alphabet = word("ab");
    let query = SearchQuery { pattern: word("^ab$"), case_insensitive: false, is_regex: true };
    let results = search(&alphabet, 2, &query).unwrap();
    assert_eq!(as_strings(&results), vec!["ab"]);
}

#[test]
fn invalid_regex_fails_with_no_output() {
    let alphabet = word("ab");
    let query = SearchQuery { pattern: word("(a"), case_insensitive: false, is_regex: true };
    let result = search(&alphabet, 2, &query);
    match result {
        Err(ErrorKind::InvalidPattern(msg)) => {
            assert!(!msg.is_empty());
        }
        _ => panic!("expected an invalid-pattern failure"),
    }
}

#[test]
fn prepared_regex_query_tests_single_words() {
    let query = SearchQuery { pattern: word("b.d"), case_insensitive: false, is_regex: true };
    let prepared = prepare_query(&query).unwrap();
    assert!(matches_query(&prepared, &word("abcde")));
    assert!(!matches_query(&prepared, &word("abce")));
}

#[test]
fn prepared_literal_query_folds_case() {
    let query = SearchQuery { pattern: word("AB"), case_insensitive: true, is_regex: false };
    let prepared = prepare_query(&query).unwrap();
    assert!(matches_query(&prepared, &word("cab")));
    assert!(!matches_query(&prepared, &word("cb")));

    let exact = SearchQuery { pattern: word("AB"), case_insensitive: false, is_regex: false };
    let prepared_exact = prepare_query(&exact).unwrap();
    assert!(!matches_query(&prepared_exact, &word("cab")));
    assert!(matches_query(&prepared_exact, &word("cABin")));
}

#[test]
fn prepare_rejects_invalid_regex_only() {
    let bad = SearchQuery { pattern: word("(a"), case_insensitive: false, is_regex: true };
    assert!(matches!(prepare_query(&bad), Err(ErrorKind::InvalidPattern(_))));
    // The same text as a literal pattern is fine.
    let literal = SearchQuery { pattern: word("(a"), case_insensitive: false, is_regex: false };
    assert!(prepare_query(&literal).is_ok());
}

#[test]
fn default_alphabet_is_lowercase_latin() {
    let alphabet = default_alphabet();
    let s: String = alphabet.iter().collect();
    assert_eq!(s, "abcdefghijklmnopqrstuvwxyz");
    assert_eq!(alphabet.len(), 26);
}
