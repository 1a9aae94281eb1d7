use lettergen::counting::{cartesian_count, count_range};
use lettergen::generate::{
    cartesian_words, combinations, contains_word, permutations, ranged, unique_words, words_equal,
};

fn word(s: &str) -> Vec<char> {
    s.chars().collect()
}

fn as_strings(words: &[Vec<char>]) -> Vec<String> {
    words.iter().map(|w| w.iter().collect()).collect()
}

#[test]
fn permutations_abc_full_length() {
    let alphabet = word("abc");
    let perms = permutations(&alphabet, 3);
    assert_eq!(
        as_strings(&perms),
        vec!["abc", "acb", "bac", "bca", "cab", "cba"]
    );
}

#[test]
fn combinations_abc_full_length() {
    let alphabet = word("abc");
    let combs = combinations(&alphabet, 3);
    assert_eq!(as_strings(&combs), vec!["abc"]);
}

#[test]
fn combinations_abc_pairs() {
    let alphabet = word("abc");
    let combs = combinations(&alphabet, 2);
    assert_eq!(as_strings(&combs), vec!["ab", "ac", "bc"]);
}

#[test]
fn permutations_with_duplicate_letters() {
    // Positions are distinct even when characters repeat: 6 raw
    // arrangements, collapsing to 3 distinct string values, each twice.
    let alphabet = word("aab");
    let perms = permutations(&alphabet, 3);
    assert_eq!(perms.len(), 6);
    let strings = as_strings(&perms);
    for value in ["aab", "aba", "baa"] {
        assert_eq!(strings.iter().filter(|s| s.as_str() == value).count(), 2);
    }
}

#[test]
fn unique_words_suppress_duplicates() {
    let alphabet = word("aab");
    let uniq = unique_words(&alphabet, 3, 3);
    assert_eq!(as_strings(&uniq), vec!["aab", "aba", "baa"]);
}

#[test]
fn unique_words_keeps_first_occurrence_order() {
    let alphabet = word("aa");
    let uniq = unique_words(&alphabet, 1, 2);
    assert_eq!(as_strings(&uniq), vec!["a", "aa"]);
}

#[test]
fn zero_length_yields_empty_word() {
    let alphabet = word("abc");
    assert_eq!(as_strings(&permutations(&alphabet, 0)), vec![""]);
    assert_eq!(as_strings(&combinations(&alphabet, 0)), vec![""]);
    assert_eq!(as_strings(&cartesian_words(&alphabet, 0)), vec![""]);
}

#[test]
fn too_long_arrangements_are_none() {
    let alphabet = word("ab");
    assert!(permutations(&alphabet, 3).is_empty());
    assert!(combinations(&alphabet, 3).is_empty());
}

#[test]
fn cartesian_words_ab_length_two() {
    let alphabet = word("ab");
    let words = cartesian_words(&alphabet, 2);
    assert_eq!(as_strings(&words), vec!["aa", "ab", "ba", "bb"]);
}

#[test]
fn ranged_concatenates_lengths_in_order() {
    let alphabet = word("ab");
    let all = ranged(&alphabet, 1, 2, false);
    assert_eq!(as_strings(&all), vec!["a", "b", "ab", "ba"]);
    let combs = ranged(&alphabet, 1, 2, true);
    assert_eq!(as_strings(&combs), vec!["a", "b", "ab"]);
}

#[test]
fn ranged_empty_when_min_exceeds_max() {
    let alphabet = word("abc");
    assert!(ranged(&alphabet, 3, 1, false).is_empty());
}

#[test]
fn enumerated_counts_match_closed_form() {
    // Generating and literally counting every item agrees with the
    // closed-form totals, for n = 5 over the whole length range.
    let alphabet = word("abcde");
    let generated = ranged(&alphabet, 1, 5, false);
    let counted = count_range(5, 1, 5, false).unwrap();
    assert_eq!(generated.len() as u128, counted.total);
    assert_eq!(counted.total, 325);

    let generated_combs = ranged(&alphabet, 1, 5, true);
    let counted_combs = count_range(5, 1, 5, true).unwrap();
    assert_eq!(generated_combs.len() as u128, counted_combs.total);
    assert_eq!(counted_combs.total, 31);
}

#[test]
fn empty_alphabet_yields_nothing_for_positive_lengths() {
    let empty = word("");
    assert!(permutations(&empty, 1).is_empty());
    assert!(combinations(&empty, 2).is_empty());
    assert!(cartesian_words(&empty, 3).is_empty());
    assert_eq!(as_strings(&permutations(&empty, 0)), vec![""]);
}

#[test]
fn max_beyond_alphabet_size_adds_nothing() {
    let alphabet = word("ab");
    let all = ranged(&alphabet, 1, 5, false);
    assert_eq!(as_strings(&all), vec!["a", "b", "ab", "ba"]);
    let counted = count_range(2, 1, 5, false).unwrap();
    assert_eq!(all.len() as u128, counted.total);
}

#[test]
fn combinations_with_duplicate_letters_keep_positions() {
    let alphabet = word("aab");
    let combs = combinations(&alphabet, 2);
    assert_eq!(as_strings(&combs), vec!["aa", "ab", "ab"]);
}

#[test]
fn enumerated_counts_sweep() {
    let alphabets = ["", "a", "ab", "abc", "abcd"];
    for letters in alphabets {
        let alphabet: Vec<char> = letters.chars().collect();
        let n = alphabet.len();
        for mode in [false, true] {
            let generated = ranged(&alphabet, 0, n + 1, mode);
            let counted = count_range(n, 0, n + 1, mode).unwrap();
            assert_eq!(generated.len() as u128, counted.total);
        }
        for k in 0..=3usize {
            let words = cartesian_words(&alphabet, k);
            assert_eq!(words.len() as u128, cartesian_count(n, k).unwrap());
        }
    }
}

#[test]
fn word_membership_helpers() {
    let list = vec![word("ab"), word("cd")];
    assert!(contains_word(&list, &word("cd")));
    assert!(!contains_word(&list, &word("ce")));
    assert!(words_equal(&word("xyz"), &word("xyz")));
    assert!(!words_equal(&word("xyz"), &word("xya")));
    assert!(!words_equal(&word("xyz"), &word("xy")));
}
