use unjumble::configuration::Config;
use unjumble::letters::{count_letters, is_subset_match};
use unjumble::runner::{
    filter_by_longest, get_longest_word_length, is_match, match_words, run,
    sort_alphabetically, sort_by_length,
};
use unjumble::Options;

fn strings(words: &[&str]) -> Vec<String> {
    words.iter().map(|w| w.to_string()).collect()
}

fn config(options: Options, require_letter: bool, letter: char, letters: &str) -> Config {
    Config {
        options,
        require_letter,
        letter,
        letters: letters.to_string(),
        dictionary: String::new(),
    }
}

fn dictionary() -> Vec<String> {
    strings(&["tin", "silent", "lines", "enlist", "xyz"])
}

#[test]
fn test_1_get_longest_word() {
    let words: Vec<String> = vec![
        "a".to_string(),
        "ab".to_string(),
        "abc".to_string(),
        "abcd".to_string(),
    ];
    let length = get_longest_word_length(&words);

    let expected_length: usize = 4;

    assert_eq!(length, expected_length);
}

#[test]
fn test_2_sort_by_length() {
    let mut words: Vec<String> = vec![
        "a".to_string(),
        "ab".to_string(),
        "abc".to_string(),
        "abcd".to_string(),
    ];
    words = sort_by_length(words);

    let expected_words: Vec<String> = vec![
        "abcd".to_string(),
        "abc".to_string(),
        "ab".to_string(),
        "a".to_string(),
    ];

    assert_eq!(words, expected_words);
}

#[test]
fn test_3_filter_by_longest() {
    let mut words: Vec<String> = vec![
        "a".to_string(),
        "ab".to_string(),
        "abc".to_string(),
        "abcd".to_string(),
    ];
    words = filter_by_longest(words);

    let expected_words: Vec<String> = vec!["abcd".to_string()];

    assert_eq!(words, expected_words);
}

#[test]
fn scan_order_without_policy() {
    let out = run(&config(Options::ScanOrder, false, '\0', "listen"), dictionary());
    assert_eq!(out, strings(&["tin", "silent", "lines", "enlist"]));
}

#[test]
fn alphabetical_policy_scenario() {
    let out = run(&config(Options::Alpha, false, '\0', "listen"), dictionary());
    assert_eq!(out, strings(&["enlist", "lines", "silent", "tin"]));
}

#[test]
fn length_descending_policy_scenario() {
    let out = run(&config(Options::Len, false, '\0', "listen"), dictionary());
    assert_eq!(out, strings(&["enlist", "silent", "lines", "tin"]));
}

#[test]
fn longest_only_policy_scenario() {
    // Longest-only does not sort: both six-letter matches stay in scan order.
    let out = run(&config(Options::Longest, false, '\0', "listen"), dictionary());
    assert_eq!(out, strings(&["silent", "enlist"]));
}

#[test]
fn required_letter_absent_gives_nothing() {
    let out = run(&config(Options::ScanOrder, true, 'x', "listen"), dictionary());
    assert!(out.is_empty());
}

#[test]
fn empty_dictionary_gives_nothing_under_every_policy() {
    for options in [Options::ScanOrder, Options::Alpha, Options::Len, Options::Longest] {
        let out = run(&config(options, false, '\0', "listen"), Vec::new());
        assert!(out.is_empty());
    }
}

#[test]
fn required_letter_filters_matches() {
    let out = run(&config(Options::ScanOrder, true, 'S', "listen"), dictionary());
    assert_eq!(out, strings(&["silent", "lines", "enlist"]));
}

#[test]
fn matching_ignores_case_and_keeps_casing() {
    let words = strings(&["TIN", "Silent", "nil", "tint"]);
    let out = run(&config(Options::ScanOrder, false, '\0', "LiStEn"), words);
    assert_eq!(out, strings(&["TIN", "Silent", "nil"]));
}

#[test]
fn count_letters_ignores_case() {
    let lower = count_letters("Hello".to_string());
    let upper = count_letters("Hello".to_uppercase());
    for c in ['h', 'e', 'l', 'o', 'H', 'L', 'x'] {
        assert_eq!(lower.count(c), upper.count(c));
    }
    assert_eq!(lower.count('l'), 2);
    assert_eq!(lower.count('h'), 1);
    assert_eq!(lower.count('H'), 0);
}

#[test]
fn count_letters_counts_every_character() {
    let m = count_letters("a1-a!".to_string());
    assert_eq!(m.count('a'), 2);
    assert_eq!(m.count('1'), 1);
    assert_eq!(m.count('-'), 1);
    assert_eq!(m.count('!'), 1);
    assert_eq!(m.count('b'), 0);
}

#[test]
fn count_letters_of_empty_string() {
    let m = count_letters(String::new());
    assert_eq!(m.count('a'), 0);
}

#[test]
fn subset_match_compares_counts() {
    let rack = count_letters("aabc".to_string());
    assert!(is_subset_match(&rack, &count_letters("aab".to_string())));
    assert!(is_subset_match(&rack, &count_letters("cab".to_string())));
    assert!(!is_subset_match(&rack, &count_letters("aaa".to_string())));
    assert!(!is_subset_match(&rack, &count_letters("abd".to_string())));
    assert!(is_subset_match(&rack, &count_letters(String::new())));
}

#[test]
fn is_match_checks_required_letter_case_insensitively() {
    let rack = count_letters("listen".to_string());
    assert!(is_match(&rack, &"Tin".to_string(), true, 'T'));
    assert!(!is_match(&rack, &"tin".to_string(), true, 'e'));
    assert!(!is_match(&rack, &"tint".to_string(), false, '\0'));
    assert!(is_match(&rack, &"".to_string(), false, '\0'));
}

#[test]
fn match_words_keeps_scan_order() {
    let rack = count_letters("listen".to_string());
    let out = match_words(&rack, &strings(&["net", "xyz", "ten", "net"]), false, '\0');
    assert_eq!(out, strings(&["net", "ten", "net"]));
}

#[test]
fn alphabetical_sort_is_a_sorted_permutation() {
    let out = sort_alphabetically(strings(&["pear", "Apple", "apple", "fig", "apple"]));
    assert_eq!(out, strings(&["Apple", "apple", "apple", "fig", "pear"]));
}

#[test]
fn alphabetical_sort_is_idempotent() {
    let once = sort_alphabetically(strings(&["tin", "silent", "lines", "enlist"]));
    let twice = sort_alphabetically(once.clone());
    assert_eq!(once, twice);
}

#[test]
fn alphabetical_sort_orders_by_bytes() {
    let out = sort_alphabetically(strings(&["é", "z", "a"]));
    assert_eq!(out, strings(&["a", "z", "é"]));
}

#[test]
fn length_groups_descend_and_ascend_within() {
    let out = sort_by_length(strings(&["bb", "a", "ccc", "aa", "c", "abc"]));
    assert_eq!(out, strings(&["abc", "ccc", "aa", "bb", "a", "c"]));
}

#[test]
fn length_groups_drop_empty_words() {
    let out = sort_by_length(strings(&["", "b", "", "a"]));
    assert_eq!(out, strings(&["a", "b"]));
}

#[test]
fn length_is_measured_in_bytes() {
    let words = strings(&["ab", "é", "abc"]);
    assert_eq!(get_longest_word_length(&words), 3);
    let out = sort_by_length(words.clone());
    assert_eq!(out, strings(&["abc", "ab", "é"]));
    let longest = filter_by_longest(strings(&["é", "a"]));
    assert_eq!(longest, strings(&["é"]));
}

#[test]
fn longest_only_keeps_duplicates_in_scan_order() {
    let out = filter_by_longest(strings(&["bcd", "a", "abc", "bcd"]));
    assert_eq!(out, strings(&["bcd", "abc", "bcd"]));
}

#[test]
fn longest_of_empty_list_is_zero() {
    assert_eq!(get_longest_word_length(&Vec::new()), 0);
    assert!(filter_by_longest(Vec::new()).is_empty());
    assert!(sort_by_length(Vec::new()).is_empty());
}

#[test]
fn longest_only_with_only_empty_words() {
    let out = filter_by_longest(strings(&["", ""]));
    assert_eq!(out, strings(&["", ""]));
}
