use mnemonic::dict::Dict;
use mnemonic::resolver::{join_words, resolve, ResolveError};

fn dict_of(entries: &[(&str, &str)]) -> Dict {
    let mut d = Dict::new();
    for (group, word) in entries {
        d.insert_word(&group.as_bytes().to_vec(), word.as_bytes().to_vec());
    }
    d
}

fn words(out: &[&str]) -> Vec<Vec<u8>> {
    out.iter().map(|w| w.as_bytes().to_vec()).collect()
}

#[test]
fn backtracks_to_shorter_prefix_then_fails_on_unmapped_digit() {
    let d = dict_of(&[("12", "twelve"), ("1", "one")]);
    let r = resolve(&b"123".to_vec(), &d);
    assert_eq!(r, Err(ResolveError::UnmappedDigit(b'3')));
}

#[test]
fn backtracks_to_shorter_prefix_then_uses_fallback() {
    let d = dict_of(&[("12", "twelve"), ("1", "one"), ("3", "three")]);
    let r = resolve(&b"123".to_vec(), &d);
    assert_eq!(r, Ok(words(&["twelve", "three"])));
}

#[test]
fn greedy_takes_longest_prefix_first() {
    let d = dict_of(&[("123", "hundred"), ("12", "twelve"), ("1", "one"), ("3", "three")]);
    let r = resolve(&b"123".to_vec(), &d);
    assert_eq!(r, Ok(words(&["hundred"])));
}

#[test]
fn four_digit_window_is_tried_before_shorter_ones() {
    let d = dict_of(&[
        ("1234", "big"),
        ("1", "one"),
        ("2", "two"),
        ("3", "three"),
        ("4", "four"),
    ]);
    let r = resolve(&b"12341".to_vec(), &d);
    assert_eq!(r, Ok(words(&["big", "one"])));
}

#[test]
fn single_digit_fallback_resolves_any_input() {
    let digit_words = [
        "zero", "one", "two", "three", "four", "five", "six", "seven", "eight", "nine",
    ];
    let mut d = Dict::new();
    for (i, w) in digit_words.iter().enumerate() {
        let group = vec![b'0' + i as u8];
        d.insert_word(&group, w.as_bytes().to_vec());
    }
    let input = b"9081726354".to_vec();
    let out = resolve(&input, &d).unwrap();
    assert_eq!(out.len(), input.len());
    for (i, b) in input.iter().enumerate() {
        assert_eq!(out[i], digit_words[(b - b'0') as usize].as_bytes().to_vec());
    }
}

#[test]
fn word_count_is_at_least_a_quarter_of_the_digit_count() {
    let d = dict_of(&[("1", "one")]);
    let input = b"1111111111111".to_vec();
    let out = resolve(&input, &d).unwrap();
    assert_eq!(out.len(), 13);
    assert!(4 * out.len() >= input.len());
}

#[test]
fn random_choice_stays_within_the_candidate_list() {
    let d = dict_of(&[("7", "say"), ("7", "speak")]);
    for _ in 0..20 {
        let out = resolve(&b"7".to_vec(), &d).unwrap();
        assert_eq!(out.len(), 1);
        assert!(out[0] == b"say".to_vec() || out[0] == b"speak".to_vec());
    }
}

#[test]
fn matched_group_lengths_are_stable_across_runs() {
    let d = dict_of(&[
        ("12", "dozen"),
        ("12", "pair"),
        ("3", "three"),
        ("3", "trio"),
        ("1", "one"),
        ("2", "two"),
    ]);
    for _ in 0..20 {
        let out = resolve(&b"123".to_vec(), &d).unwrap();
        assert_eq!(out.len(), 2);
        assert!(out[0] == b"dozen".to_vec() || out[0] == b"pair".to_vec());
        assert!(out[1] == b"three".to_vec() || out[1] == b"trio".to_vec());
    }
}

#[test]
fn empty_input_yields_no_words() {
    let d = dict_of(&[("1", "one")]);
    let r = resolve(&b"".to_vec(), &d);
    assert_eq!(r, Ok(Vec::new()));
}

#[test]
fn leading_zeros_make_distinct_groups() {
    let d = dict_of(&[("01", "ohone"), ("1", "one"), ("0", "zero"), ("10", "ten")]);
    assert_eq!(resolve(&b"01".to_vec(), &d), Ok(words(&["ohone"])));
    assert_eq!(resolve(&b"10".to_vec(), &d), Ok(words(&["ten"])));
}

#[test]
fn error_names_the_unmapped_digit() {
    let d = dict_of(&[("1", "one")]);
    let r = resolve(&b"21".to_vec(), &d);
    assert_eq!(r, Err(ResolveError::UnmappedDigit(b'2')));
}

#[test]
fn empty_candidate_list_counts_as_a_miss() {
    // An entry whose list was never filled cannot arise from insert_word,
    // so a missing key plays that part: only "1" is mapped.
    let d = dict_of(&[("1", "one"), ("12", "twelve")]);
    let r = resolve(&b"121".to_vec(), &d);
    assert_eq!(r, Ok(words(&["twelve", "one"])));
}

#[test]
fn join_words_puts_single_spaces_between_words() {
    assert_eq!(join_words(&words(&["ab", "c", "def"])), b"ab c def".to_vec());
}

#[test]
fn join_words_of_nothing_is_empty() {
    assert_eq!(join_words(&Vec::new()), Vec::<u8>::new());
}

#[test]
fn join_words_of_one_word_has_no_space() {
    assert_eq!(join_words(&words(&["solo"])), b"solo".to_vec());
}
