use mnemonic::dict::{load_dict, Dict, LineError, LoadError};

fn lines_of(lines: &[&str]) -> Vec<Vec<u8>> {
    lines.iter().map(|l| l.as_bytes().to_vec()).collect()
}

fn lookup_words(d: &Dict, group: &str) -> Option<Vec<Vec<u8>>> {
    d.lookup(&group.as_bytes().to_vec()).map(|v| v.clone())
}

#[test]
fn load_round_trip() {
    let d = load_dict(&lines_of(&["0 zero", "1 one", "12 dozen"])).unwrap();
    assert_eq!(lookup_words(&d, "0"), Some(vec![b"zero".to_vec()]));
    assert_eq!(lookup_words(&d, "1"), Some(vec![b"one".to_vec()]));
    assert_eq!(lookup_words(&d, "12"), Some(vec![b"dozen".to_vec()]));
    assert_eq!(lookup_words(&d, "2"), None);
}

#[test]
fn load_keeps_file_order_of_shared_keys() {
    let d = load_dict(&lines_of(&["1 one", "12 dozen", "1 won"])).unwrap();
    assert_eq!(
        lookup_words(&d, "1"),
        Some(vec![b"one".to_vec(), b"won".to_vec()])
    );
}

#[test]
fn load_skips_blank_lines() {
    let d = load_dict(&lines_of(&["", "   ", "1 one", "\t"])).unwrap();
    assert_eq!(lookup_words(&d, "1"), Some(vec![b"one".to_vec()]));
}

#[test]
fn load_accepts_extra_whitespace_around_fields() {
    let d = load_dict(&lines_of(&["  12\tdozen  ", "\t7   seven"])).unwrap();
    assert_eq!(lookup_words(&d, "12"), Some(vec![b"dozen".to_vec()]));
    assert_eq!(lookup_words(&d, "7"), Some(vec![b"seven".to_vec()]));
}

#[test]
fn load_fails_on_a_one_field_line() {
    match load_dict(&lines_of(&["1 one", "loner"])) {
        Err(e) => assert_eq!(
            e,
            LoadError { line: 1, kind: LineError::NotTwoFields }
        ),
        Ok(_) => panic!("a one-field line must fail the load"),
    }
}

#[test]
fn load_fails_on_a_three_field_line() {
    match load_dict(&lines_of(&["1 one two"])) {
        Err(e) => assert_eq!(
            e,
            LoadError { line: 0, kind: LineError::NotTwoFields }
        ),
        Ok(_) => panic!("a three-field line must fail the load"),
    }
}

#[test]
fn load_fails_on_a_key_longer_than_four_digits() {
    match load_dict(&lines_of(&["12345 word"])) {
        Err(e) => assert_eq!(
            e,
            LoadError { line: 0, kind: LineError::KeyNotGroup }
        ),
        Ok(_) => panic!("a five-digit key must fail the load"),
    }
}

#[test]
fn load_fails_on_a_key_with_a_non_digit() {
    match load_dict(&lines_of(&["a1 word"])) {
        Err(e) => assert_eq!(
            e,
            LoadError { line: 0, kind: LineError::KeyNotGroup }
        ),
        Ok(_) => panic!("a non-digit key must fail the load"),
    }
}

#[test]
fn insert_appends_in_order() {
    let mut d = Dict::new();
    d.insert_word(&b"5".to_vec(), b"five".to_vec());
    d.insert_word(&b"5".to_vec(), b"fiver".to_vec());
    assert_eq!(
        lookup_words(&d, "5"),
        Some(vec![b"five".to_vec(), b"fiver".to_vec()])
    );
    assert_eq!(lookup_words(&d, "55"), None);
}
