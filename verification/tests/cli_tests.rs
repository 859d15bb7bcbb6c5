use mnemonic::cli::{parse_args, CliError, CliRequest};

fn argv(args: &[&str]) -> Vec<Vec<u8>> {
    args.iter().map(|a| a.as_bytes().to_vec()).collect()
}

#[test]
fn a_digit_argument_is_accepted() {
    match parse_args(&argv(&["prog", "123"])) {
        CliRequest::Run(d) => assert_eq!(d, b"123".to_vec()),
        other => panic!("expected a run request, got {:?}", other),
    }
}

#[test]
fn a_non_digit_character_is_rejected() {
    assert!(matches!(
        parse_args(&argv(&["prog", "12a"])),
        CliRequest::Invalid(CliError::NotDigits)
    ));
}

#[test]
fn an_empty_argument_is_rejected() {
    assert!(matches!(
        parse_args(&argv(&["prog", ""])),
        CliRequest::Invalid(CliError::NotDigits)
    ));
}

#[test]
fn two_positional_arguments_are_rejected() {
    assert!(matches!(
        parse_args(&argv(&["prog", "1", "2"])),
        CliRequest::Invalid(CliError::WrongArgCount)
    ));
}

#[test]
fn no_argument_is_rejected() {
    assert!(matches!(
        parse_args(&argv(&["prog"])),
        CliRequest::Invalid(CliError::WrongArgCount)
    ));
}

#[test]
fn short_help_flag_asks_for_usage() {
    assert!(matches!(parse_args(&argv(&["prog", "-h"])), CliRequest::Help));
}

#[test]
fn long_help_flag_asks_for_usage() {
    assert!(matches!(
        parse_args(&argv(&["prog", "--help"])),
        CliRequest::Help
    ));
}

#[test]
fn a_help_flag_among_two_arguments_is_a_count_error() {
    assert!(matches!(
        parse_args(&argv(&["prog", "-h", "1"])),
        CliRequest::Invalid(CliError::WrongArgCount)
    ));
}
