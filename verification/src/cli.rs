//! Command-line argument validation: the program takes exactly one
//! positional argument, a non-empty string of ASCII digits, or a help
//! flag.

use vstd::prelude::*;
use crate::all_digits;
use crate::copy_range;

verus! {

/// The short help flag, `-h`.
pub open spec fn help_short() -> Seq<u8> {
    seq![45u8, 104u8]
}

/// The long help flag, `--help`.
pub open spec fn help_long() -> Seq<u8> {
    seq![45u8, 45u8, 104u8, 101u8, 108u8, 112u8]
}

/// The argument asks for the usage text.
pub open spec fn is_help_arg(a: Seq<u8>) -> bool {
    a == help_short() || a == help_long()
}

/// A usable digit argument: non-empty, ASCII digits only.
pub open spec fn valid_digits(s: Seq<u8>) -> bool {
    s.len() > 0 && all_digits(s)
}

/// Why the command line was rejected.
#[derive(Clone, Copy, Debug, PartialEq, Eq, Structural)]
pub enum CliError {
    /// Not exactly one positional argument.
    WrongArgCount,
    /// The argument is empty or holds a byte that is not a digit.
    NotDigits,
}

/// What the command line asks for.
#[derive(Debug)]
pub enum CliRequest {
    /// Print the usage text and stop.
    Help,
    /// Convert this digit string.
    Run(Vec<u8>),
    /// Reject the invocation.
    Invalid(CliError),
}

/// Whether the argument is one of the help flags.
fn is_help_flag(a: &Vec<u8>) -> (r: bool)
    ensures
        r == is_help_arg(a@),
{
    if a.len() == 2 {
        let r = a[0] == 45 && a[1] == 104;
        proof {
            if r {
                assert(a@ =~= help_short());
            } else {
                assert(a@[0] != help_short()[0] || a@[1] != help_short()[1]);
            }
        }
        r
    } else if a.len() == 6 {
        let r = a[0] == 45 && a[1] == 45 && a[2] == 104 && a[3] == 101 && a[4] == 108 && a[5]
            == 112;
        proof {
            if r {
                assert(a@ =~= help_long());
            }
        }
        r
    } else {
        false
    }
}

/// Whether the argument is a non-empty string of digits.
fn check_digits(a: &Vec<u8>) -> (r: bool)
    ensures
        r == valid_digits(a@),
{
    if a.len() == 0 {
        return false;
    }
    let mut i: usize = 0;
    while i < a.len()
        invariant
            0 <= i <= a@.len(),
            forall|j: int| 0 <= j < i ==> crate::is_digit(a@[j]),
        decreases a@.len() - i,
    {
        if !crate::byte_is_digit(a[i]) {
            return false;
        }
        i = i + 1;
    }
    true
}

/// Validates the command line: `args` holds the program name and then the
/// arguments.  A lone `-h` or `--help` asks for the usage text; exactly
/// one other argument must be a non-empty digit string and is returned;
/// anything else is rejected with the reason.
pub fn parse_args(args: &Vec<Vec<u8>>) -> (r: CliRequest)
    ensures
        args@.len() == 2 && is_help_arg(args@[1]@) ==> r == CliRequest::Help,
        args@.len() != 2 ==> r == CliRequest::Invalid(CliError::WrongArgCount),
        args@.len() == 2 && !is_help_arg(args@[1]@) && !valid_digits(args@[1]@) ==> r
            == CliRequest::Invalid(CliError::NotDigits),
        args@.len() == 2 && !is_help_arg(args@[1]@) && valid_digits(args@[1]@) ==> (r matches
        CliRequest::Run(d) && d@ == args@[1]@),
{
    if args.len() != 2 {
        return CliRequest::Invalid(CliError::WrongArgCount);
    }
    let a = &args[1];
    if is_help_flag(a) {
        return CliRequest::Help;
    }
    if !check_digits(a) {
        return CliRequest::Invalid(CliError::NotDigits);
    }
    let digits = copy_range(a, 0, a.len());
    proof {
        assert(digits@ =~= a@);
    }
    CliRequest::Run(digits)
}

} // verus!
