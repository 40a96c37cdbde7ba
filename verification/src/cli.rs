//! Numbers on the command line.

use vstd::prelude::*;

use crate::text;
use crate::text::{chars_of, parse_unsigned};

verus! {

/// The number that an argument spells, or the default if it is missing or spells
/// none up to `max`.
pub open spec fn argument(arg: Option<&String>, max: nat, default: nat) -> nat {
    match arg {
        Some(s) => match text::parsed_unsigned(s@, max) {
            Some(n) => n,
            None => default,
        },
        None => default,
    }
}

/// Reads a 64-bit number from an argument.
pub fn parse_u64(arg: Option<&String>, default: u64) -> (n: u64)
    ensures
        n == argument(arg, u64::MAX as nat, default as nat),
{
    match arg {
        Some(s) => {
            let chars: Vec<char> = chars_of(s.as_str());
            match parse_unsigned(chars.as_slice(), u64::MAX) {
                Some(n) => n,
                None => default,
            }
        },
        None => default,
    }
}

/// Reads a size from an argument.
pub fn parse_usize(arg: Option<&String>, default: usize) -> (n: usize)
    ensures
        n == argument(arg, usize::MAX as nat, default as nat),
{
    match arg {
        Some(s) => {
            let chars: Vec<char> = chars_of(s.as_str());
            match parse_unsigned(chars.as_slice(), usize::MAX as u64) {
                Some(n) => n as usize,
                None => default,
            }
        },
        None => default,
    }
}

/// An argument that spells a number within bounds gives it. One that is missing, or
/// spells none, gives the default.
pub proof fn law_argument_or_default(arg: Option<&String>, max: nat, default: nat, n: nat)
    ensures
        arg is None ==> argument(arg, max, default) == default,
        arg is Some && n <= max && arg->0@ == text::decimal(n) ==> argument(arg, max, default) == n,
        arg is Some && n > max && arg->0@ == text::decimal(n) ==> argument(arg, max, default)
            == default,
        arg is Some && text::parsed_unsigned(arg->0@, max) is None ==> argument(arg, max, default)
            == default,
{
    text::lemma_numeral_digits(n, 1);
    let d = text::decimal(n);
    assert(text::is_digit(d[0]));
    assert(text::unsigned_body(d) == d);
}

} // verus!
