//! Error type for the ML-DSA API: length checks, malformed input, and the FIPS
//! (⊥) reject cases.
use vstd::prelude::*;

verus! {

/// Errors returned by encode/decode and the high-level API.
#[derive(Debug, Clone, Copy, PartialEq, Eq, Structural)]
pub enum Error {
    /// A byte slice had the wrong length.
    InvalidLength { expected: usize, got: usize },
    /// Input bytes were malformed.
    MalformedInput,
    /// The context string exceeded 255 bytes.
    ContextTooLong,
    /// FIPS "bottom" (⊥): a decode or verify step rejected.
    Reject,
    /// Verify-after-sign failed: the new signature did not verify, which indicates a
    /// fault during signing, so the signature is withheld.
    FaultDetected,
}

/// The character of decimal digit `d`.
pub open spec fn digit_char(d: int) -> char {
    if d == 0 { '0' } else if d == 1 { '1' } else if d == 2 { '2' } else if d == 3 { '3' }
    else if d == 4 { '4' } else if d == 5 { '5' } else if d == 6 { '6' } else if d == 7 { '7' }
    else if d == 8 { '8' } else { '9' }
}

/// The decimal representation of `n`, most significant digit first.
pub open spec fn decimal_text(n: nat) -> Seq<char>
    decreases n,
{
    if n < 10 {
        seq![digit_char(n as int)]
    } else {
        decimal_text(n / 10).push(digit_char((n % 10) as int))
    }
}

/// The human-readable description of each error.
pub open spec fn error_message(e: Error) -> Seq<char> {
    match e {
        Error::InvalidLength { expected, got } => "invalid length: expected "@ + decimal_text(
            expected as nat,
        ) + ", got "@ + decimal_text(got as nat),
        Error::MalformedInput => "malformed input"@,
        Error::ContextTooLong => "context string exceeds 255 bytes"@,
        Error::Reject => "rejected (bottom)"@,
        Error::FaultDetected => "verify-after-sign failed: fault detected, signature withheld"@,
    }
}

/// The one-character text of decimal digit `d`.
fn digit_str(d: usize) -> (s: &'static str)
    requires
        d < 10,
    ensures
        s@ == seq![digit_char(d as int)],
{
    proof {
        reveal_strlit("0");
        reveal_strlit("1");
        reveal_strlit("2");
        reveal_strlit("3");
        reveal_strlit("4");
        reveal_strlit("5");
        reveal_strlit("6");
        reveal_strlit("7");
        reveal_strlit("8");
        reveal_strlit("9");
    }
    if d == 0 { "0" } else if d == 1 { "1" } else if d == 2 { "2" } else if d == 3 { "3" }
    else if d == 4 { "4" } else if d == 5 { "5" } else if d == 6 { "6" } else if d == 7 { "7" }
    else if d == 8 { "8" } else { "9" }
}

/// Appends the decimal representation of `n` to `out`.
fn push_decimal(out: &mut String, n: usize)
    ensures
        final(out)@ == old(out)@ + decimal_text(n as nat),
    decreases n,
{
    if n >= 10 {
        push_decimal(out, n / 10);
    }
    out.append(digit_str(n % 10));
}

impl Error {
    /// The error's description, as its `Display` would write it.
    pub fn message(&self) -> (s: String)
        ensures
            s@ == error_message(*self),
    {
        match self {
            Error::InvalidLength { expected, got } => {
                let mut s = String::from_str("invalid length: expected ");
                push_decimal(&mut s, *expected);
                s.append(", got ");
                push_decimal(&mut s, *got);
                s
            },
            Error::MalformedInput => String::from_str("malformed input"),
            Error::ContextTooLong => String::from_str("context string exceeds 255 bytes"),
            Error::Reject => String::from_str("rejected (bottom)"),
            Error::FaultDetected => String::from_str(
                "verify-after-sign failed: fault detected, signature withheld",
            ),
        }
    }
}

/// Crate-wide result alias.
pub type Result<T> = core::result::Result<T, Error>;

} // verus!
