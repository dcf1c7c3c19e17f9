//! The closed set of failures that a numerical kernel call can end in.

use vstd::prelude::*;
use vstd::string::StringExecFns;

verus! {

/// Why a kernel call produced no result. A value of this type never stands for a partial
/// success.
#[derive(Debug, Clone, PartialEq, Eq, Structural)]
pub enum ComputeError {
    /// A matrix that had to be inverted is singular.
    MatrixInversionFailed,
    /// A linear solve failed outright.
    SolveFailure,
    /// The iteration budget ran out before the tolerance was reached.
    ConvergenceFailure { iterations: i32 },
    /// A buffer length disagrees with the declared shape, or a parameter is out of range.
    InvalidDimensions,
    /// An output buffer could not be allocated.
    AllocationError,
    /// A status code outside the documented conventions.
    Unknown(i32),
}

/// The character of a decimal digit.
pub open spec fn digit_char(d: int) -> char {
    if d == 0 {
        '0'
    } else if d == 1 {
        '1'
    } else if d == 2 {
        '2'
    } else if d == 3 {
        '3'
    } else if d == 4 {
        '4'
    } else if d == 5 {
        '5'
    } else if d == 6 {
        '6'
    } else if d == 7 {
        '7'
    } else if d == 8 {
        '8'
    } else {
        '9'
    }
}

/// The decimal digits of a natural number, most significant first, without leading zeros.
pub open spec fn decimal_digits(n: nat) -> Seq<char>
    decreases n,
{
    if n < 10 {
        seq![digit_char(n as int)]
    } else {
        decimal_digits(n / 10).push(digit_char((n % 10) as int))
    }
}

/// The decimal notation of an integer, with a minus sign where it is negative.
pub open spec fn decimal(n: int) -> Seq<char> {
    if n < 0 {
        seq!['-'] + decimal_digits((-n) as nat)
    } else {
        decimal_digits(n as nat)
    }
}

/// The text that describes an error.
pub open spec fn message_text(e: ComputeError) -> Seq<char> {
    match e {
        ComputeError::MatrixInversionFailed => "Matrix inversion failed"@,
        ComputeError::SolveFailure => "Linear system solve failed"@,
        ComputeError::ConvergenceFailure { iterations } => "Convergence not achieved after "@
            + decimal(iterations as int) + " iterations"@,
        ComputeError::InvalidDimensions => "Invalid input dimensions"@,
        ComputeError::AllocationError => "Memory allocation failed"@,
        ComputeError::Unknown(code) => "Unknown error (code: "@ + decimal(code as int) + ")"@,
    }
}

/// Digits collected least significant first, read back most significant first.
spec fn reversed_digits(digits: Seq<u8>) -> Seq<char> {
    Seq::new(digits.len(), |i: int| digit_char(digits[digits.len() - 1 - i] as int))
}

fn digit_str(d: u8) -> (s: &'static str)
    requires
        d < 10,
    ensures
        s@ == seq![digit_char(d as int)],
{
    proof {
        reveal_strlit("0");
        reveal_strlit("1");
        reveal_strlit("2");
        reveal_strlit("3");
        reveal_strlit("4");
        reveal_strlit("5");
        reveal_strlit("6");
        reveal_strlit("7");
        reveal_strlit("8");
        reveal_strlit("9");
    }
    let s = if d == 0 {
        "0"
    } else if d == 1 {
        "1"
    } else if d == 2 {
        "2"
    } else if d == 3 {
        "3"
    } else if d == 4 {
        "4"
    } else if d == 5 {
        "5"
    } else if d == 6 {
        "6"
    } else if d == 7 {
        "7"
    } else if d == 8 {
        "8"
    } else {
        "9"
    };
    assert(s@ =~= seq![digit_char(d as int)]);
    s
}

/// Appends the decimal notation of `n` to `out`.
#[verifier::rlimit(40)]
fn push_decimal(out: &mut String, n: i32)
    ensures
        final(out)@ == old(out)@ + decimal(n as int),
{
    let wide: i64 = n as i64;
    let magnitude: u64 = if wide < 0 {
        proof {
            reveal_strlit("-");
        }
        out.append("-");
        assert("-"@ =~= seq!['-']);
        (-wide) as u64
    } else {
        wide as u64
    };
    let ghost start = out@;
    let mut digits: Vec<u8> = Vec::new();
    let mut rest: u64 = magnitude;
    while rest >= 10
        invariant
            decimal_digits(magnitude as nat) == decimal_digits(rest as nat) + reversed_digits(
                digits@,
            ),
            forall|i: int| 0 <= i < digits@.len() ==> digits@[i] < 10,
        decreases rest,
    {
        let ghost before = digits@;
        digits.push((rest % 10) as u8);
        proof {
            let after = digits@;
            assert(reversed_digits(after) =~= seq![digit_char((rest % 10) as int)]
                + reversed_digits(before));
            assert(decimal_digits(rest as nat) == decimal_digits((rest / 10) as nat).push(
                digit_char((rest % 10) as int),
            ));
            assert(decimal_digits((rest / 10) as nat).push(digit_char((rest % 10) as int))
                + reversed_digits(before) =~= decimal_digits((rest / 10) as nat)
                + reversed_digits(after));
        }
        rest = rest / 10;
    }
    out.append(digit_str(rest as u8));
    let mut k: usize = digits.len();
    while k > 0
        invariant
            k <= digits@.len(),
            forall|i: int| 0 <= i < digits@.len() ==> digits@[i] < 10,
            out@ == start + decimal_digits(rest as nat) + reversed_digits(digits@).take(
                digits@.len() - k,
            ),
        decreases k,
    {
        k = k - 1;
        let ghost shown = reversed_digits(digits@).take(digits@.len() - k - 1);
        out.append(digit_str(digits[k]));
        proof {
            assert(reversed_digits(digits@).take(digits@.len() - k) =~= shown + seq![
                digit_char(digits@[k as int] as int),
            ]);
            assert(out@ =~= start + decimal_digits(rest as nat) + reversed_digits(digits@).take(
                digits@.len() - k,
            ));
        }
    }
    proof {
        assert(reversed_digits(digits@).take(digits@.len() as int) =~= reversed_digits(digits@));
        assert(out@ =~= old(out)@ + decimal(n as int));
    }
}

impl ComputeError {
    /// The text that describes the error, for a log or a message to the user.
    pub fn message(&self) -> (text: String)
        ensures
            text@ == message_text(*self),
    {
        match self {
            ComputeError::MatrixInversionFailed => String::from_str("Matrix inversion failed"),
            ComputeError::SolveFailure => String::from_str("Linear system solve failed"),
            ComputeError::ConvergenceFailure { iterations } => {
                let mut text = String::from_str("Convergence not achieved after ");
                push_decimal(&mut text, *iterations);
                text.append(" iterations");
                text
            },
            ComputeError::InvalidDimensions => String::from_str("Invalid input dimensions"),
            ComputeError::AllocationError => String::from_str("Memory allocation failed"),
            ComputeError::Unknown(code) => {
                let mut text = String::from_str("Unknown error (code: ");
                push_decimal(&mut text, *code);
                text.append(")");
                text
            },
        }
    }
}

} // verus!
