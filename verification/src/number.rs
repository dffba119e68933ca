//! Numbers: sign, integer part, fraction and exponent.
//!
//! A number is kept as the parts that were read, exactly: no rounding takes
//! place in this library.

use vstd::prelude::*;
use crate::error::{ErrorKind, Outcome, ParseError, outcome_of, tail, lemma_tail_tail};
use crate::lexical::{
    char_at,
    digit_run,
    digit_value,
    integer,
    integer_spec,
    lemma_digit_run_bound,
    lemma_integer_bound,
    lemma_space_run_bound,
    lex,
    lexed,
};

verus! {

/// The exponent of a number: the digits after `e` or `E`, and whether a
/// minus sign stood before them.
#[derive(Clone, Copy, Debug, PartialEq, Eq, Structural)]
pub struct Exponent {
    pub negative: bool,
    pub digits: i64,
}

impl Exponent {
    /// The power of ten that the exponent asks for: its digits, negated
    /// with wrapping where a minus sign stood before them, cut to 32 bits.
    pub open spec fn power_spec(self) -> i32 {
        if self.negative {
            vstd::wrapping::i64_specs::wrapping_sub(0i64, self.digits) as i32
        } else {
            self.digits as i32
        }
    }

    /// The power of ten by which the number before the exponent is scaled.
    pub fn power(&self) -> (r: i32)
        ensures
            r == self.power_spec(),
    {
        let signed: i64 = if self.negative {
            0i64.wrapping_sub(self.digits)
        } else {
            self.digits
        };
        #[verifier::truncate]
        (signed as i32)
    }
}

/// A number as written.
#[derive(Clone, Debug, PartialEq, Eq)]
pub struct Number {
    /// Whether the number begins with a minus sign.
    pub negative: bool,
    /// The digits before the fraction, as an integer.
    pub integer: i64,
    /// The digits after the decimal point, each as its value from 0 to 9;
    /// empty when there is no point or no digit follows it.
    pub fraction: Vec<u8>,
    pub exponent: Option<Exponent>,
}

/// The mathematical content of a `Number`.
pub struct NumberView {
    pub negative: bool,
    pub integer: i64,
    pub fraction: Seq<u8>,
    pub exponent: Option<Exponent>,
}

impl View for Number {
    type V = NumberView;

    open spec fn view(&self) -> NumberView {
        NumberView {
            negative: self.negative,
            integer: self.integer,
            fraction: self.fraction@,
            exponent: self.exponent,
        }
    }
}

impl Number {
    /// Whether two numbers are written with the same parts.
    pub fn same(&self, other: &Number) -> (r: bool)
        ensures
            r == (self@ == other@),
    {
        if self.negative != other.negative || self.integer != other.integer {
            return false;
        }
        let alike = match (self.exponent, other.exponent) {
            (None, None) => true,
            (Some(a), Some(b)) => a.negative == b.negative && a.digits == b.digits,
            _ => false,
        };
        if !alike || self.fraction.len() != other.fraction.len() {
            return false;
        }
        let mut i: usize = 0;
        while i < self.fraction.len()
            invariant
                i <= self.fraction.len(),
                self.fraction.len() == other.fraction.len(),
                forall|k: int| 0 <= k < i ==> self.fraction@[k] == other.fraction@[k],
            decreases self.fraction.len() - i,
        {
            if self.fraction[i] != other.fraction[i] {
                return false;
            }
            i = i + 1;
        }
        proof {
            assert(self.fraction@ =~= other.fraction@);
        }
        true
    }
}

impl NumberView {
    /// Every entry of the fraction is a digit's value.
    pub open spec fn wf(self) -> bool {
        forall|i: int| 0 <= i < self.fraction.len() ==> #[trigger] self.fraction[i] <= 9
    }
}

/// The values of the digits with which `rest` begins.
pub open spec fn fraction_digits(rest: Seq<char>) -> Seq<u8> {
    Seq::new(digit_run(rest), |i: int| digit_value(rest[i]) as u8)
}

/// The integer part of a number: a single `0`, or else a run of digits
/// with the whitespace after it.
#[verifier::opaque]
pub open spec fn whole_spec(rest: Seq<char>) -> Outcome<i64> {
    if char_at(rest, 0, '0') {
        Outcome::Parsed { value: 0i64, next: 1 }
    } else {
        integer_spec(rest)
    }
}

/// The fraction of a number, which never fails: the digits after a point
/// and the length of point and digits, or nothing and zero.
#[verifier::opaque]
pub open spec fn fraction_spec(rest: Seq<char>) -> (Seq<u8>, nat) {
    if char_at(rest, 0, '.') {
        (fraction_digits(tail(rest, 1)), 1 + digit_run(tail(rest, 1)))
    } else {
        (Seq::empty(), 0)
    }
}

/// The exponent of a number: `e` or `E`, an optional minus sign and an
/// integer, or nothing. After the letter the integer is owed.
#[verifier::opaque]
pub open spec fn exponent_spec(rest: Seq<char>) -> Outcome<Option<Exponent>> {
    if char_at(rest, 0, 'e') || char_at(rest, 0, 'E') {
        let down = char_at(rest, 1, '-');
        let d: nat = if down {
            2
        } else {
            1
        };
        match integer_spec(tail(rest, d)) {
            Outcome::Parsed { value: digits, next } => Outcome::Parsed {
                value: Some(Exponent { negative: down, digits }),
                next: d + next,
            },
            Outcome::Failed { .. } => Outcome::Failed {
                position: d,
                kind: ErrorKind::ExpectedInteger,
                committed: true,
            },
        }
    } else {
        Outcome::Parsed { value: None, next: 0 }
    }
}

/// A number without the whitespace after it: an optional minus sign, the
/// integer part, the fraction and the exponent.
#[verifier::opaque]
pub open spec fn number_body(rest: Seq<char>) -> Outcome<NumberView> {
    let negative = char_at(rest, 0, '-');
    let a: nat = if negative {
        1
    } else {
        0
    };
    match whole_spec(tail(rest, a)) {
        Outcome::Failed { .. } => if negative {
            Outcome::Failed { position: 1, kind: ErrorKind::ExpectedInteger, committed: true }
        } else {
            Outcome::Failed { position: 0, kind: ErrorKind::ExpectedNumber, committed: false }
        },
        Outcome::Parsed { value: integer, next } => {
            let b: nat = a + next;
            let (fraction, length) = fraction_spec(tail(rest, b));
            let c: nat = b + length;
            match exponent_spec(tail(rest, c)) {
                Outcome::Failed { position, kind, .. } => Outcome::Failed {
                    position: c + position,
                    kind,
                    committed: true,
                },
                Outcome::Parsed { value: exponent, next } => Outcome::Parsed {
                    value: NumberView { negative, integer, fraction, exponent },
                    next: c + next,
                },
            }
        },
    }
}

/// A number and the whitespace after it.
pub open spec fn number_spec(rest: Seq<char>) -> Outcome<NumberView> {
    lexed(rest, number_body(rest))
}

/// A number that was parsed took at least one character and no more than
/// there were; one that failed, failed within the text.
pub proof fn lemma_number_bound(rest: Seq<char>)
    ensures
        number_body(rest) matches Outcome::Parsed { next, .. } ==> 0 < next <= rest.len(),
        number_spec(rest) matches Outcome::Parsed { next, .. } ==> 0 < next <= rest.len(),
        number_body(rest).within(rest.len()),
        number_spec(rest).within(rest.len()),
{
    reveal(number_body);
    reveal(whole_spec);
    reveal(fraction_spec);
    reveal(exponent_spec);
    let a: nat = if char_at(rest, 0, '-') {
        1
    } else {
        0
    };
    lemma_integer_bound(tail(rest, a));
    if let Outcome::Parsed { next, .. } = whole_spec(tail(rest, a)) {
        let b: nat = a + next;
        lemma_digit_run_bound(tail(tail(rest, b), 1));
        let c: nat = b + fraction_spec(tail(rest, b)).1;
        let d: nat = if char_at(tail(rest, c), 1, '-') {
            2
        } else {
            1
        };
        lemma_integer_bound(tail(tail(rest, c), d));
        if let Outcome::Parsed { next, .. } = number_body(rest) {
            lemma_space_run_bound(tail(rest, next));
        }
    }
}

/// Parses the integer part of a number at `pos`.
fn whole(input: &[char], pos: usize) -> (r: Result<(i64, usize), ParseError>)
    ensures
        outcome_of(r) == whole_spec(tail(input@, pos as nat)).at(pos as nat),
        r matches Ok((_, next)) ==> pos < next <= input.len(),
{
    proof {
        reveal(whole_spec);
        lemma_integer_bound(tail(input@, pos as nat));
    }
    if pos < input.len() && input[pos] == '0' {
        Ok((0i64, pos + 1))
    } else {
        integer(input, pos)
    }
}

/// Reads the fraction of a number at `pos`, if there is one.
fn fraction(input: &[char], pos: usize) -> (r: (Vec<u8>, usize))
    requires
        pos <= input.len(),
    ensures
        r.0@ == fraction_spec(tail(input@, pos as nat)).0,
        r.1 == pos + fraction_spec(tail(input@, pos as nat)).1,
        r.1 <= input.len(),
        forall|i: int| 0 <= i < r.0@.len() ==> #[trigger] r.0@[i] <= 9,
{
    let mut digits: Vec<u8> = Vec::new();
    proof {
        reveal(fraction_spec);
    }
    if pos < input.len() && input[pos] == '.' {
        let from: usize = pos + 1;
        let ghost run = tail(input@, from as nat);
        let mut i: usize = from;
        while i < input.len() && '0' <= input[i] && input[i] <= '9'
            invariant
                from <= i <= input.len(),
                run == tail(input@, from as nat),
                digit_run(run) == (i - from) + digit_run(tail(input@, i as nat)),
                digits@.len() == i - from,
                forall|k: int|
                    0 <= k < digits@.len() ==> #[trigger] digits@[k] == digit_value(run[k]) as u8
                        && digits@[k] <= 9,
            decreases input.len() - i,
        {
            proof {
                reveal(digit_run);
                lemma_tail_tail(input@, i as nat, 1);
            }
            let d: u32 = input[i] as u32 - '0' as u32;
            digits.push(d as u8);
            i = i + 1;
        }
        proof {
            reveal(digit_run);
            reveal(fraction_spec);
            lemma_tail_tail(input@, pos as nat, 1);
            assert(digits@ =~= fraction_digits(run));
        }
        (digits, i)
    } else {
        (digits, pos)
    }
}

/// Parses the exponent of a number at `pos`, if there is one.
fn exponent(input: &[char], pos: usize) -> (r: Result<(Option<Exponent>, usize), ParseError>)
    requires
        pos <= input.len(),
    ensures
        outcome_of(r) == exponent_spec(tail(input@, pos as nat)).at(pos as nat),
        r matches Ok((_, next)) ==> pos <= next <= input.len(),
{
    proof {
        reveal(exponent_spec);
    }
    if pos < input.len() && (input[pos] == 'e' || input[pos] == 'E') {
        let down = pos + 1 < input.len() && input[pos + 1] == '-';
        let from: usize = if down {
            pos + 2
        } else {
            pos + 1
        };
        proof {
            lemma_tail_tail(input@, pos as nat, (from - pos) as nat);
            lemma_integer_bound(tail(input@, from as nat));
        }
        match integer(input, from) {
            Ok((digits, next)) => Ok((Some(Exponent { negative: down, digits }), next)),
            Err(_) => Err(
                ParseError { position: from, kind: ErrorKind::ExpectedInteger, committed: true },
            ),
        }
    } else {
        Ok((None, pos))
    }
}

/// Parses a number at `pos` and skips the whitespace after it. Where no
/// sign and no digit begins a number, nothing is consumed.
pub fn number(input: &[char], pos: usize) -> (r: Result<(Number, usize), ParseError>)
    ensures
        outcome_of(r) == number_spec(tail(input@, pos as nat)).at(pos as nat),
        r matches Ok((n, _)) ==> n@.wf(),
{
    let negative = pos < input.len() && input[pos] == '-';
    let start: usize = if negative {
        pos + 1
    } else {
        pos
    };
    proof {
        reveal(number_body);
        lemma_tail_tail(input@, pos as nat, (start - pos) as nat);
    }
    let (integer, after_whole) = match whole(input, start) {
        Ok(found) => found,
        Err(_) => {
            return Err(
                if negative {
                    ParseError {
                        position: start,
                        kind: ErrorKind::ExpectedInteger,
                        committed: true,
                    }
                } else {
                    ParseError { position: pos, kind: ErrorKind::ExpectedNumber, committed: false }
                },
            );
        },
    };
    proof {
        lemma_tail_tail(input@, pos as nat, (after_whole - pos) as nat);
    }
    let (fraction, after_fraction) = fraction(input, after_whole);
    proof {
        lemma_tail_tail(input@, pos as nat, (after_fraction - pos) as nat);
    }
    match exponent(input, after_fraction) {
        Ok((exponent, end)) => {
            proof {
                lemma_tail_tail(input@, pos as nat, (end - pos) as nat);
            }
            lex(input, Ok((Number { negative, integer, fraction, exponent }, end)))
        },
        Err(e) => Err(ParseError { position: e.position, kind: e.kind, committed: true }),
    }
}

} // verus!
