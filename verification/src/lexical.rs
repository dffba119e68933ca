//! Character classes, whitespace and digit runs, and the fixed tokens.

use vstd::prelude::*;
use vstd::wrapping::i64_specs::{signed_crop, wrapping_add, wrapping_mul};
use crate::error::{ErrorKind, Outcome, ParseError, outcome_of, tail, lemma_tail_tail};

verus! {

/// The characters with the Unicode property White_Space.
pub open spec fn is_space(c: char) -> bool {
    let n = c as u32;
    ||| 0x09 <= n <= 0x0d
    ||| n == 0x20
    ||| n == 0x85
    ||| n == 0xa0
    ||| n == 0x1680
    ||| 0x2000 <= n <= 0x200a
    ||| n == 0x2028
    ||| n == 0x2029
    ||| n == 0x202f
    ||| n == 0x205f
    ||| n == 0x3000
}

/// The ASCII digits `0` to `9`.
pub open spec fn is_digit(c: char) -> bool {
    '0' <= c <= '9'
}

/// The number a digit stands for.
pub open spec fn digit_value(c: char) -> int {
    c as u32 - 0x30
}

/// Whether the character `c` stands at offset `i` of `rest`.
pub open spec fn char_at(rest: Seq<char>, i: nat, c: char) -> bool {
    i < rest.len() && rest[i as int] == c
}

/// Length of the run of whitespace with which `rest` begins.
#[verifier::opaque]
pub open spec fn space_run(rest: Seq<char>) -> nat
    decreases rest.len(),
{
    if rest.len() > 0 && is_space(rest[0]) {
        1 + space_run(rest.skip(1))
    } else {
        0
    }
}

/// Length of the run of digits with which `rest` begins.
#[verifier::opaque]
pub open spec fn digit_run(rest: Seq<char>) -> nat
    decreases rest.len(),
{
    if rest.len() > 0 && is_digit(rest[0]) {
        1 + digit_run(rest.skip(1))
    } else {
        0
    }
}

/// Whether `c` is whitespace.
pub fn is_whitespace(c: char) -> (b: bool)
    ensures
        b == is_space(c),
{
    let n: u32 = c as u32;
    (0x09 <= n && n <= 0x0d) || n == 0x20 || n == 0x85 || n == 0xa0 || n == 0x1680 || (0x2000 <= n
        && n <= 0x200a) || n == 0x2028 || n == 0x2029 || n == 0x202f || n == 0x205f || n == 0x3000
}

/// Skips the whitespace that begins at `pos`; never fails.
pub fn spaces(input: &[char], pos: usize) -> (next: usize)
    ensures
        next == pos + space_run(tail(input@, pos as nat)),
{
    let mut i: usize = pos;
    while i < input.len() && is_whitespace(input[i])
        invariant
            pos <= i,
            i <= input.len() || i == pos,
            pos + space_run(tail(input@, pos as nat)) == i + space_run(tail(input@, i as nat)),
        decreases input.len() - i,
    {
        proof {
            reveal(space_run);
            lemma_tail_tail(input@, i as nat, 1);
        }
        i = i + 1;
    }
    proof {
        reveal(space_run);
    }
    i
}

/// What `lex` makes of a parser's outcome on `rest`: a success also takes
/// the whitespace that follows it, a failure stays as it is.
pub open spec fn lexed<T>(rest: Seq<char>, parsed: Outcome<T>) -> Outcome<T> {
    match parsed {
        Outcome::Parsed { value, next } => Outcome::Parsed {
            value,
            next: next + space_run(tail(rest, next)),
        },
        Outcome::Failed { .. } => parsed,
    }
}

/// Makes a parser insensitive to trailing whitespace: given what the parser
/// returned on `input`, a success is extended over the whitespace that
/// follows it, and a failure is handed back unchanged.
pub fn lex<T>(input: &[char], parsed: Result<(T, usize), ParseError>) -> (r: Result<
    (T, usize),
    ParseError,
>)
    ensures
        match parsed {
            Ok((value, next)) => r == Ok::<(T, usize), ParseError>(
                (value, (next + space_run(tail(input@, next as nat))) as usize),
            ) && next + space_run(tail(input@, next as nat)) <= usize::MAX,
            Err(e) => r == Err::<(T, usize), ParseError>(e),
        },
{
    match parsed {
        Ok((value, next)) => {
            let after = spaces(input, next);
            Ok((value, after))
        },
        Err(e) => Err(e),
    }
}

/// One digit.
pub open spec fn digit_spec(rest: Seq<char>) -> Outcome<char> {
    if rest.len() > 0 && is_digit(rest[0]) {
        Outcome::Parsed { value: rest[0], next: 1 }
    } else {
        Outcome::Failed { position: 0, kind: ErrorKind::ExpectedInteger, committed: false }
    }
}

/// Matches one ASCII digit at `pos`.
pub fn digit(input: &[char], pos: usize) -> (r: Result<(char, usize), ParseError>)
    ensures
        outcome_of(r) == digit_spec(tail(input@, pos as nat)).at(pos as nat),
{
    if pos < input.len() && '0' <= input[pos] && input[pos] <= '9' {
        Ok((input[pos], pos + 1))
    } else {
        Err(ParseError { position: pos, kind: ErrorKind::ExpectedInteger, committed: false })
    }
}

/// The number that a run of decimal digits writes, most significant digit first.
#[verifier::opaque]
pub open spec fn decimal(digits: Seq<char>) -> int
    decreases digits.len(),
{
    if digits.len() == 0 {
        0
    } else {
        decimal(digits.drop_last()) * 10 + digit_value(digits.last())
    }
}

/// One or more digits and the whitespace after them. The value is the
/// number the digits write, reduced into the range of `i64` as two's
/// complement arithmetic reduces it.
pub open spec fn integer_spec(rest: Seq<char>) -> Outcome<i64> {
    let n = digit_run(rest);
    if n == 0 {
        Outcome::Failed { position: 0, kind: ErrorKind::ExpectedInteger, committed: false }
    } else {
        lexed(rest, Outcome::Parsed { value: signed_crop(decimal(rest.take(n as int))), next: n })
    }
}

/// A run of digits is as long as it can be: digits up to its end, none
/// at its end.
pub proof fn lemma_digit_run_bound(rest: Seq<char>)
    ensures
        digit_run(rest) <= rest.len(),
        forall|i: int| 0 <= i < digit_run(rest) ==> is_digit(#[trigger] rest[i]),
        digit_run(rest) < rest.len() ==> !is_digit(rest[digit_run(rest) as int]),
    decreases rest.len(),
{
    reveal(digit_run);
    if rest.len() > 0 && is_digit(rest[0]) {
        lemma_digit_run_bound(rest.skip(1));
        assert forall|i: int| 0 <= i < digit_run(rest) implies is_digit(#[trigger] rest[i]) by {
            if i > 0 {
                assert(rest[i] == rest.skip(1)[i - 1]);
            }
        }
    }
}

/// A run of whitespace is as long as it can be: whitespace up to its
/// end, none at its end.
pub proof fn lemma_space_run_bound(rest: Seq<char>)
    ensures
        space_run(rest) <= rest.len(),
        forall|i: int| 0 <= i < space_run(rest) ==> is_space(#[trigger] rest[i]),
        space_run(rest) < rest.len() ==> !is_space(rest[space_run(rest) as int]),
    decreases rest.len(),
{
    reveal(space_run);
    if rest.len() > 0 && is_space(rest[0]) {
        lemma_space_run_bound(rest.skip(1));
        assert forall|i: int| 0 <= i < space_run(rest) implies is_space(#[trigger] rest[i]) by {
            if i > 0 {
                assert(rest[i] == rest.skip(1)[i - 1]);
            }
        }
    }
}

/// One step of the wrapping fold is one more digit of the number, reduced.
proof fn lemma_crop_step(a: int, d: int)
    requires
        0 <= d <= 9,
    ensures
        wrapping_add(wrapping_mul(signed_crop(a), 10), d as i64) == signed_crop(a * 10 + d),
{
    let r = 0x1_0000_0000_0000_0000int;
    let n = signed_crop(a) as int;
    assert((n * 10) % r == (a * 10) % r) by {
        vstd::arithmetic::div_mod::lemma_mul_mod_noop_left(a, 10, r);
        vstd::arithmetic::div_mod::lemma_mul_mod_noop_left(n, 10, r);
    }
    assert((a * 10 + d) % r == ((a * 10) % r + d) % r) by {
        vstd::arithmetic::div_mod::lemma_add_mod_noop(a * 10, d, r);
        vstd::arithmetic::div_mod::lemma_small_mod(d as nat, r as nat);
    }
}

/// An integer that was parsed took at least one character and no more
/// than there were; one that failed, failed within the text.
pub proof fn lemma_integer_bound(rest: Seq<char>)
    ensures
        integer_spec(rest) matches Outcome::Parsed { next, .. } ==> 0 < next <= rest.len(),
        integer_spec(rest).within(rest.len()),
{
    lemma_digit_run_bound(rest);
    lemma_space_run_bound(tail(rest, digit_run(rest)));
}

/// Parses one or more digits and the whitespace after them into a signed
/// 64-bit integer, folding left to right with wrapping arithmetic.
pub fn integer(input: &[char], pos: usize) -> (r: Result<(i64, usize), ParseError>)
    ensures
        outcome_of(r) == integer_spec(tail(input@, pos as nat)).at(pos as nat),
{
    let ghost rest = tail(input@, pos as nat);
    let mut i: usize = pos;
    let mut n: i64 = 0;
    proof {
        reveal(decimal);
        assert(rest.take(0) =~= Seq::<char>::empty());
    }
    while i < input.len() && '0' <= input[i] && input[i] <= '9'
        invariant
            pos <= i,
            i <= input.len() || i == pos,
            rest == tail(input@, pos as nat),
            digit_run(rest) == (i - pos) + digit_run(tail(input@, i as nat)),
            n == signed_crop(decimal(rest.take(i - pos))),
        decreases input.len() - i,
    {
        let d: u32 = input[i] as u32 - '0' as u32;
        proof {
            reveal(digit_run);
            reveal(decimal);
            lemma_tail_tail(input@, i as nat, 1);
            let k = i - pos;
            assert(rest.take(k + 1).drop_last() =~= rest.take(k));
            assert(rest.take(k + 1).last() == input@[i as int]);
            lemma_crop_step(decimal(rest.take(k)), d as int);
        }
        n = n.wrapping_mul(10).wrapping_add(d as i64);
        i = i + 1;
    }
    proof {
        reveal(digit_run);
        lemma_tail_tail(input@, pos as nat, (i - pos) as nat);
    }
    if i == pos {
        Err(ParseError { position: pos, kind: ErrorKind::ExpectedInteger, committed: false })
    } else {
        lex(input, Ok((n, i)))
    }
}

/// One given character and the whitespace after it.
pub open spec fn symbol_spec(rest: Seq<char>, c: char) -> Outcome<()> {
    if rest.len() > 0 && rest[0] == c {
        lexed(rest, Outcome::Parsed { value: (), next: 1 })
    } else {
        Outcome::Failed { position: 0, kind: ErrorKind::ExpectedChar(c), committed: false }
    }
}

/// Matches the punctuation character `c` at `pos` and skips the whitespace
/// after it.
pub fn symbol(input: &[char], pos: usize, c: char) -> (r: Result<((), usize), ParseError>)
    ensures
        outcome_of(r) == symbol_spec(tail(input@, pos as nat), c).at(pos as nat),
{
    if pos < input.len() && input[pos] == c {
        proof {
            lemma_tail_tail(input@, pos as nat, 1);
        }
        lex(input, Ok(((), pos + 1)))
    } else {
        Err(ParseError { position: pos, kind: ErrorKind::ExpectedChar(c), committed: false })
    }
}

/// Number of leading characters in which `rest` and `word` agree.
#[verifier::opaque]
pub open spec fn matched(rest: Seq<char>, word: Seq<char>) -> nat
    decreases word.len(),
{
    if rest.len() > 0 && word.len() > 0 && rest[0] == word[0] {
        1 + matched(rest.skip(1), word.skip(1))
    } else {
        0
    }
}

/// The fixed text `word` and the whitespace after it. A mismatch on the
/// first character consumes nothing; a later one is final.
pub open spec fn keyword_spec(rest: Seq<char>, word: Seq<char>) -> Outcome<()> {
    let n = matched(rest, word);
    if n >= word.len() {
        lexed(rest, Outcome::Parsed { value: (), next: n })
    } else {
        Outcome::Failed {
            position: n,
            kind: ErrorKind::ExpectedChar(word[n as int]),
            committed: n > 0,
        }
    }
}

/// Two texts agree in no more characters than either has.
pub proof fn lemma_matched_bound(rest: Seq<char>, word: Seq<char>)
    ensures
        matched(rest, word) <= rest.len(),
        matched(rest, word) <= word.len(),
    decreases word.len(),
{
    reveal(matched);
    if rest.len() > 0 && word.len() > 0 && rest[0] == word[0] {
        lemma_matched_bound(rest.skip(1), word.skip(1));
    }
}

/// A symbol that was parsed took at least one character and no more than
/// there were; one that failed, failed within the text.
pub proof fn lemma_symbol_bound(rest: Seq<char>, c: char)
    ensures
        symbol_spec(rest, c) matches Outcome::Parsed { next, .. } ==> 0 < next <= rest.len(),
        symbol_spec(rest, c).within(rest.len()),
{
    lemma_space_run_bound(tail(rest, 1));
}

/// A literal that was parsed took at least one character and no more
/// than there were; one that failed, failed within the text.
pub proof fn lemma_keyword_bound(rest: Seq<char>, word: Seq<char>)
    requires
        word.len() > 0,
    ensures
        keyword_spec(rest, word) matches Outcome::Parsed { next, .. } ==> 0 < next <= rest.len(),
        keyword_spec(rest, word).within(rest.len()),
{
    lemma_matched_bound(rest, word);
    lemma_space_run_bound(tail(rest, matched(rest, word)));
}

/// Matches the literal `word` at `pos` and skips the whitespace after it.
pub fn keyword(input: &[char], pos: usize, word: &[char]) -> (r: Result<((), usize), ParseError>)
    ensures
        outcome_of(r) == keyword_spec(tail(input@, pos as nat), word@).at(pos as nat),
{
    let ghost rest = tail(input@, pos as nat);
    let room: usize = if pos <= input.len() {
        input.len() - pos
    } else {
        0
    };
    let mut i: usize = 0;
    proof {
        assert(rest.skip(0) =~= rest);
        assert(word@.skip(0) =~= word@);
    }
    while i < word.len() && i < room && input[pos + i] == word[i]
        invariant
            i <= word.len(),
            i <= room,
            room == rest.len(),
            rest == tail(input@, pos as nat),
            room > 0 ==> pos + room == input.len(),
            matched(rest, word@) == i + matched(rest.skip(i as int), word@.skip(i as int)),
        decreases word.len() - i,
    {
        proof {
            reveal(matched);
            assert(rest.skip(i as int).skip(1) =~= rest.skip(i + 1));
            assert(word@.skip(i as int).skip(1) =~= word@.skip(i + 1));
        }
        i = i + 1;
    }
    proof {
        reveal(matched);
        assert(i < word.len() ==> matched(rest.skip(i as int), word@.skip(i as int)) == 0);
    }
    if i == word.len() {
        proof {
            lemma_matched_bound(rest.skip(i as int), word@.skip(i as int));
            lemma_tail_tail(input@, pos as nat, i as nat);
            lemma_space_run_bound(tail(rest, i as nat));
        }
        if pos <= input.len() {
            lex(input, Ok(((), pos + i)))
        } else {
            Ok(((), pos))
        }
    } else {
        proof {
            lemma_matched_bound(rest.skip(i as int), word@.skip(i as int));
        }
        Err(
            ParseError {
                position: if pos <= input.len() {
                    pos + i
                } else {
                    pos
                },
                kind: ErrorKind::ExpectedChar(word[i]),
                committed: i > 0,
            },
        )
    }
}

} // verus!
