//! Whitespace between tokens does not matter: inserting more of it at any
//! place that is not inside a string, a number or a literal leaves the
//! parsed value as it was.
//!
//! The laws stand first, with the predicates that say where whitespace may
//! go in. Their proof follows the grammar: for each parser there is a lemma
//! that whitespace inserted between its tokens or behind them carries its
//! outcome over, the value unchanged and the end moved along.

use vstd::prelude::*;
use crate::error::{Outcome, tail, lemma_tail_tail};
use crate::lexical::{
    char_at,
    digit_run,
    integer_spec,
    is_digit,
    is_space,
    keyword_spec,
    lemma_digit_run_bound,
    lemma_integer_bound,
    lemma_matched_bound,
    lemma_space_run_bound,
    lemma_symbol_bound,
    matched,
    space_run,
    symbol_spec,
};
use crate::number::{
    exponent_spec,
    fraction_digits,
    fraction_spec,
    number_body,
    number_spec,
    whole_spec,
};
use crate::string::{
    json_char_spec,
    json_string_spec,
    lemma_body_bound,
    lemma_string_bound,
    string_body,
};
use crate::grammar::{
    array_spec,
    container_spec,
    json_value_spec,
    lemma_container_bound,
    lemma_container_unfold,
    lemma_member_bound,
    lemma_member_unfold,
    lemma_members_bound,
    lemma_members_unfold,
    lemma_more_members_bound,
    lemma_more_members_unfold,
    lemma_object_unfold,
    lemma_value_bound,
    lemma_value_unfold,
    member_spec,
    members_spec,
    more_members,
    object_spec,
    value_spec,
    word_false,
    word_null,
    word_true,
};

verus! {

/// Whether `w` holds nothing but whitespace.
pub open spec fn all_space(w: Seq<char>) -> bool {
    forall|i: int| 0 <= i < w.len() ==> is_space(#[trigger] w[i])
}

/// `rest` with `w` put in before offset `p`.
#[verifier::opaque]
pub open spec fn inserted(rest: Seq<char>, p: nat, w: Seq<char>) -> Seq<char> {
    rest.take(p as int) + w + rest.skip(p as int)
}

/// Whether `rest` holds nothing but whitespace from offset `p` up to `n`:
/// then `p` lies in or after the whitespace that ends a token of length `n`.
pub open spec fn trailing(rest: Seq<char>, n: nat, p: nat) -> bool {
    forall|i: int| p <= i < n ==> is_space(#[trigger] rest[i])
}

/// Where the offset `n` has moved to when `k` characters went in at `p`.
pub open spec fn moved(n: nat, p: nat, k: nat) -> nat {
    if p <= n {
        n + k
    } else {
        n
    }
}

/// A parser's outcome once `k` characters have gone in at `p`: a success
/// keeps its value and ends where its end has moved to.
pub open spec fn carried<T>(parsed: Outcome<T>, p: nat, k: nat) -> Outcome<T> {
    match parsed {
        Outcome::Parsed { value, next } => Outcome::Parsed { value, next: moved(next, p, k) },
        Outcome::Failed { .. } => parsed,
    }
}

/// Whether the offset `p` of a document lies where whitespace may go in:
/// in the whitespace before the value, between two tokens of the value, or
/// behind the value.
pub open spec fn document_gap(input: Seq<char>, depth: nat, p: nat) -> bool {
    p <= space_run(input) || value_gap(
        tail(input, space_run(input)),
        depth,
        (p - space_run(input)) as nat,
    )
}

/// The same for the value parsed at the start of `rest`: whether the
/// offset `p` lies between its tokens or behind it, so not inside a
/// string, a number or a literal, and not before its first character.
pub open spec fn value_gap(rest: Seq<char>, depth: nat, p: nat) -> bool
    decreases depth, rest.len(), 2nat,
{
    if char_at(rest, 0, '{') {
        container_gap(rest, depth, '{', '}', true, p)
    } else if char_at(rest, 0, '[') {
        container_gap(rest, depth, '[', ']', false, p)
    } else {
        trailing(rest, value_spec(rest, depth)->next, p)
    }
}

/// The same for a container: in the whitespace after its opening symbol,
/// between the tokens of its members, or after its closing symbol.
pub open spec fn container_gap(
    rest: Seq<char>,
    depth: nat,
    open: char,
    close: char,
    keyed: bool,
    p: nat,
) -> bool
    decreases depth, rest.len(), 0nat,
{
    match symbol_spec(rest, open) {
        Outcome::Failed { .. } => true,
        Outcome::Parsed { next: a, .. } => if p <= a {
            trailing(rest, a, p)
        } else if depth == 0 {
            true
        } else {
            match members_spec(tail(rest, a), (depth - 1) as nat, keyed) {
                Outcome::Failed { .. } => true,
                Outcome::Parsed { next: b, .. } => if p - a <= b {
                    members_gap(tail(rest, a), (depth - 1) as nat, keyed, (p - a) as nat)
                } else {
                    trailing(
                        tail(rest, a + b),
                        symbol_spec(tail(rest, a + b), close)->next,
                        (p - a - b) as nat,
                    )
                },
            }
        },
    }
}

/// The same for a list of members.
pub open spec fn members_gap(rest: Seq<char>, depth: nat, keyed: bool, p: nat) -> bool
    decreases depth, rest.len(), 5nat,
{
    match member_spec(rest, depth, keyed) {
        Outcome::Failed { .. } => true,
        Outcome::Parsed { next: a, .. } => if p <= a {
            member_gap(rest, depth, keyed, p)
        } else {
            more_gap(tail(rest, a), depth, keyed, (p - a) as nat)
        },
    }
}

/// The same for the members after the first, each with its comma.
pub open spec fn more_gap(rest: Seq<char>, depth: nat, keyed: bool, p: nat) -> bool
    decreases depth, rest.len(), 4nat,
{
    match symbol_spec(rest, ',') {
        Outcome::Failed { .. } => true,
        Outcome::Parsed { next: a, .. } => if p <= a {
            trailing(rest, a, p)
        } else {
            match member_spec(tail(rest, a), depth, keyed) {
                Outcome::Failed { .. } => true,
                Outcome::Parsed { next: b, .. } => if p - a <= b {
                    member_gap(tail(rest, a), depth, keyed, (p - a) as nat)
                } else {
                    more_gap(tail(rest, a + b), depth, keyed, (p - a - b) as nat)
                },
            }
        },
    }
}

/// The same for one member: after its key, after its colon, or in its
/// value.
pub open spec fn member_gap(rest: Seq<char>, depth: nat, keyed: bool, p: nat) -> bool
    decreases depth, rest.len(), 3nat,
{
    if !keyed {
        value_gap(rest, depth, p)
    } else {
        match json_string_spec(rest) {
            Outcome::Failed { .. } => true,
            Outcome::Parsed { next: a, .. } => if p <= a {
                trailing(rest, a, p)
            } else {
                match symbol_spec(tail(rest, a), ':') {
                    Outcome::Failed { .. } => true,
                    Outcome::Parsed { next: b, .. } => if p - a <= b {
                        trailing(tail(rest, a), b, (p - a) as nat)
                    } else {
                        value_gap(tail(rest, a + b), depth, (p - a - b) as nat)
                    },
                }
            },
        }
    }
}

/// Whitespace insensitivity. Take a document that parses, a place in it
/// that lies in the whitespace before the value, between two tokens of the
/// value, or behind the value, and any text of whitespace: spaces, tabs,
/// newlines or other characters that count as whitespace. With that text
/// inserted at that place the document parses to the same value, and the
/// parse ends at the same place of the text as before.
pub proof fn lemma_whitespace_insensitive(input: Seq<char>, depth: nat, p: nat, w: Seq<char>)
    requires
        json_value_spec(input, depth) is Parsed,
        document_gap(input, depth, p),
        p <= input.len(),
        all_space(w),
    ensures
        json_value_spec(inserted(input, p, w), depth) == carried(
            json_value_spec(input, depth),
            p,
            w.len(),
        ),
{
    let k = w.len();
    let g = space_run(input);
    lemma_space_run_bound(input);
    lemma_space_run_insert(input, p, w);
    lemma_value_bound(tail(input, g), depth);
    if p <= g {
        lemma_inserted_tail_after(input, p, w, g);
    } else {
        lemma_inserted_tail_before(input, p, w, g);
        lemma_value_insert(tail(input, g), depth, (p - g) as nat, w);
    }
}

/// The text after a list of insertions, done one after the other: each is
/// a place in the text as it then stands and what goes in there.
pub open spec fn spaced(input: Seq<char>, steps: Seq<(nat, Seq<char>)>) -> Seq<char>
    decreases steps.len(),
{
    if steps.len() == 0 {
        input
    } else {
        inserted(spaced(input, steps.drop_last()), steps.last().0, steps.last().1)
    }
}

/// Whether each insertion of the list puts whitespace at a place that
/// `document_gap` allows in the text as it stands by then.
pub open spec fn between_tokens(input: Seq<char>, depth: nat, steps: Seq<(nat, Seq<char>)>) -> bool
    decreases steps.len(),
{
    steps.len() == 0 || {
        let before = spaced(input, steps.drop_last());
        &&& between_tokens(input, depth, steps.drop_last())
        &&& all_space(steps.last().1)
        &&& steps.last().0 <= before.len()
        &&& document_gap(before, depth, steps.last().0)
    }
}

/// Whitespace insensitivity, for any number of insertions: a document that
/// parses still parses, and to the same value, after whitespace has been
/// inserted at places between its tokens, however often.
pub proof fn lemma_whitespace_insensitive_repeated(
    input: Seq<char>,
    depth: nat,
    steps: Seq<(nat, Seq<char>)>,
)
    requires
        json_value_spec(input, depth) is Parsed,
        between_tokens(input, depth, steps),
    ensures
        json_value_spec(spaced(input, steps), depth) is Parsed,
        json_value_spec(spaced(input, steps), depth)->value == json_value_spec(
            input,
            depth,
        )->value,
    decreases steps.len(),
{
    if steps.len() > 0 {
        lemma_whitespace_insensitive_repeated(input, depth, steps.drop_last());
        lemma_whitespace_insensitive(
            spaced(input, steps.drop_last()),
            depth,
            steps.last().0,
            steps.last().1,
        );
    }
}

/// What is left of the longer text from an offset before the insertion.
pub proof fn lemma_inserted_tail_before(rest: Seq<char>, p: nat, w: Seq<char>, q: nat)
    requires
        q <= p <= rest.len(),
    ensures
        tail(inserted(rest, p, w), q) == inserted(tail(rest, q), (p - q) as nat, w),
{
    reveal(inserted);
    assert(tail(inserted(rest, p, w), q) =~= inserted(tail(rest, q), (p - q) as nat, w));
}

/// What is left of the longer text from an offset after the insertion.
pub proof fn lemma_inserted_tail_after(rest: Seq<char>, p: nat, w: Seq<char>, q: nat)
    requires
        p <= q,
        p <= rest.len(),
    ensures
        tail(inserted(rest, p, w), q + w.len()) == tail(rest, q),
{
    reveal(inserted);
    assert(tail(inserted(rest, p, w), q + w.len()) =~= tail(rest, q));
}

/// A run of whitespace has the length `n` when whitespace stands at every
/// offset before `n` and none at `n`.
pub proof fn lemma_space_run_is(rest: Seq<char>, n: nat)
    requires
        n <= rest.len(),
        forall|i: int| 0 <= i < n ==> is_space(#[trigger] rest[i]),
        n < rest.len() ==> !is_space(rest[n as int]),
    ensures
        space_run(rest) == n,
    decreases n,
{
    reveal(space_run);
    if n > 0 {
        let next = rest.skip(1);
        assert forall|i: int| 0 <= i < n - 1 implies is_space(#[trigger] next[i]) by {
            assert(next[i] == rest[i + 1]);
        }
        lemma_space_run_is(next, (n - 1) as nat);
    }
}

/// A run of digits has the length `n` when a digit stands at every offset
/// before `n` and none at `n`.
pub proof fn lemma_digit_run_is(rest: Seq<char>, n: nat)
    requires
        n <= rest.len(),
        forall|i: int| 0 <= i < n ==> is_digit(#[trigger] rest[i]),
        n < rest.len() ==> !is_digit(rest[n as int]),
    ensures
        digit_run(rest) == n,
    decreases n,
{
    reveal(digit_run);
    if n > 0 {
        let next = rest.skip(1);
        assert forall|i: int| 0 <= i < n - 1 implies is_digit(#[trigger] next[i]) by {
            assert(next[i] == rest[i + 1]);
        }
        lemma_digit_run_is(next, (n - 1) as nat);
    }
}

/// Whitespace that goes into or right after a run of whitespace makes the
/// run longer; anywhere else it leaves the run alone.
pub proof fn lemma_space_run_insert(rest: Seq<char>, p: nat, w: Seq<char>)
    requires
        p <= rest.len(),
        all_space(w),
    ensures
        space_run(inserted(rest, p, w)) == moved(space_run(rest), p, w.len()),
{
    reveal(inserted);
    let g = space_run(rest);
    let longer = inserted(rest, p, w);
    lemma_space_run_bound(rest);
    if p <= g {
        assert forall|i: int| 0 <= i < g + w.len() implies is_space(#[trigger] longer[i]) by {
            if i < p {
                assert(longer[i] == rest[i]);
            } else if i < p + w.len() {
                assert(longer[i] == w[i - p]);
            } else {
                assert(longer[i] == rest[i - w.len()]);
            }
        }
        if g < rest.len() {
            assert(longer[(g + w.len()) as int] == rest[g as int]);
        }
        lemma_space_run_is(longer, g + w.len());
    } else {
        assert forall|i: int| 0 <= i < g implies is_space(#[trigger] longer[i]) by {
            assert(longer[i] == rest[i]);
        }
        assert(longer[g as int] == rest[g as int]);
        lemma_space_run_is(longer, g);
    }
}

/// Whitespace that goes in at or after the end of a run of digits leaves
/// the run alone.
pub proof fn lemma_digit_run_insert(rest: Seq<char>, p: nat, w: Seq<char>)
    requires
        digit_run(rest) <= p <= rest.len(),
        all_space(w),
    ensures
        digit_run(inserted(rest, p, w)) == digit_run(rest),
{
    reveal(inserted);
    let d = digit_run(rest);
    let longer = inserted(rest, p, w);
    lemma_digit_run_bound(rest);
    assert forall|i: int| 0 <= i < d implies is_digit(#[trigger] longer[i]) by {
        assert(longer[i] == rest[i]);
    }
    if d < longer.len() {
        if d < p {
            assert(longer[d as int] == rest[d as int]);
        } else if w.len() > 0 {
            assert(longer[d as int] == w[0]);
        } else {
            assert(longer[d as int] == rest[d as int]);
        }
    }
    lemma_digit_run_is(longer, d);
}

/// The whitespace after a token that ends at `e`, when whitespace goes in
/// at or after `e`.
pub proof fn lemma_lexed_insert(rest: Seq<char>, e: nat, p: nat, w: Seq<char>)
    requires
        e <= p <= rest.len(),
        all_space(w),
    ensures
        e + space_run(tail(inserted(rest, p, w), e)) == moved(
            e + space_run(tail(rest, e)),
            p,
            w.len(),
        ),
{
    lemma_inserted_tail_before(rest, p, w, e);
    lemma_space_run_insert(tail(rest, e), (p - e) as nat, w);
}

/// Whitespace after a punctuation character is absorbed.
pub proof fn lemma_symbol_insert(rest: Seq<char>, c: char, p: nat, w: Seq<char>)
    requires
        symbol_spec(rest, c) is Parsed,
        1 <= p <= rest.len(),
        all_space(w),
    ensures
        symbol_spec(inserted(rest, p, w), c) == carried(symbol_spec(rest, c), p, w.len()),
{
    reveal(inserted);
    assert(inserted(rest, p, w)[0] == rest[0]);
    lemma_lexed_insert(rest, 1, p, w);
}

/// A text begins with all of `word` exactly when `matched` says so.
proof fn lemma_matched_whole(rest: Seq<char>, word: Seq<char>)
    ensures
        matched(rest, word) == word.len() <==> word.len() <= rest.len() && rest.take(
            word.len() as int,
        ) == word,
    decreases word.len(),
{
    reveal(matched);
    lemma_matched_bound(rest, word);
    if rest.len() > 0 && word.len() > 0 {
        lemma_matched_whole(rest.skip(1), word.skip(1));
        lemma_matched_bound(rest.skip(1), word.skip(1));
        if rest[0] == word[0] {
            if word.len() <= rest.len() {
                let a = rest.take(word.len() as int);
                let b = rest.skip(1).take(word.len() - 1);
                if a == word {
                    assert(b =~= word.skip(1));
                }
                if b == word.skip(1) {
                    assert forall|i: int| 0 <= i < word.len() implies a[i] == word[i] by {
                        if i > 0 {
                            assert(a[i] == b[i - 1]);
                            assert(word[i] == word.skip(1)[i - 1]);
                        }
                    }
                    assert(a =~= word);
                }
            }
        } else {
            if word.len() <= rest.len() {
                assert(rest.take(word.len() as int)[0] == rest[0]);
            }
        }
    } else if word.len() == 0 {
        assert(rest.take(0) =~= word);
    }
}

/// Whitespace after a literal is absorbed.
pub proof fn lemma_keyword_insert(rest: Seq<char>, word: Seq<char>, p: nat, w: Seq<char>)
    requires
        keyword_spec(rest, word) is Parsed,
        word.len() <= p <= rest.len(),
        all_space(w),
    ensures
        keyword_spec(inserted(rest, p, w), word) == carried(
            keyword_spec(rest, word),
            p,
            w.len(),
        ),
{
    reveal(inserted);
    let longer = inserted(rest, p, w);
    lemma_matched_bound(rest, word);
    lemma_matched_whole(rest, word);
    lemma_matched_whole(longer, word);
    assert(longer.take(word.len() as int) =~= rest.take(word.len() as int));
    lemma_lexed_insert(rest, word.len(), p, w);
}

/// Whitespace after the digits of an integer is absorbed.
pub proof fn lemma_integer_insert(rest: Seq<char>, p: nat, w: Seq<char>)
    requires
        integer_spec(rest) is Parsed,
        digit_run(rest) <= p <= rest.len(),
        all_space(w),
    ensures
        integer_spec(inserted(rest, p, w)) == carried(integer_spec(rest), p, w.len()),
{
    reveal(inserted);
    let d = digit_run(rest);
    let longer = inserted(rest, p, w);
    lemma_digit_run_insert(rest, p, w);
    assert(longer.take(d as int) =~= rest.take(d as int));
    lemma_lexed_insert(rest, d, p, w);
}

/// The content of a string does not depend on what follows its closing
/// quote.
proof fn lemma_body_insert(body: Seq<char>, q: nat, w: Seq<char>)
    requires
        string_body(body) is Parsed,
        char_at(body, string_body(body)->next, '"'),
        string_body(body)->next < q <= body.len(),
    ensures
        string_body(inserted(body, q, w)) == string_body(body),
    decreases body.len(),
{
    reveal(inserted);
    reveal(string_body);
    let longer = inserted(body, q, w);
    assert(longer[0] == body[0]);
    if let Outcome::Parsed { next, .. } = json_char_spec(body) {
        lemma_body_bound(tail(body, next));
        if next == 2 {
            assert(longer[1] == body[1]);
        }
        lemma_inserted_tail_before(body, q, w, next);
        lemma_tail_tail(body, next, string_body(tail(body, next))->next);
        lemma_body_insert(tail(body, next), (q - next) as nat, w);
    }
}

/// Whitespace after the closing quote of a string is absorbed.
pub proof fn lemma_string_insert(rest: Seq<char>, p: nat, w: Seq<char>)
    requires
        json_string_spec(rest) is Parsed,
        rest.len() >= 1 ==> string_body(tail(rest, 1))->next + 2 <= p,
        p <= rest.len(),
        all_space(w),
    ensures
        json_string_spec(inserted(rest, p, w)) == carried(json_string_spec(rest), p, w.len()),
{
    reveal(inserted);
    reveal(json_string_spec);
    let longer = inserted(rest, p, w);
    let body = tail(rest, 1);
    let m = string_body(body)->next;
    assert(longer[0] == rest[0]);
    lemma_inserted_tail_before(rest, p, w, 1);
    lemma_body_insert(body, (p - 1) as nat, w);
    assert(longer[(1 + m) as int] == rest[(1 + m) as int]);
    lemma_lexed_insert(rest, 2 + m, p, w);
}

/// Whitespace holds none of the characters that numbers are written with.
proof fn lemma_space_is_no_number_char(c: char)
    requires
        is_space(c),
    ensures
        !is_digit(c),
        c != '.',
        c != 'e',
        c != 'E',
        c != '-',
{
}

/// Length of the integer part proper, without the whitespace after it.
pub open spec fn whole_end(rest: Seq<char>) -> nat {
    if char_at(rest, 0, '0') {
        1
    } else {
        digit_run(rest)
    }
}

/// Length of the exponent proper, without the whitespace after it.
pub open spec fn exponent_end(rest: Seq<char>) -> nat {
    if char_at(rest, 0, 'e') || char_at(rest, 0, 'E') {
        if char_at(rest, 1, '-') {
            2 + digit_run(tail(rest, 2))
        } else {
            1 + digit_run(tail(rest, 1))
        }
    } else {
        0
    }
}

/// Whitespace behind the integer part proper leaves a single `0` as it
/// was and is absorbed after a run of digits.
proof fn lemma_whole_insert(rest: Seq<char>, p: nat, w: Seq<char>)
    requires
        whole_spec(rest) is Parsed,
        whole_end(rest) <= p <= rest.len(),
        all_space(w),
    ensures
        whole_spec(inserted(rest, p, w)) == if char_at(rest, 0, '0') {
            whole_spec(rest)
        } else {
            carried(whole_spec(rest), p, w.len())
        },
{
    reveal(inserted);
    reveal(whole_spec);
    let longer = inserted(rest, p, w);
    lemma_digit_run_bound(rest);
    if char_at(rest, 0, '0') {
        assert(longer[0] == rest[0]);
    } else {
        assert(digit_run(rest) >= 1);
        assert(longer[0] == rest[0]);
        lemma_integer_insert(rest, p, w);
    }
}

/// Whitespace behind the fraction leaves it as it was.
proof fn lemma_fraction_insert(rest: Seq<char>, p: nat, w: Seq<char>)
    requires
        fraction_spec(rest).1 <= p <= rest.len(),
        all_space(w),
    ensures
        fraction_spec(inserted(rest, p, w)) == fraction_spec(rest),
{
    reveal(inserted);
    reveal(fraction_spec);
    let longer = inserted(rest, p, w);
    if char_at(rest, 0, '.') {
        assert(longer[0] == rest[0]);
        lemma_inserted_tail_before(rest, p, w, 1);
        lemma_digit_run_insert(tail(rest, 1), (p - 1) as nat, w);
        lemma_digit_run_bound(tail(rest, 1));
        let d = digit_run(tail(rest, 1));
        assert forall|i: int| 0 <= i < d implies tail(longer, 1)[i] == tail(rest, 1)[i] by {
            assert(tail(longer, 1)[i] == longer[i + 1]);
        }
        assert(fraction_digits(tail(longer, 1)) =~= fraction_digits(tail(rest, 1)));
    } else if longer.len() > 0 {
        if p == 0 && w.len() > 0 {
            assert(longer[0] == w[0]);
            lemma_space_is_no_number_char(w[0]);
        } else {
            assert(longer[0] == rest[0]);
        }
    }
}

/// Whitespace behind the exponent proper is absorbed after its digits;
/// where there is no exponent, none appears.
proof fn lemma_exponent_insert(rest: Seq<char>, p: nat, w: Seq<char>)
    requires
        exponent_spec(rest) is Parsed,
        exponent_end(rest) <= p <= rest.len(),
        all_space(w),
    ensures
        exponent_spec(inserted(rest, p, w)) == if exponent_spec(rest)->next == 0 {
            exponent_spec(rest)
        } else {
            carried(exponent_spec(rest), p, w.len())
        },
{
    reveal(inserted);
    reveal(exponent_spec);
    let longer = inserted(rest, p, w);
    if char_at(rest, 0, 'e') || char_at(rest, 0, 'E') {
        assert(longer[0] == rest[0]);
        let d: nat = if char_at(rest, 1, '-') {
            2
        } else {
            1
        };
        lemma_digit_run_bound(tail(rest, d));
        lemma_integer_bound(tail(rest, d));
        assert(digit_run(tail(rest, d)) >= 1);
        assert(longer[1] == rest[1]);
        lemma_inserted_tail_before(rest, p, w, d);
        lemma_integer_insert(tail(rest, d), (p - d) as nat, w);
    } else if longer.len() > 0 {
        if p == 0 && w.len() > 0 {
            assert(longer[0] == w[0]);
            lemma_space_is_no_number_char(w[0]);
        } else {
            assert(longer[0] == rest[0]);
        }
    }
}

/// The first characters of the longer text are those of the shorter one.
proof fn lemma_inserted_head(rest: Seq<char>, p: nat, w: Seq<char>, i: nat)
    requires
        i < p <= rest.len(),
    ensures
        inserted(rest, p, w)[i as int] == rest[i as int],
        inserted(rest, p, w).len() == rest.len() + w.len(),
{
    reveal(inserted);
}

/// The integer part of a number ends, before its whitespace, in a digit.
proof fn lemma_whole_last(rest: Seq<char>)
    requires
        whole_spec(rest) is Parsed,
    ensures
        1 <= whole_end(rest) <= whole_spec(rest)->next <= rest.len(),
        !is_space(rest[whole_end(rest) - 1]),
        char_at(rest, 0, '0') ==> whole_spec(rest)->next == 1,
{
    reveal(whole_spec);
    lemma_digit_run_bound(rest);
    lemma_integer_bound(rest);
}

/// A fraction ends in a point or a digit.
proof fn lemma_fraction_last(rest: Seq<char>)
    ensures
        fraction_spec(rest).1 <= rest.len(),
        fraction_spec(rest).1 > 0 ==> !is_space(rest[fraction_spec(rest).1 - 1]),
{
    reveal(fraction_spec);
    lemma_digit_run_bound(tail(rest, 1));
    let n = fraction_spec(rest).1;
    if n > 1 {
        assert(tail(rest, 1)[n - 2] == rest[n - 1]);
    }
}

/// An exponent ends in a digit.
proof fn lemma_exponent_last(rest: Seq<char>)
    requires
        exponent_spec(rest) is Parsed,
    ensures
        exponent_end(rest) <= exponent_spec(rest)->next <= rest.len(),
        exponent_spec(rest)->next > 0 ==> exponent_end(rest) > 0 && !is_space(
            rest[exponent_end(rest) - 1],
        ),
{
    reveal(exponent_spec);
    let d: nat = if char_at(rest, 1, '-') {
        2
    } else {
        1
    };
    lemma_digit_run_bound(tail(rest, d));
    lemma_integer_bound(tail(rest, d));
    if exponent_spec(rest)->next > 0 {
        let e = exponent_end(rest);
        assert(tail(rest, d)[e - d - 1] == rest[e - 1]);
    }
}

/// Whitespace after a number is absorbed.
pub proof fn lemma_number_insert(rest: Seq<char>, p: nat, w: Seq<char>)
    requires
        number_spec(rest) is Parsed,
        trailing(rest, number_spec(rest)->next, p),
        p <= rest.len(),
        all_space(w),
    ensures
        number_spec(inserted(rest, p, w)) == carried(number_spec(rest), p, w.len()),
{
    reveal(number_body);
    let k = w.len();
    let longer = inserted(rest, p, w);
    let a: nat = if char_at(rest, 0, '-') {
        1
    } else {
        0
    };
    let whole_rest = tail(rest, a);
    let n1 = whole_spec(whole_rest)->next;
    let b: nat = a + n1;
    lemma_whole_last(whole_rest);
    lemma_fraction_last(tail(rest, b));
    let n2 = fraction_spec(tail(rest, b)).1;
    let c: nat = b + n2;
    lemma_exponent_last(tail(rest, c));
    let n3 = exponent_spec(tail(rest, c))->next;
    let nb: nat = c + n3;
    let n = number_spec(rest)->next;
    lemma_space_run_bound(tail(rest, nb));
    let e1 = whole_end(whole_rest);
    assert(a + e1 <= p) by {
        assert(whole_rest[e1 - 1] == rest[a + e1 - 1]);
    }
    lemma_inserted_head(rest, p, w, 0);
    lemma_inserted_tail_before(rest, p, w, a);
    lemma_whole_insert(whole_rest, (p - a) as nat, w);
    if !char_at(whole_rest, 0, '0') && p - a <= n1 {
        // the whitespace went in right after the integer part
        lemma_inserted_tail_after(rest, p, w, b);
        lemma_inserted_tail_after(rest, p, w, c);
        lemma_inserted_tail_after(rest, p, w, nb);
    } else {
        assert(p >= b);
        lemma_inserted_tail_before(rest, p, w, b);
        assert(p >= c) by {
            if n2 > 0 {
                assert(tail(rest, b)[n2 - 1] == rest[c - 1]);
            }
        }
        lemma_fraction_insert(tail(rest, b), (p - b) as nat, w);
        lemma_inserted_tail_before(rest, p, w, c);
        let e3 = exponent_end(tail(rest, c));
        assert(p >= c + e3) by {
            if n3 > 0 {
                assert(tail(rest, c)[e3 - 1] == rest[c + e3 - 1]);
            }
        }
        lemma_exponent_insert(tail(rest, c), (p - c) as nat, w);
        if n3 > 0 && p <= nb {
            lemma_inserted_tail_after(rest, p, w, nb);
        } else {
            lemma_lexed_insert(rest, nb, p, w);
        }
    }
}

/// A string that was parsed ends, before its whitespace, in its closing
/// quote.
proof fn lemma_string_last(rest: Seq<char>)
    requires
        json_string_spec(rest) is Parsed,
    ensures
        rest.len() >= 2,
        string_body(tail(rest, 1))->next + 2 <= json_string_spec(rest)->next,
        rest[(string_body(tail(rest, 1))->next + 1) as int] == '"',
{
    reveal(json_string_spec);
    lemma_body_bound(tail(rest, 1));
}

/// A literal that was parsed is the text it names.
proof fn lemma_keyword_last(rest: Seq<char>, word: Seq<char>)
    requires
        keyword_spec(rest, word) is Parsed,
        word.len() > 0,
    ensures
        word.len() <= keyword_spec(rest, word)->next,
        word.len() <= rest.len(),
        rest[word.len() - 1] == word.last(),
{
    lemma_matched_bound(rest, word);
    lemma_matched_whole(rest, word);
    assert(rest.take(word.len() as int)[word.len() - 1] == rest[word.len() - 1]);
}

/// Whether a string begins, or an object, or an array, is decided by the
/// first character alone.
proof fn lemma_same_start_structure(rest: Seq<char>, other: Seq<char>, depth: nat)
    requires
        rest.len() > 0,
        other.len() > 0,
        rest[0] == other[0],
    ensures
        json_string_spec(rest).recoverable() ==> json_string_spec(other) == json_string_spec(rest),
        object_spec(rest, depth).recoverable() ==> object_spec(other, depth) == object_spec(
            rest,
            depth,
        ),
        array_spec(rest, depth).recoverable() ==> array_spec(other, depth) == array_spec(
            rest,
            depth,
        ),
        json_string_spec(rest).recoverable() <==> rest[0] != '"',
        object_spec(rest, depth).recoverable() <==> rest[0] != '{',
        array_spec(rest, depth).recoverable() <==> rest[0] != '[',
{
    reveal(json_string_spec);
    lemma_object_unfold(rest, depth);
    lemma_object_unfold(other, depth);
    lemma_container_unfold(rest, depth, '{', '}', true);
    lemma_container_unfold(other, depth, '{', '}', true);
    lemma_container_unfold(rest, depth, '[', ']', false);
    lemma_container_unfold(other, depth, '[', ']', false);
}

/// Whether a number begins is decided by the first character alone.
proof fn lemma_same_start_number(rest: Seq<char>, other: Seq<char>)
    requires
        rest.len() > 0,
        other.len() > 0,
        rest[0] == other[0],
    ensures
        number_spec(rest).recoverable() ==> number_spec(other) == number_spec(rest),
{
    reveal(number_body);
    reveal(whole_spec);
    reveal(digit_run);
    assert(tail(rest, 0) =~= rest);
    assert(tail(other, 0) =~= other);
}

/// Whether a literal begins is decided by the first character alone.
proof fn lemma_same_start_keyword(rest: Seq<char>, other: Seq<char>, word: Seq<char>)
    requires
        rest.len() > 0,
        other.len() > 0,
        rest[0] == other[0],
        word.len() > 0,
    ensures
        keyword_spec(rest, word).recoverable() ==> keyword_spec(other, word) == keyword_spec(
            rest,
            word,
        ),
{
    reveal(matched);
}

/// Whitespace between the tokens of a value, or behind it, is absorbed.
pub proof fn lemma_value_insert(rest: Seq<char>, depth: nat, p: nat, w: Seq<char>)
    requires
        value_spec(rest, depth) is Parsed,
        p > value_spec(rest, depth)->next || value_gap(rest, depth, p),
        0 < p <= rest.len(),
        all_space(w),
    ensures
        value_spec(inserted(rest, p, w), depth) == carried(
            value_spec(rest, depth),
            p,
            w.len(),
        ),
    decreases depth, rest.len(), 2nat,
{
    let longer = inserted(rest, p, w);
    lemma_value_unfold(rest, depth);
    lemma_value_unfold(longer, depth);
    lemma_inserted_head(rest, p, w, 0);
    lemma_same_start_structure(rest, longer, depth);
    lemma_same_start_number(rest, longer);
    lemma_same_start_keyword(rest, longer, word_false());
    lemma_same_start_keyword(rest, longer, word_true());
    lemma_same_start_keyword(rest, longer, word_null());
    if json_string_spec(rest) is Parsed {
        lemma_string_last(rest);
        lemma_string_insert(rest, p, w);
    } else if !object_spec(rest, depth).recoverable() {
        lemma_object_unfold(rest, depth);
        lemma_object_unfold(longer, depth);
        lemma_container_insert(rest, depth, '{', '}', true, p, w);
    } else if !array_spec(rest, depth).recoverable() {
        lemma_object_unfold(rest, depth);
        lemma_object_unfold(longer, depth);
        lemma_container_insert(rest, depth, '[', ']', false, p, w);
    } else if number_spec(rest) is Parsed {
        lemma_number_insert(rest, p, w);
    } else if keyword_spec(rest, word_false()) is Parsed {
        lemma_keyword_last(rest, word_false());
        assert(!is_space(rest[4]));
        lemma_keyword_insert(rest, word_false(), p, w);
    } else if keyword_spec(rest, word_true()) is Parsed {
        lemma_keyword_last(rest, word_true());
        assert(!is_space(rest[3]));
        lemma_keyword_insert(rest, word_true(), p, w);
    } else {
        lemma_keyword_last(rest, word_null());
        assert(!is_space(rest[3]));
        lemma_keyword_insert(rest, word_null(), p, w);
    }
}

/// Whitespace between the tokens of a container, or behind it, is absorbed.
pub proof fn lemma_container_insert(
    rest: Seq<char>,
    depth: nat,
    open: char,
    close: char,
    keyed: bool,
    p: nat,
    w: Seq<char>,
)
    requires
        container_spec(rest, depth, open, close, keyed) is Parsed,
        p > container_spec(rest, depth, open, close, keyed)->next || container_gap(
            rest,
            depth,
            open,
            close,
            keyed,
            p,
        ),
        0 < p <= rest.len(),
        all_space(w),
    ensures
        container_spec(inserted(rest, p, w), depth, open, close, keyed) == carried(
            container_spec(rest, depth, open, close, keyed),
            p,
            w.len(),
        ),
    decreases depth, rest.len(), 0nat,
{
    let k = w.len();
    let longer = inserted(rest, p, w);
    let below = (depth - 1) as nat;
    lemma_container_unfold(rest, depth, open, close, keyed);
    lemma_container_unfold(longer, depth, open, close, keyed);
    lemma_container_bound(rest, depth, open, close, keyed);
    let a = symbol_spec(rest, open)->next;
    lemma_symbol_bound(rest, open);
    lemma_symbol_insert(rest, open, p, w);
    let inner = tail(rest, a);
    let b = members_spec(inner, below, keyed)->next;
    lemma_members_bound(inner, below, keyed);
    lemma_symbol_bound(tail(rest, a + b), close);
    if p <= a {
        lemma_inserted_tail_after(rest, p, w, a);
        lemma_tail_tail(longer, a + k, b);
        lemma_tail_tail(rest, a, b);
    } else {
        lemma_inserted_tail_before(rest, p, w, a);
        lemma_members_insert(inner, below, keyed, (p - a) as nat, w);
        if p - a <= b {
            lemma_inserted_tail_after(rest, p, w, a + b);
        } else {
            lemma_inserted_tail_before(rest, p, w, a + b);
            lemma_symbol_insert(tail(rest, a + b), close, (p - a - b) as nat, w);
        }
    }
}

/// Whitespace between the tokens of a list of members, or behind it, is
/// absorbed.
pub proof fn lemma_members_insert(rest: Seq<char>, depth: nat, keyed: bool, p: nat, w: Seq<char>)
    requires
        members_spec(rest, depth, keyed) is Parsed,
        p > members_spec(rest, depth, keyed)->next || members_gap(rest, depth, keyed, p),
        0 < p <= rest.len(),
        all_space(w),
    ensures
        members_spec(inserted(rest, p, w), depth, keyed) == carried(
            members_spec(rest, depth, keyed),
            p,
            w.len(),
        ),
    decreases depth, rest.len(), 5nat,
{
    let k = w.len();
    let longer = inserted(rest, p, w);
    lemma_members_unfold(rest, depth, keyed);
    lemma_members_unfold(longer, depth, keyed);
    lemma_member_bound(rest, depth, keyed);
    match member_spec(rest, depth, keyed) {
        Outcome::Failed { .. } => {
            lemma_inserted_head(rest, p, w, 0);
            lemma_member_start(rest, longer, depth, keyed);
        },
        Outcome::Parsed { next: a, .. } => {
            lemma_more_members_bound(tail(rest, a), depth, keyed);
            lemma_member_insert(rest, depth, keyed, p, w);
            if p <= a {
                lemma_inserted_tail_after(rest, p, w, a);
            } else {
                lemma_inserted_tail_before(rest, p, w, a);
                lemma_more_insert(tail(rest, a), depth, keyed, (p - a) as nat, w);
            }
        },
    }
}

/// Whether a member begins is decided by the first character alone.
proof fn lemma_member_start(rest: Seq<char>, other: Seq<char>, depth: nat, keyed: bool)
    requires
        rest.len() > 0,
        other.len() > 0,
        rest[0] == other[0],
        member_spec(rest, depth, keyed).recoverable(),
    ensures
        member_spec(other, depth, keyed).recoverable(),
{
    lemma_member_unfold(rest, depth, keyed);
    lemma_member_unfold(other, depth, keyed);
    lemma_value_unfold(rest, depth);
    lemma_value_unfold(other, depth);
    lemma_same_start_structure(rest, other, depth);
    lemma_same_start_number(rest, other);
    lemma_same_start_keyword(rest, other, word_false());
    lemma_same_start_keyword(rest, other, word_true());
    lemma_same_start_keyword(rest, other, word_null());
}

/// Whitespace between the tokens of the further members, or behind them,
/// is absorbed.
pub proof fn lemma_more_insert(rest: Seq<char>, depth: nat, keyed: bool, p: nat, w: Seq<char>)
    requires
        more_members(rest, depth, keyed) is Parsed,
        p > more_members(rest, depth, keyed)->next || more_gap(rest, depth, keyed, p),
        0 < p <= rest.len(),
        all_space(w),
    ensures
        more_members(inserted(rest, p, w), depth, keyed) == carried(
            more_members(rest, depth, keyed),
            p,
            w.len(),
        ),
    decreases depth, rest.len(), 4nat,
{
    let k = w.len();
    let longer = inserted(rest, p, w);
    lemma_more_members_unfold(rest, depth, keyed);
    lemma_more_members_unfold(longer, depth, keyed);
    lemma_inserted_head(rest, p, w, 0);
    lemma_symbol_bound(rest, ',');
    if let Outcome::Parsed { next: a, .. } = symbol_spec(rest, ',') {
        lemma_symbol_insert(rest, ',', p, w);
        let b = member_spec(tail(rest, a), depth, keyed)->next;
        lemma_member_bound(tail(rest, a), depth, keyed);
        lemma_more_members_bound(tail(rest, a + b), depth, keyed);
        if p <= a {
            lemma_inserted_tail_after(rest, p, w, a);
            lemma_tail_tail(longer, a + k, b);
            lemma_tail_tail(rest, a, b);
        } else {
            lemma_inserted_tail_before(rest, p, w, a);
            lemma_member_insert(tail(rest, a), depth, keyed, (p - a) as nat, w);
            if p - a <= b {
                lemma_inserted_tail_after(rest, p, w, a + b);
            } else {
                lemma_inserted_tail_before(rest, p, w, a + b);
                lemma_more_insert(tail(rest, a + b), depth, keyed, (p - a - b) as nat, w);
            }
        }
    }
}

/// Whitespace between the tokens of a member, or behind it, is absorbed.
pub proof fn lemma_member_insert(rest: Seq<char>, depth: nat, keyed: bool, p: nat, w: Seq<char>)
    requires
        member_spec(rest, depth, keyed) is Parsed,
        p > member_spec(rest, depth, keyed)->next || member_gap(rest, depth, keyed, p),
        0 < p <= rest.len(),
        all_space(w),
    ensures
        member_spec(inserted(rest, p, w), depth, keyed) == carried(
            member_spec(rest, depth, keyed),
            p,
            w.len(),
        ),
    decreases depth, rest.len(), 3nat,
{
    let k = w.len();
    let longer = inserted(rest, p, w);
    lemma_member_unfold(rest, depth, keyed);
    lemma_member_unfold(longer, depth, keyed);
    if !keyed {
        lemma_value_insert(rest, depth, p, w);
    } else {
        let a = json_string_spec(rest)->next;
        lemma_string_bound(rest);
        lemma_string_last(rest);
        lemma_string_insert(rest, p, w);
        let b = symbol_spec(tail(rest, a), ':')->next;
        lemma_symbol_bound(tail(rest, a), ':');
        lemma_value_bound(tail(rest, a + b), depth);
        if p <= a {
            lemma_inserted_tail_after(rest, p, w, a);
            lemma_tail_tail(longer, a + k, b);
            lemma_tail_tail(rest, a, b);
        } else {
            lemma_inserted_tail_before(rest, p, w, a);
            lemma_symbol_insert(tail(rest, a), ':', (p - a) as nat, w);
            if p - a <= b {
                lemma_inserted_tail_after(rest, p, w, a + b);
            } else {
                lemma_inserted_tail_before(rest, p, w, a + b);
                lemma_value_insert(tail(rest, a + b), depth, (p - a - b) as nat, w);
            }
        }
    }
}

} // verus!
