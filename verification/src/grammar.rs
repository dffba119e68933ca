//! The grammar of values: what each parser of the structure makes of the
//! remaining input.

use vstd::prelude::*;
use crate::error::{ErrorKind, Outcome, continued, tail};
use crate::lexical::{
    keyword_spec,
    lemma_keyword_bound,
    lemma_symbol_bound,
    space_run,
    lemma_space_run_bound,
    symbol_spec,
};
use crate::number::{NumberView, lemma_number_bound, number_spec};
use crate::string::{json_string_spec, lemma_string_bound};
use crate::value::{JsonValue, collect};

verus! {

/// A key with its value. The member of an array has the empty key.
pub type Member = (Seq<char>, JsonValue);

/// The literal `false`.
pub open spec fn word_false() -> Seq<char> {
    seq!['f', 'a', 'l', 's', 'e']
}

/// The literal `true`.
pub open spec fn word_true() -> Seq<char> {
    seq!['t', 'r', 'u', 'e']
}

/// The literal `null`.
pub open spec fn word_null() -> Seq<char> {
    seq!['n', 'u', 'l', 'l']
}

/// A parser's outcome with its value replaced.
pub open spec fn becomes<A, B>(parsed: Outcome<A>, f: spec_fn(A) -> B) -> Outcome<B> {
    match parsed {
        Outcome::Parsed { value, next } => Outcome::Parsed { value: f(value), next },
        Outcome::Failed { position, kind, committed } => Outcome::Failed {
            position,
            kind,
            committed,
        },
    }
}

/// The values of a list of members, in order.
pub open spec fn values_of(members: Seq<Member>) -> Seq<JsonValue> {
    Seq::new(members.len(), |i: int| members[i].1)
}

/// The first of the alternatives of a value that begins at the start of
/// `rest`: string, object, array, number, `false`, `true`, `null`, where
/// `object` and `array` are what those two make of `rest`. An alternative
/// that fails after it has consumed input fails the value; where none
/// begins, nothing is consumed.
pub open spec fn first_of(
    rest: Seq<char>,
    object: Outcome<JsonValue>,
    array: Outcome<JsonValue>,
) -> Outcome<JsonValue> {
    let string = becomes(json_string_spec(rest), |s: Seq<char>| JsonValue::String(s));
    let number = becomes(number_spec(rest), |n: NumberView| JsonValue::Number(n));
    let no = becomes(keyword_spec(rest, word_false()), |u: ()| JsonValue::Bool(false));
    let yes = becomes(keyword_spec(rest, word_true()), |u: ()| JsonValue::Bool(true));
    let null = becomes(keyword_spec(rest, word_null()), |u: ()| JsonValue::Null);
    let none = Outcome::Failed {
        position: 0,
        kind: ErrorKind::NoAlternativeMatched,
        committed: false,
    };
    string.or(object).or(array).or(number).or(no).or(yes).or(null).or(none)
}

/// A value. `depth` is the number of containers that may still be entered.
#[verifier::opaque]
pub open spec fn value_spec(rest: Seq<char>, depth: nat) -> Outcome<JsonValue>
    decreases depth, rest.len(), 2nat,
{
    first_of(rest, object_spec(rest, depth), array_spec(rest, depth))
}

/// An object: `{`, members with keys, `}`. Of two members with one key the
/// later one stays.
#[verifier::opaque]
pub open spec fn object_spec(rest: Seq<char>, depth: nat) -> Outcome<JsonValue>
    decreases depth, rest.len(), 1nat,
{
    match container_spec(rest, depth, '{', '}', true) {
        Outcome::Parsed { value, next } => Outcome::Parsed {
            value: JsonValue::Object(collect(value)),
            next,
        },
        Outcome::Failed { position, kind, committed } => Outcome::Failed {
            position,
            kind: if committed {
                kind
            } else {
                ErrorKind::ExpectedObject
            },
            committed,
        },
    }
}

/// An array: `[`, members without keys, `]`.
#[verifier::opaque]
pub open spec fn array_spec(rest: Seq<char>, depth: nat) -> Outcome<JsonValue>
    decreases depth, rest.len(), 1nat,
{
    match container_spec(rest, depth, '[', ']', false) {
        Outcome::Parsed { value, next } => Outcome::Parsed {
            value: JsonValue::Array(values_of(value)),
            next,
        },
        Outcome::Failed { position, kind, committed } => Outcome::Failed {
            position,
            kind,
            committed,
        },
    }
}

/// An opening symbol, members separated by commas, and a closing symbol.
/// Entering the container takes one level of `depth`; with none left the
/// container fails where it begins.
#[verifier::opaque]
pub open spec fn container_spec(
    rest: Seq<char>,
    depth: nat,
    open: char,
    close: char,
    keyed: bool,
) -> Outcome<Seq<Member>>
    decreases depth, rest.len(), 0nat,
{
    match symbol_spec(rest, open) {
        Outcome::Failed { position, kind, committed } => Outcome::Failed {
            position,
            kind,
            committed,
        },
        Outcome::Parsed { next: a, .. } => if depth == 0 {
            Outcome::Failed { position: 0, kind: ErrorKind::DepthExceeded, committed: true }
        } else {
            match members_spec(tail(rest, a), (depth - 1) as nat, keyed) {
                Outcome::Failed { position, kind, .. } => Outcome::Failed {
                    position: a + position,
                    kind,
                    committed: true,
                },
                Outcome::Parsed { value, next: b } => match symbol_spec(tail(rest, a + b), close) {
                    Outcome::Failed { position, kind, .. } => Outcome::Failed {
                        position: a + b + position,
                        kind,
                        committed: true,
                    },
                    Outcome::Parsed { next: c, .. } => Outcome::Parsed { value, next: a + b + c },
                },
            }
        },
    }
}

/// Members separated by commas; none at all where the first does not begin.
#[verifier::opaque]
pub open spec fn members_spec(rest: Seq<char>, depth: nat, keyed: bool) -> Outcome<Seq<Member>>
    decreases depth, rest.len(), 5nat,
{
    match member_spec(rest, depth, keyed) {
        Outcome::Failed { position, kind, committed } => if committed {
            Outcome::Failed { position, kind, committed }
        } else {
            Outcome::Parsed { value: Seq::empty(), next: 0 }
        },
        Outcome::Parsed { value: first, next: a } => continued(
            seq![first],
            a,
            more_members(tail(rest, a), depth, keyed),
        ),
    }
}

/// Any number of further members, each after a comma. After a comma the
/// member is owed.
#[verifier::opaque]
pub open spec fn more_members(rest: Seq<char>, depth: nat, keyed: bool) -> Outcome<Seq<Member>>
    decreases depth, rest.len(), 4nat,
{
    match symbol_spec(rest, ',') {
        Outcome::Failed { .. } => Outcome::Parsed { value: Seq::empty(), next: 0 },
        Outcome::Parsed { next: a, .. } => match member_spec(tail(rest, a), depth, keyed) {
            Outcome::Failed { position, kind, .. } => Outcome::Failed {
                position: a + position,
                kind,
                committed: true,
            },
            Outcome::Parsed { value: first, next: b } => continued(
                seq![first],
                a + b,
                more_members(tail(rest, a + b), depth, keyed),
            ),
        },
    }
}

/// One member: in an object a key, a colon and a value; in an array a
/// value alone.
#[verifier::opaque]
pub open spec fn member_spec(rest: Seq<char>, depth: nat, keyed: bool) -> Outcome<Member>
    decreases depth, rest.len(), 3nat,
{
    if keyed {
        match json_string_spec(rest) {
            Outcome::Failed { position, kind, committed } => Outcome::Failed {
                position,
                kind,
                committed,
            },
            Outcome::Parsed { value: key, next: a } => match symbol_spec(tail(rest, a), ':') {
                Outcome::Failed { position, kind, .. } => Outcome::Failed {
                    position: a + position,
                    kind,
                    committed: true,
                },
                Outcome::Parsed { next: b, .. } => match value_spec(tail(rest, a + b), depth) {
                    Outcome::Failed { position, kind, .. } => Outcome::Failed {
                        position: a + b + position,
                        kind,
                        committed: true,
                    },
                    Outcome::Parsed { value, next: c } => Outcome::Parsed {
                        value: (key, value),
                        next: a + b + c,
                    },
                },
            },
        }
    } else {
        becomes(value_spec(rest, depth), |v: JsonValue| (Seq::<char>::empty(), v))
    }
}

/// A document: whitespace, then a value. What follows the value is left
/// unread.
pub open spec fn json_value_spec(rest: Seq<char>, depth: nat) -> Outcome<JsonValue> {
    value_spec(tail(rest, space_run(rest)), depth).after(space_run(rest))
}

/// `value_spec` written out one level.
pub proof fn lemma_value_unfold(rest: Seq<char>, depth: nat)
    ensures
        value_spec(rest, depth) == first_of(
            rest,
            object_spec(rest, depth),
            array_spec(rest, depth),
        ),
{
    reveal(value_spec);
    reveal(object_spec);
    reveal(array_spec);
}

/// `container_spec` written out one level.
pub proof fn lemma_container_unfold(
    rest: Seq<char>,
    depth: nat,
    open: char,
    close: char,
    keyed: bool,
)
    ensures
        container_spec(rest, depth, open, close, keyed) == match symbol_spec(rest, open) {
            Outcome::Failed { position, kind, committed } => Outcome::Failed {
                position,
                kind,
                committed,
            },
            Outcome::Parsed { next: a, .. } => if depth == 0 {
                Outcome::Failed { position: 0, kind: ErrorKind::DepthExceeded, committed: true }
            } else {
                match members_spec(tail(rest, a), (depth - 1) as nat, keyed) {
                    Outcome::Failed { position, kind, .. } => Outcome::Failed {
                        position: a + position,
                        kind,
                        committed: true,
                    },
                    Outcome::Parsed { value, next: b } => match symbol_spec(
                        tail(rest, a + b),
                        close,
                    ) {
                        Outcome::Failed { position, kind, .. } => Outcome::Failed {
                            position: a + b + position,
                            kind,
                            committed: true,
                        },
                        Outcome::Parsed { next: c, .. } => Outcome::Parsed {
                            value,
                            next: a + b + c,
                        },
                    },
                }
            },
        },
{
    reveal(container_spec);
    reveal(members_spec);
}

/// `members_spec` written out one level.
pub proof fn lemma_members_unfold(rest: Seq<char>, depth: nat, keyed: bool)
    ensures
        members_spec(rest, depth, keyed) == match member_spec(rest, depth, keyed) {
            Outcome::Failed { position, kind, committed } => if committed {
                Outcome::Failed { position, kind, committed }
            } else {
                Outcome::Parsed { value: Seq::empty(), next: 0 }
            },
            Outcome::Parsed { value: first, next: a } => continued(
                seq![first],
                a,
                more_members(tail(rest, a), depth, keyed),
            ),
        },
{
    reveal(members_spec);
    reveal(member_spec);
    reveal(more_members);
}

/// `more_members` written out one level.
pub proof fn lemma_more_members_unfold(rest: Seq<char>, depth: nat, keyed: bool)
    ensures
        more_members(rest, depth, keyed) == match symbol_spec(rest, ',') {
            Outcome::Failed { .. } => Outcome::Parsed { value: Seq::empty(), next: 0 },
            Outcome::Parsed { next: a, .. } => match member_spec(tail(rest, a), depth, keyed) {
                Outcome::Failed { position, kind, .. } => Outcome::Failed {
                    position: a + position,
                    kind,
                    committed: true,
                },
                Outcome::Parsed { value: first, next: b } => continued(
                    seq![first],
                    a + b,
                    more_members(tail(rest, a + b), depth, keyed),
                ),
            },
        },
{
    reveal(more_members);
    reveal(member_spec);
}

/// `member_spec` written out one level.
pub proof fn lemma_member_unfold(rest: Seq<char>, depth: nat, keyed: bool)
    ensures
        member_spec(rest, depth, keyed) == if keyed {
            match json_string_spec(rest) {
                Outcome::Failed { position, kind, committed } => Outcome::Failed {
                    position,
                    kind,
                    committed,
                },
                Outcome::Parsed { value: key, next: a } => match symbol_spec(tail(rest, a), ':') {
                    Outcome::Failed { position, kind, .. } => Outcome::Failed {
                        position: a + position,
                        kind,
                        committed: true,
                    },
                    Outcome::Parsed { next: b, .. } => match value_spec(
                        tail(rest, a + b),
                        depth,
                    ) {
                        Outcome::Failed { position, kind, .. } => Outcome::Failed {
                            position: a + b + position,
                            kind,
                            committed: true,
                        },
                        Outcome::Parsed { value, next: c } => Outcome::Parsed {
                            value: (key, value),
                            next: a + b + c,
                        },
                    },
                },
            }
        } else {
            becomes(value_spec(rest, depth), |v: JsonValue| (Seq::<char>::empty(), v))
        },
{
    reveal(member_spec);
    reveal(value_spec);
}

/// `object_spec` and `array_spec` written out.
pub proof fn lemma_object_unfold(rest: Seq<char>, depth: nat)
    ensures
        object_spec(rest, depth) == match container_spec(rest, depth, '{', '}', true) {
            Outcome::Parsed { value, next } => Outcome::Parsed {
                value: JsonValue::Object(collect(value)),
                next,
            },
            Outcome::Failed { position, kind, committed } => Outcome::Failed {
                position,
                kind: if committed {
                    kind
                } else {
                    ErrorKind::ExpectedObject
                },
                committed,
            },
        },
        array_spec(rest, depth) == match container_spec(rest, depth, '[', ']', false) {
            Outcome::Parsed { value, next } => Outcome::Parsed {
                value: JsonValue::Array(values_of(value)),
                next,
            },
            Outcome::Failed { position, kind, committed } => Outcome::Failed {
                position,
                kind,
                committed,
            },
        },
{
    reveal(object_spec);
    reveal(array_spec);
    reveal(container_spec);
}

/// Where a value fails without consuming, none of its alternatives
/// matched: each failed at that place, without consuming, for want of what
/// `ErrorKind::expected_spec` lists for it.
pub proof fn lemma_no_alternative(rest: Seq<char>, depth: nat)
    requires
        value_spec(rest, depth).recoverable(),
    ensures
        value_spec(rest, depth) == (Outcome::Failed::<JsonValue> {
            position: 0,
            kind: ErrorKind::NoAlternativeMatched,
            committed: false,
        }),
        json_string_spec(rest) == failed_for::<Seq<char>>(0),
        object_spec(rest, depth) == failed_for::<JsonValue>(1),
        array_spec(rest, depth) == failed_for::<JsonValue>(2),
        number_spec(rest) == failed_for::<NumberView>(3),
        keyword_spec(rest, word_false()) == failed_for::<()>(4),
        keyword_spec(rest, word_true()) == failed_for::<()>(5),
        keyword_spec(rest, word_null()) == failed_for::<()>(6),
{
    lemma_value_unfold(rest, depth);
    lemma_object_unfold(rest, depth);
    lemma_container_unfold(rest, depth, '{', '}', true);
    lemma_container_unfold(rest, depth, '[', ']', false);
    reveal(crate::string::json_string_spec);
    reveal(crate::number::number_body);
    reveal(crate::lexical::matched);
}

/// The failure of the alternative with the index `i` among those of a
/// value, where it does not begin.
pub open spec fn failed_for<T>(i: int) -> Outcome<T> {
    Outcome::Failed {
        position: 0,
        kind: ErrorKind::NoAlternativeMatched.expected_spec()[i],
        committed: false,
    }
}

/// A value that was parsed took at least one character and no more than
/// there were; one that failed, failed within the text.
pub proof fn lemma_value_bound(rest: Seq<char>, depth: nat)
    ensures
        value_spec(rest, depth) matches Outcome::Parsed { next, .. } ==> 0 < next <= rest.len(),
        value_spec(rest, depth).within(rest.len()),
    decreases depth, rest.len(), 2nat,
{
    reveal(value_spec);
    reveal(object_spec);
    reveal(array_spec);
    reveal(container_spec);
    lemma_string_bound(rest);
    lemma_container_bound(rest, depth, '{', '}', true);
    lemma_container_bound(rest, depth, '[', ']', false);
    lemma_number_bound(rest);
    lemma_keyword_bound(rest, word_false());
    lemma_keyword_bound(rest, word_true());
    lemma_keyword_bound(rest, word_null());
}

/// A container that was parsed took at least one character and no more
/// than there were; one that failed, failed within the text.
pub proof fn lemma_container_bound(
    rest: Seq<char>,
    depth: nat,
    open: char,
    close: char,
    keyed: bool,
)
    ensures
        container_spec(rest, depth, open, close, keyed) matches Outcome::Parsed { next, .. } ==> 0
            < next <= rest.len(),
        container_spec(rest, depth, open, close, keyed).within(rest.len()),
    decreases depth, rest.len(), 0nat,
{
    reveal(container_spec);
    reveal(members_spec);
    lemma_symbol_bound(rest, open);
    if let Outcome::Parsed { next: a, .. } = symbol_spec(rest, open) {
        if depth > 0 {
            lemma_members_bound(tail(rest, a), (depth - 1) as nat, keyed);
            if let Outcome::Parsed { next: b, .. } = members_spec(
                tail(rest, a),
                (depth - 1) as nat,
                keyed,
            ) {
                lemma_symbol_bound(tail(rest, a + b), close);
            }
        }
    }
}

/// Members that were parsed took no more characters than there were;
/// members that failed, failed within the text.
pub proof fn lemma_members_bound(rest: Seq<char>, depth: nat, keyed: bool)
    ensures
        members_spec(rest, depth, keyed) matches Outcome::Parsed { next, .. } ==> next
            <= rest.len(),
        members_spec(rest, depth, keyed).within(rest.len()),
    decreases depth, rest.len(), 5nat,
{
    reveal(members_spec);
    reveal(member_spec);
    reveal(more_members);
    lemma_member_bound(rest, depth, keyed);
    if let Outcome::Parsed { next: a, .. } = member_spec(rest, depth, keyed) {
        lemma_more_members_bound(tail(rest, a), depth, keyed);
    }
}

/// Further members that were parsed took no more characters than there
/// were; those that failed, failed within the text.
pub proof fn lemma_more_members_bound(rest: Seq<char>, depth: nat, keyed: bool)
    ensures
        more_members(rest, depth, keyed) matches Outcome::Parsed { next, .. } ==> next
            <= rest.len(),
        more_members(rest, depth, keyed).within(rest.len()),
    decreases depth, rest.len(), 4nat,
{
    reveal(more_members);
    reveal(member_spec);
    lemma_symbol_bound(rest, ',');
    if let Outcome::Parsed { next: a, .. } = symbol_spec(rest, ',') {
        lemma_member_bound(tail(rest, a), depth, keyed);
        if let Outcome::Parsed { next: b, .. } = member_spec(tail(rest, a), depth, keyed) {
            lemma_more_members_bound(tail(rest, a + b), depth, keyed);
        }
    }
}

/// A member that was parsed took at least one character and no more than
/// there were; one that failed, failed within the text.
pub proof fn lemma_member_bound(rest: Seq<char>, depth: nat, keyed: bool)
    ensures
        member_spec(rest, depth, keyed) matches Outcome::Parsed { next, .. } ==> 0 < next
            <= rest.len(),
        member_spec(rest, depth, keyed).within(rest.len()),
    decreases depth, rest.len(), 3nat,
{
    reveal(member_spec);
    reveal(value_spec);
    if keyed {
        lemma_string_bound(rest);
        if let Outcome::Parsed { next: a, .. } = json_string_spec(rest) {
            lemma_symbol_bound(tail(rest, a), ':');
            if let Outcome::Parsed { next: b, .. } = symbol_spec(tail(rest, a), ':') {
                lemma_value_bound(tail(rest, a + b), depth);
            }
        }
    } else {
        lemma_value_bound(rest, depth);
    }
}

/// A document that was parsed took at least one character and no more
/// than there were; one that failed, failed within the text.
pub proof fn lemma_json_value_bound(rest: Seq<char>, depth: nat)
    ensures
        json_value_spec(rest, depth) matches Outcome::Parsed { next, .. } ==> 0 < next
            <= rest.len(),
        json_value_spec(rest, depth).within(rest.len()),
{
    lemma_space_run_bound(rest);
    lemma_value_bound(tail(rest, space_run(rest)), depth);
}

} // verus!
