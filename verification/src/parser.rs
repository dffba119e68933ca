//! The parsers of the structure: values, arrays, objects, documents.

use vstd::prelude::*;
use crate::error::{
    ErrorKind,
    Outcome,
    ParseError,
    continued,
    lemma_continued_end,
    lemma_continued_step,
    lemma_tail_tail,
    outcome_of,
    tail,
};
use crate::grammar::{
    Member,
    array_spec,
    json_value_spec,
    lemma_json_value_bound,
    lemma_container_unfold,
    lemma_member_bound,
    lemma_member_unfold,
    lemma_members_unfold,
    lemma_more_members_unfold,
    lemma_object_unfold,
    lemma_value_bound,
    lemma_value_unfold,
    member_spec,
    members_spec,
    more_members,
    object_spec,
    value_spec,
    values_of,
    word_false,
    word_null,
    word_true,
};
use crate::lexical::{keyword, lemma_symbol_bound, spaces, symbol};
use crate::number::number;
use vstd::string::StrSliceExecFns;
use crate::string::{json_string, lemma_string_bound};
use crate::value::{
    JsonValue,
    Value,
    collect,
    distinct_keys,
    lemma_values_view,
    members_view,
    members_wf,
    put,
    values_view,
};

verus! {

/// The nesting depth that `parse` allows.
pub const MAX_DEPTH: usize = 128;

/// The members of an array that holds `values`.
pub open spec fn unkeyed(values: Seq<JsonValue>) -> Seq<Member> {
    Seq::new(values.len(), |i: int| (Seq::<char>::empty(), values[i]))
}

/// Whether every value of the list is well formed.
pub open spec fn values_wf(items: Seq<Value>) -> bool {
    forall|i: int| 0 <= i < items.len() ==> (#[trigger] items[i]).wf()
}

/// One more value at the end of an array is one more member at the end.
proof fn lemma_unkeyed_push(items: Seq<Value>, last: Value)
    ensures
        unkeyed(values_view(items.push(last))) == unkeyed(values_view(items)).push(
            (Seq::<char>::empty(), last@),
        ),
{
    lemma_values_view(items);
    lemma_values_view(items.push(last));
    assert(unkeyed(values_view(items.push(last))) =~= unkeyed(values_view(items)).push(
        (Seq::<char>::empty(), last@),
    ));
}

/// Parses the members of an array: values separated by commas.
fn elements(input: &[char], pos: usize, depth: usize) -> (r: Result<(Vec<Value>, usize), ParseError>)
    requires
        pos <= input.len(),
    ensures
        match r {
            Ok((items, next)) => pos <= next <= input.len() && values_wf(items@) && members_spec(
                tail(input@, pos as nat),
                depth as nat,
                false,
            ) == (Outcome::Parsed {
                value: unkeyed(values_view(items@)),
                next: (next - pos) as nat,
            }),
            Err(e) => members_spec(tail(input@, pos as nat), depth as nat, false).at(pos as nat)
                == (Outcome::Failed::<Seq<Member>> {
                position: e.position as nat,
                kind: e.kind,
                committed: e.committed,
            }),
        },
    decreases depth, 2nat,
{
    let ghost rest = tail(input@, pos as nat);
    let ghost whole = members_spec(rest, depth as nat, false);
    let mut items: Vec<Value> = Vec::new();
    proof {
        lemma_value_bound(rest, depth as nat);
        lemma_members_unfold(rest, depth as nat, false);
        lemma_member_unfold(rest, depth as nat, false);
    }
    let (first, after_first) = match value(input, pos, depth) {
        Ok(found) => found,
        Err(e) => {
            if e.committed {
                return Err(e);
            }
            proof {
                assert(unkeyed(values_view(items@)) =~= Seq::<Member>::empty());
            }
            return Ok((items, pos));
        },
    };
    proof {
        lemma_unkeyed_push(items@, first);
        assert(unkeyed(values_view(items@)) =~= Seq::<Member>::empty());
        assert(Seq::<Member>::empty().push((Seq::<char>::empty(), first@)) =~= seq![
            (Seq::<char>::empty(), first@),
        ]);
        lemma_tail_tail(input@, pos as nat, (after_first - pos) as nat);
    }
    items.push(first);
    let mut i: usize = after_first;
    loop
        invariant
            pos <= i <= input.len(),
            rest == tail(input@, pos as nat),
            whole == members_spec(rest, depth as nat, false),
            values_wf(items@),
            whole == continued(
                unkeyed(values_view(items@)),
                (i - pos) as nat,
                more_members(tail(input@, i as nat), depth as nat, false),
            ),
        ensures
            pos <= i <= input.len(),
            values_wf(items@),
            whole == (Outcome::Parsed {
                value: unkeyed(values_view(items@)),
                next: (i - pos) as nat,
            }),
        decreases input.len() - i,
    {
        let ghost here = tail(input@, i as nat);
        proof {
            lemma_symbol_bound(here, ',');
            lemma_more_members_unfold(here, depth as nat, false);
        }
        let after_comma = match symbol(input, i, ',') {
            Ok((_, next)) => next,
            Err(_) => {
                proof {
                    lemma_continued_end(unkeyed(values_view(items@)), (i - pos) as nat);
                }
                break ;
            },
        };
        proof {
            lemma_tail_tail(input@, i as nat, (after_comma - i) as nat);
            lemma_value_bound(tail(input@, after_comma as nat), depth as nat);
            lemma_member_unfold(tail(input@, after_comma as nat), depth as nat, false);
        }
        match value(input, after_comma, depth) {
            Ok((item, next)) => {
                proof {
                    lemma_tail_tail(input@, i as nat, (next - i) as nat);
                    lemma_continued_step(
                        unkeyed(values_view(items@)),
                        (i - pos) as nat,
                        (Seq::<char>::empty(), item@),
                        (next - i) as nat,
                        more_members(tail(input@, next as nat), depth as nat, false),
                    );
                    lemma_unkeyed_push(items@, item);
                }
                items.push(item);
                i = next;
            },
            Err(e) => {
                return Err(ParseError { position: e.position, kind: e.kind, committed: true });
            },
        }
    }
    Ok((items, i))
}

/// Parses one member of an object: a key, a colon and a value.
fn field(input: &[char], pos: usize, depth: usize) -> (r: Result<((String, Value), usize), ParseError>)
    requires
        pos <= input.len(),
    ensures
        outcome_of(r) == member_spec(tail(input@, pos as nat), depth as nat, true).at(pos as nat),
        r matches Ok((member, next)) ==> member.1.wf() && pos < next <= input.len(),
    decreases depth, 2nat,
{
    let ghost rest = tail(input@, pos as nat);
    proof {
        lemma_member_unfold(rest, depth as nat, true);
        lemma_member_bound(rest, depth as nat, true);
        lemma_string_bound(rest);
    }
    let (key, after_key) = match json_string(input, pos) {
        Ok(found) => found,
        Err(e) => {
            return Err(e);
        },
    };
    proof {
        lemma_tail_tail(input@, pos as nat, (after_key - pos) as nat);
        lemma_symbol_bound(tail(input@, after_key as nat), ':');
    }
    let after_colon = match symbol(input, after_key, ':') {
        Ok((_, next)) => next,
        Err(e) => {
            return Err(ParseError { position: e.position, kind: e.kind, committed: true });
        },
    };
    proof {
        lemma_tail_tail(input@, pos as nat, (after_colon - pos) as nat);
    }
    match value(input, after_colon, depth) {
        Ok((found, next)) => Ok(((key, found), next)),
        Err(e) => Err(ParseError { position: e.position, kind: e.kind, committed: true }),
    }
}

/// Parses the members of an object, separated by commas. Of two members
/// with one key the later one stays.
fn fields(input: &[char], pos: usize, depth: usize) -> (r: Result<
    (Vec<(String, Value)>, usize),
    ParseError,
>)
    requires
        pos <= input.len(),
    ensures
        match r {
            Ok((members, next)) => {
                &&& pos <= next <= input.len()
                &&& distinct_keys(members@)
                &&& members_wf(members@)
                &&& members_spec(tail(input@, pos as nat), depth as nat, true) matches Outcome::Parsed {
                    value: listed,
                    next: length,
                }
                &&& length == next - pos
                &&& collect(listed) == collect(members_view(members@))
            },
            Err(e) => members_spec(tail(input@, pos as nat), depth as nat, true).at(pos as nat)
                == (Outcome::Failed::<Seq<Member>> {
                position: e.position as nat,
                kind: e.kind,
                committed: e.committed,
            }),
        },
    decreases depth, 3nat,
{
    let ghost rest = tail(input@, pos as nat);
    let ghost whole = members_spec(rest, depth as nat, true);
    let mut members: Vec<(String, Value)> = Vec::new();
    proof {
        lemma_members_unfold(rest, depth as nat, true);
    }
    let ((key, found), after_first) = match field(input, pos, depth) {
        Ok(found) => found,
        Err(e) => {
            if e.committed {
                return Err(e);
            }
            return Ok((members, pos));
        },
    };
    let ghost mut listed: Seq<Member> = seq![(key@, found@)];
    proof {
        assert(listed.drop_last() =~= Seq::<Member>::empty());
        lemma_tail_tail(input@, pos as nat, (after_first - pos) as nat);
    }
    put(&mut members, key, found);
    let mut i: usize = after_first;
    loop
        invariant
            pos <= i <= input.len(),
            rest == tail(input@, pos as nat),
            whole == members_spec(rest, depth as nat, true),
            distinct_keys(members@),
            members_wf(members@),
            collect(listed) == collect(members_view(members@)),
            whole == continued(
                listed,
                (i - pos) as nat,
                more_members(tail(input@, i as nat), depth as nat, true),
            ),
        ensures
            pos <= i <= input.len(),
            distinct_keys(members@),
            members_wf(members@),
            collect(listed) == collect(members_view(members@)),
            whole == (Outcome::Parsed { value: listed, next: (i - pos) as nat }),
        decreases input.len() - i,
    {
        let ghost here = tail(input@, i as nat);
        proof {
            lemma_symbol_bound(here, ',');
            lemma_more_members_unfold(here, depth as nat, true);
        }
        let after_comma = match symbol(input, i, ',') {
            Ok((_, next)) => next,
            Err(_) => {
                proof {
                    lemma_continued_end(listed, (i - pos) as nat);
                }
                break ;
            },
        };
        proof {
            lemma_tail_tail(input@, i as nat, (after_comma - i) as nat);
        }
        match field(input, after_comma, depth) {
            Ok(((key, found), next)) => {
                proof {
                    lemma_tail_tail(input@, i as nat, (next - i) as nat);
                    lemma_continued_step(
                        listed,
                        (i - pos) as nat,
                        (key@, found@),
                        (next - i) as nat,
                        more_members(tail(input@, next as nat), depth as nat, true),
                    );
                    assert(listed.push((key@, found@)).drop_last() =~= listed);
                    listed = listed.push((key@, found@));
                }
                put(&mut members, key, found);
                i = next;
            },
            Err(e) => {
                return Err(ParseError { position: e.position, kind: e.kind, committed: true });
            },
        }
    }
    Ok((members, i))
}

/// Parses a value at `pos`: the first of string, object, array, number,
/// `false`, `true` and `null` that begins there. `depth` is the number of
/// containers that may still be entered.
pub fn value(input: &[char], pos: usize, depth: usize) -> (r: Result<(Value, usize), ParseError>)
    ensures
        outcome_of(r) == value_spec(tail(input@, pos as nat), depth as nat).at(pos as nat),
        r matches Ok((v, _)) ==> v.wf(),
    decreases depth, 1nat,
{
    proof {
        lemma_value_unfold(tail(input@, pos as nat), depth as nat);
    }
    match json_string(input, pos) {
        Ok((text, next)) => {
            return Ok((Value::String(text), next));
        },
        Err(e) => if e.committed {
            return Err(e);
        },
    }
    match object(input, pos, depth) {
        Ok(found) => {
            return Ok(found);
        },
        Err(e) => if e.committed {
            return Err(e);
        },
    }
    match array(input, pos, depth) {
        Ok(found) => {
            return Ok(found);
        },
        Err(e) => if e.committed {
            return Err(e);
        },
    }
    match number(input, pos) {
        Ok((n, next)) => {
            return Ok((Value::Number(n), next));
        },
        Err(e) => if e.committed {
            return Err(e);
        },
    }
    let word_f: [char; 5] = ['f', 'a', 'l', 's', 'e'];
    let word_t: [char; 4] = ['t', 'r', 'u', 'e'];
    let word_n: [char; 4] = ['n', 'u', 'l', 'l'];
    proof {
        assert(word_f@ =~= word_false());
        assert(word_t@ =~= word_true());
        assert(word_n@ =~= word_null());
    }
    match keyword(input, pos, &word_f) {
        Ok((_, next)) => {
            return Ok((Value::Bool(false), next));
        },
        Err(e) => if e.committed {
            return Err(e);
        },
    }
    match keyword(input, pos, &word_t) {
        Ok((_, next)) => {
            return Ok((Value::Bool(true), next));
        },
        Err(e) => if e.committed {
            return Err(e);
        },
    }
    match keyword(input, pos, &word_n) {
        Ok((_, next)) => {
            return Ok((Value::Null, next));
        },
        Err(e) => if e.committed {
            return Err(e);
        },
    }
    Err(ParseError { position: pos, kind: ErrorKind::NoAlternativeMatched, committed: false })
}

/// Parses an object at `pos` and skips the whitespace after its closing
/// brace.
pub fn object(input: &[char], pos: usize, depth: usize) -> (r: Result<(Value, usize), ParseError>)
    ensures
        outcome_of(r) == object_spec(tail(input@, pos as nat), depth as nat).at(pos as nat),
        r matches Ok((v, _)) ==> v.wf(),
    decreases depth, 0nat,
{
    let ghost rest = tail(input@, pos as nat);
    proof {
        lemma_symbol_bound(rest, '{');
        lemma_object_unfold(rest, depth as nat);
        lemma_container_unfold(rest, depth as nat, '{', '}', true);
    }
    let after_open = match symbol(input, pos, '{') {
        Ok((_, next)) => next,
        Err(e) => {
            return Err(
                ParseError { position: pos, kind: ErrorKind::ExpectedObject, committed: false },
            );
        },
    };
    if depth == 0 {
        return Err(ParseError { position: pos, kind: ErrorKind::DepthExceeded, committed: true });
    }
    proof {
        lemma_tail_tail(input@, pos as nat, (after_open - pos) as nat);
    }
    let (members, after_members) = match fields(input, after_open, depth - 1) {
        Ok(found) => found,
        Err(e) => {
            return Err(ParseError { position: e.position, kind: e.kind, committed: true });
        },
    };
    proof {
        lemma_tail_tail(input@, pos as nat, (after_members - pos) as nat);
    }
    match symbol(input, after_members, '}') {
        Ok((_, end)) => Ok((Value::Object(members), end)),
        Err(e) => Err(ParseError { position: e.position, kind: e.kind, committed: true }),
    }
}

/// Parses an array at `pos` and skips the whitespace after its closing
/// bracket.
pub fn array(input: &[char], pos: usize, depth: usize) -> (r: Result<(Value, usize), ParseError>)
    ensures
        outcome_of(r) == array_spec(tail(input@, pos as nat), depth as nat).at(pos as nat),
        r matches Ok((v, _)) ==> v.wf(),
    decreases depth, 0nat,
{
    let ghost rest = tail(input@, pos as nat);
    proof {
        lemma_symbol_bound(rest, '[');
        lemma_object_unfold(rest, depth as nat);
        lemma_container_unfold(rest, depth as nat, '[', ']', false);
    }
    let after_open = match symbol(input, pos, '[') {
        Ok((_, next)) => next,
        Err(e) => {
            return Err(e);
        },
    };
    if depth == 0 {
        return Err(ParseError { position: pos, kind: ErrorKind::DepthExceeded, committed: true });
    }
    proof {
        lemma_tail_tail(input@, pos as nat, (after_open - pos) as nat);
    }
    let (items, after_items) = match elements(input, after_open, depth - 1) {
        Ok(found) => found,
        Err(e) => {
            return Err(ParseError { position: e.position, kind: e.kind, committed: true });
        },
    };
    proof {
        lemma_tail_tail(input@, pos as nat, (after_items - pos) as nat);
        lemma_values_view(items@);
        assert(values_of(unkeyed(values_view(items@))) =~= values_view(items@));
    }
    match symbol(input, after_items, ']') {
        Ok((_, end)) => Ok((Value::Array(items), end)),
        Err(e) => Err(ParseError { position: e.position, kind: e.kind, committed: true }),
    }
}

/// Skips the whitespace at `pos` and parses the value after it.
pub fn json_value(input: &[char], pos: usize, depth: usize) -> (r: Result<
    (Value, usize),
    ParseError,
>)
    ensures
        outcome_of(r) == json_value_spec(tail(input@, pos as nat), depth as nat).at(pos as nat),
        r matches Ok((v, _)) ==> v.wf(),
{
    let start = spaces(input, pos);
    proof {
        lemma_tail_tail(input@, pos as nat, (start - pos) as nat);
    }
    match value(input, start, depth) {
        Ok(found) => Ok(found),
        Err(e) => Err(
            ParseError {
                position: e.position,
                kind: e.kind,
                committed: e.committed || start > pos,
            },
        ),
    }
}

/// The characters of a string slice, in order.
fn characters(text: &str) -> (chars: Vec<char>)
    ensures
        chars@ == text@,
{
    let mut chars: Vec<char> = Vec::new();
    for c in it: text.chars()
        invariant
            chars@ == it.seq().take(it.index() as int),
    {
        chars.push(c);
    }
    chars
}

/// Whether `r` is what parsing the document `input` owes: on success the
/// value that the document denotes, well formed, with the input that
/// follows it; else the failure with its kind and its place, which lies
/// in the input or at its end.
pub open spec fn answers(input: Seq<char>, depth: nat, r: Result<(Value, &str), ParseError>) -> bool {
    match r {
        Ok((value, rest)) => {
            &&& value.wf()
            &&& json_value_spec(input, depth) matches Outcome::Parsed { value: found, next }
            &&& found == value@
            &&& rest@ == tail(input, next)
        },
        Err(e) => {
            &&& json_value_spec(input, depth) == (Outcome::Failed::<JsonValue> {
                position: e.position as nat,
                kind: e.kind,
                committed: e.committed,
            })
            &&& e.position <= input.len()
        },
    }
}

/// Parses a document with at most `depth` containers inside one another.
/// On success the value comes with the part of the input that follows it.
pub fn parse_with_depth<'a>(input: &'a str, depth: usize) -> (r: Result<
    (Value, &'a str),
    ParseError,
>)
    ensures
        answers(input@, depth as nat, r),
{
    let chars = characters(input);
    proof {
        assert(tail(input@, 0) =~= input@);
        lemma_json_value_bound(input@, depth as nat);
    }
    match json_value(chars.as_slice(), 0, depth) {
        Ok((value, next)) => {
            let rest = input.substring_char(next, chars.len());
            Ok((value, rest))
        },
        Err(e) => Err(e),
    }
}

/// Parses a document: whitespace, then a value. Trailing input is not an
/// error: on success the value comes with the part of the input that
/// follows it. Containers may be nested `MAX_DEPTH` deep.
pub fn parse<'a>(input: &'a str) -> (r: Result<(Value, &'a str), ParseError>)
    ensures
        answers(input@, MAX_DEPTH as nat, r),
{
    parse_with_depth(input, MAX_DEPTH)
}

} // verus!
