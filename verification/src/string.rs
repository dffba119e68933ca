//! Strings: quoting and backslash escapes.

use vstd::prelude::*;
use crate::error::{
    ErrorKind,
    Outcome,
    ParseError,
    continued,
    lemma_continued_end,
    lemma_continued_step,
    lemma_tail_tail,
    outcome_of,
    tail,
};
use crate::lexical::{char_at, lemma_space_run_bound, lex, lexed};

verus! {

/// Assumed of `String::push` of the standard library, and not proved: the
/// string afterwards is the string before with `c` as one more character
/// at its end.
pub assume_specification[ std::string::String::push ](s: &mut std::string::String, c: char)
    ensures
        final(s)@ == old(s)@.push(c),
;

/// The character that a backslash followed by `c` stands for, if any.
pub open spec fn unescape(c: char) -> Option<char> {
    if c == '"' {
        Some('"')
    } else if c == '\\' {
        Some('\\')
    } else if c == '/' {
        Some('/')
    } else if c == 'b' {
        Some('\u{0008}')
    } else if c == 'f' {
        Some('\u{000c}')
    } else if c == 'n' {
        Some('\n')
    } else if c == 'r' {
        Some('\r')
    } else if c == 't' {
        Some('\t')
    } else {
        None
    }
}

/// One character of a string's content: any character but a quote and a
/// backslash stands for itself, and a backslash with an escape character
/// after it for what the two denote. At a quote, or at the end of the
/// input, the content ends: that failure consumes nothing.
pub open spec fn json_char_spec(rest: Seq<char>) -> Outcome<char> {
    if rest.len() == 0 || rest[0] == '"' {
        Outcome::Failed { position: 0, kind: ErrorKind::EndOfString, committed: false }
    } else if rest[0] == '\\' {
        if rest.len() > 1 && unescape(rest[1]) is Some {
            Outcome::Parsed { value: unescape(rest[1])->0, next: 2 }
        } else {
            Outcome::Failed { position: 1, kind: ErrorKind::UnrecognizedEscape, committed: true }
        }
    } else {
        Outcome::Parsed { value: rest[0], next: 1 }
    }
}

/// The content of a string: characters up to where the content ends.
#[verifier::opaque]
pub open spec fn string_body(rest: Seq<char>) -> Outcome<Seq<char>>
    decreases rest.len(),
{
    match json_char_spec(rest) {
        Outcome::Parsed { value: c, next } => continued(
            seq![c],
            next,
            string_body(tail(rest, next)),
        ),
        Outcome::Failed { position, kind, committed } => if committed {
            Outcome::Failed { position, kind, committed }
        } else {
            Outcome::Parsed { value: Seq::empty(), next: 0 }
        },
    }
}

/// A string: a quote, the content, a quote, and the whitespace after it.
/// The value is the content with every escape replaced.
#[verifier::opaque]
pub open spec fn json_string_spec(rest: Seq<char>) -> Outcome<Seq<char>> {
    if !char_at(rest, 0, '"') {
        Outcome::Failed { position: 0, kind: ErrorKind::ExpectedString, committed: false }
    } else {
        match string_body(tail(rest, 1)) {
            Outcome::Failed { position, kind, .. } => Outcome::Failed {
                position: 1 + position,
                kind,
                committed: true,
            },
            Outcome::Parsed { value, next } => if char_at(rest, 1 + next, '"') {
                lexed(rest, Outcome::Parsed { value, next: 2 + next })
            } else {
                Outcome::Failed {
                    position: 1 + next,
                    kind: ErrorKind::ExpectedChar('"'),
                    committed: true,
                }
            },
        }
    }
}

/// The escape characters are those that `ErrorKind::expected_spec` lists
/// for an escape that was not recognized.
pub proof fn lemma_escape_characters(c: char)
    ensures
        unescape(c) is Some <==> ErrorKind::UnrecognizedEscape.expected_spec().contains(
            ErrorKind::ExpectedChar(c),
        ),
{
    let listed = ErrorKind::UnrecognizedEscape.expected_spec();
    if unescape(c) is Some {
        let i: int = if c == '"' {
            0
        } else if c == '\\' {
            1
        } else if c == '/' {
            2
        } else if c == 'b' {
            3
        } else if c == 'f' {
            4
        } else if c == 'n' {
            5
        } else if c == 'r' {
            6
        } else {
            7
        };
        assert(listed[i] == ErrorKind::ExpectedChar(c));
    }
}

/// The content of a string fails for good or not at all, within the
/// text, and takes no more characters than there are.
pub proof fn lemma_body_bound(rest: Seq<char>)
    ensures
        string_body(rest) matches Outcome::Failed { committed, .. } ==> committed,
        string_body(rest) matches Outcome::Parsed { next, .. } ==> next <= rest.len(),
        string_body(rest).within(rest.len()),
    decreases rest.len(),
{
    reveal(string_body);
    if let Outcome::Parsed { next, .. } = json_char_spec(rest) {
        lemma_body_bound(tail(rest, next));
    }
}

/// A string that was parsed took at least one character and no more than
/// there were; one that failed, failed within the text.
pub proof fn lemma_string_bound(rest: Seq<char>)
    ensures
        json_string_spec(rest) matches Outcome::Parsed { next, .. } ==> 0 < next <= rest.len(),
        json_string_spec(rest).within(rest.len()),
{
    reveal(json_string_spec);
    lemma_body_bound(tail(rest, 1));
    if let Outcome::Parsed { next, .. } = string_body(tail(rest, 1)) {
        lemma_space_run_bound(tail(rest, 2 + next));
    }
}

/// The character that a backslash followed by `c` stands for, if any.
fn escaped(c: char) -> (r: Option<char>)
    ensures
        r == unescape(c),
{
    if c == '"' {
        Some('"')
    } else if c == '\\' {
        Some('\\')
    } else if c == '/' {
        Some('/')
    } else if c == 'b' {
        Some('\u{0008}')
    } else if c == 'f' {
        Some('\u{000c}')
    } else if c == 'n' {
        Some('\n')
    } else if c == 'r' {
        Some('\r')
    } else if c == 't' {
        Some('\t')
    } else {
        None
    }
}

/// Reads one character of a string's content at `pos`, replacing an escape
/// by the character it denotes.
pub fn json_char(input: &[char], pos: usize) -> (r: Result<(char, usize), ParseError>)
    ensures
        outcome_of(r) == json_char_spec(tail(input@, pos as nat)).at(pos as nat),
{
    if pos >= input.len() || input[pos] == '"' {
        Err(ParseError { position: pos, kind: ErrorKind::EndOfString, committed: false })
    } else if input[pos] == '\\' {
        let found = if pos + 1 < input.len() {
            escaped(input[pos + 1])
        } else {
            None
        };
        match found {
            Some(c) => Ok((c, pos + 2)),
            None => Err(
                ParseError {
                    position: pos + 1,
                    kind: ErrorKind::UnrecognizedEscape,
                    committed: true,
                },
            ),
        }
    } else {
        Ok((input[pos], pos + 1))
    }
}

/// Parses a quoted string at `pos` and skips the whitespace after its
/// closing quote. The value is the content with every escape replaced.
pub fn json_string(input: &[char], pos: usize) -> (r: Result<(String, usize), ParseError>)
    ensures
        outcome_of(r) == json_string_spec(tail(input@, pos as nat)).at(pos as nat),
{
    proof {
        reveal(json_string_spec);
    }
    if !(pos < input.len() && input[pos] == '"') {
        return Err(
            ParseError { position: pos, kind: ErrorKind::ExpectedString, committed: false },
        );
    }
    let start: usize = pos + 1;
    let ghost body = tail(input@, start as nat);
    let mut text = String::new();
    let mut i: usize = start;
    proof {
        lemma_tail_tail(input@, pos as nat, 1);
        lemma_body_bound(body);
        assert(Seq::<char>::empty() + string_body(body)->value =~= string_body(body)->value);
    }
    loop
        invariant
            start <= i <= input.len(),
            start == pos + 1,
            input@[pos as int] == '"',
            body == tail(input@, start as nat),
            body == tail(tail(input@, pos as nat), 1),
            string_body(body) == continued(
                text@,
                (i - start) as nat,
                string_body(tail(input@, i as nat)),
            ),
        ensures
            start <= i <= input.len(),
            string_body(body) == (Outcome::Parsed { value: text@, next: (i - start) as nat }),
        decreases input.len() - i,
    {
        match json_char(input, i) {
            Ok((c, next)) => {
                proof {
                    reveal(string_body);
                    lemma_continued_step(
                        text@,
                        (i - start) as nat,
                        c,
                        (next - i) as nat,
                        string_body(tail(input@, next as nat)),
                    );
                    lemma_tail_tail(input@, i as nat, (next - i) as nat);
                }
                text.push(c);
                i = next;
            },
            Err(e) => {
                proof {
                    reveal(string_body);
                    reveal(json_string_spec);
                    let here = tail(input@, i as nat);
                    lemma_continued_end(text@, (i - start) as nat);
                    assert(string_body(here) == if e.committed {
                        Outcome::Failed {
                            position: (e.position - i) as nat,
                            kind: e.kind,
                            committed: true,
                        }
                    } else {
                        Outcome::Parsed { value: Seq::<char>::empty(), next: 0 }
                    });
                }
                if e.committed {
                    return Err(e);
                }
                break ;
            },
        }
    }
    proof {
        reveal(json_string_spec);
    }
    if i < input.len() && input[i] == '"' {
        proof {
            lemma_tail_tail(input@, pos as nat, (i + 1 - pos) as nat);
        }
        lex(input, Ok((text, i + 1)))
    } else {
        Err(ParseError { position: i, kind: ErrorKind::ExpectedChar('"'), committed: true })
    }
}

} // verus!
