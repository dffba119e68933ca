//! Parse failures and the mathematical outcome of a parser.

use vstd::prelude::*;
use vstd::string::StringExecFns;

verus! {

/// What a parser was looking for when it gave up.
#[derive(Clone, Copy, Debug, PartialEq, Eq, Structural)]
pub enum ErrorKind {
    /// A run of at least one digit was required.
    ExpectedInteger,
    /// A number was tried where no sign and no digit begins one.
    ExpectedNumber,
    /// A string was tried where no opening quote stands.
    ExpectedString,
    /// An object was tried where no opening brace stands.
    ExpectedObject,
    /// A backslash inside a string is not followed by one of the escape characters.
    UnrecognizedEscape,
    /// None of the alternatives of a value begins here.
    NoAlternativeMatched,
    /// The content of a string ends here: at a quote, or with the input.
    EndOfString,
    /// This character was required: a closing quote, bracket or brace, a
    /// colon, an opening bracket, or the next character of a literal.
    ExpectedChar(char),
    /// An array or object is nested deeper than the limit allows.
    DepthExceeded,
}

impl ErrorKind {
    /// What a parser that failed in this way would have accepted. Where no
    /// alternative of a value matched, that is what each alternative looks
    /// for, in the order in which they are tried; after a backslash, the
    /// escape characters. A failure that looked for nothing lists nothing.
    pub open spec fn expected_spec(self) -> Seq<ErrorKind> {
        match self {
            ErrorKind::NoAlternativeMatched => seq![
                ErrorKind::ExpectedString,
                ErrorKind::ExpectedObject,
                ErrorKind::ExpectedChar('['),
                ErrorKind::ExpectedNumber,
                ErrorKind::ExpectedChar('f'),
                ErrorKind::ExpectedChar('t'),
                ErrorKind::ExpectedChar('n'),
            ],
            ErrorKind::UnrecognizedEscape => seq![
                ErrorKind::ExpectedChar('"'),
                ErrorKind::ExpectedChar('\\'),
                ErrorKind::ExpectedChar('/'),
                ErrorKind::ExpectedChar('b'),
                ErrorKind::ExpectedChar('f'),
                ErrorKind::ExpectedChar('n'),
                ErrorKind::ExpectedChar('r'),
                ErrorKind::ExpectedChar('t'),
            ],
            ErrorKind::EndOfString => Seq::empty(),
            ErrorKind::DepthExceeded => Seq::empty(),
            _ => seq![self],
        }
    }

    /// The words for a failure of this kind.
    pub open spec fn label_spec(self) -> Seq<char> {
        match self {
            ErrorKind::ExpectedInteger => "expected integer"@,
            ErrorKind::ExpectedNumber => "expected number"@,
            ErrorKind::ExpectedString => "expected string"@,
            ErrorKind::ExpectedObject => "expected object"@,
            ErrorKind::UnrecognizedEscape => "unrecognized escape"@,
            ErrorKind::NoAlternativeMatched => "no alternative matched"@,
            ErrorKind::EndOfString => "end of string content"@,
            ErrorKind::ExpectedChar(c) => "expected "@.push(c),
            ErrorKind::DepthExceeded => "nesting too deep"@,
        }
    }

    /// Says in words what kind of failure this is.
    pub fn label(&self) -> (r: String)
        ensures
            r@ == self.label_spec(),
    {
        match self {
            ErrorKind::ExpectedInteger => String::from_str("expected integer"),
            ErrorKind::ExpectedNumber => String::from_str("expected number"),
            ErrorKind::ExpectedString => String::from_str("expected string"),
            ErrorKind::ExpectedObject => String::from_str("expected object"),
            ErrorKind::UnrecognizedEscape => String::from_str("unrecognized escape"),
            ErrorKind::NoAlternativeMatched => String::from_str("no alternative matched"),
            ErrorKind::EndOfString => String::from_str("end of string content"),
            ErrorKind::ExpectedChar(c) => {
                let mut text = String::from_str("expected ");
                text.push(*c);
                text
            },
            ErrorKind::DepthExceeded => String::from_str("nesting too deep"),
        }
    }

    /// Lists what a parser that failed in this way would have accepted.
    pub fn expected(&self) -> (r: Vec<ErrorKind>)
        ensures
            r@ == self.expected_spec(),
    {
        let mut r: Vec<ErrorKind> = Vec::new();
        match self {
            ErrorKind::NoAlternativeMatched => {
                r.push(ErrorKind::ExpectedString);
                r.push(ErrorKind::ExpectedObject);
                r.push(ErrorKind::ExpectedChar('['));
                r.push(ErrorKind::ExpectedNumber);
                r.push(ErrorKind::ExpectedChar('f'));
                r.push(ErrorKind::ExpectedChar('t'));
                r.push(ErrorKind::ExpectedChar('n'));
            },
            ErrorKind::UnrecognizedEscape => {
                r.push(ErrorKind::ExpectedChar('"'));
                r.push(ErrorKind::ExpectedChar('\\'));
                r.push(ErrorKind::ExpectedChar('/'));
                r.push(ErrorKind::ExpectedChar('b'));
                r.push(ErrorKind::ExpectedChar('f'));
                r.push(ErrorKind::ExpectedChar('n'));
                r.push(ErrorKind::ExpectedChar('r'));
                r.push(ErrorKind::ExpectedChar('t'));
            },
            ErrorKind::EndOfString => {},
            ErrorKind::DepthExceeded => {},
            _ => {
                r.push(*self);
            },
        }
        proof {
            assert(r@ =~= self.expected_spec());
        }
        r
    }
}

/// A failed parse: where it failed, why, and whether input had been consumed.
#[derive(Clone, Copy, Debug, PartialEq, Eq, Structural)]
pub struct ParseError {
    /// Index, in characters from the start of the input, of the failure.
    pub position: usize,
    pub kind: ErrorKind,
    /// `true` when the parser had consumed input before failing, so that an
    /// enclosing choice must not try another alternative.
    pub committed: bool,
}

/// The outcome of running a parser on the remaining input. Positions count
/// characters from the start of that remaining input.
pub enum Outcome<T> {
    Parsed { value: T, next: nat },
    Failed { position: nat, kind: ErrorKind, committed: bool },
}

impl<T> Outcome<T> {
    /// The same outcome seen from `by` characters earlier in the input.
    pub open spec fn at(self, by: nat) -> Outcome<T> {
        match self {
            Outcome::Parsed { value, next } => Outcome::Parsed { value, next: by + next },
            Outcome::Failed { position, kind, committed } => Outcome::Failed {
                position: by + position,
                kind,
                committed,
            },
        }
    }

    /// The same outcome when `by` characters were consumed before the
    /// parser began: a failure is then final.
    pub open spec fn after(self, by: nat) -> Outcome<T> {
        match self {
            Outcome::Parsed { value, next } => Outcome::Parsed { value, next: by + next },
            Outcome::Failed { position, kind, committed } => Outcome::Failed {
                position: by + position,
                kind,
                committed: committed || by > 0,
            },
        }
    }

    /// Whether a failure lies within a text of the length `len`: at one of
    /// its characters or at its end.
    pub open spec fn within(self, len: nat) -> bool {
        self matches Outcome::Failed { position, .. } ==> position <= len
    }

    /// Whether an enclosing choice may go on to its next alternative.
    pub open spec fn recoverable(self) -> bool {
        self matches Outcome::Failed { committed, .. } && !committed
    }

    /// Ordered choice: `other` is consulted only after a recoverable failure.
    pub open spec fn or(self, other: Outcome<T>) -> Outcome<T> {
        if self.recoverable() {
            other
        } else {
            self
        }
    }
}

/// The items read so far, over `by` characters, followed by what the rest
/// of a list gives: on success one longer list, and a failure that is final.
pub open spec fn continued<T>(so_far: Seq<T>, by: nat, then: Outcome<Seq<T>>) -> Outcome<Seq<T>> {
    match then {
        Outcome::Parsed { value, next } => Outcome::Parsed {
            value: so_far + value,
            next: by + next,
        },
        Outcome::Failed { position, kind, .. } => Outcome::Failed {
            position: by + position,
            kind,
            committed: true,
        },
    }
}

/// Reading one more item before the rest is reading it after the others.
pub proof fn lemma_continued_step<T>(
    so_far: Seq<T>,
    by: nat,
    first: T,
    step: nat,
    then: Outcome<Seq<T>>,
)
    ensures
        continued(so_far, by, continued(seq![first], step, then)) == continued(
            so_far.push(first),
            by + step,
            then,
        ),
{
    if let Outcome::Parsed { value, .. } = then {
        assert(so_far + (seq![first] + value) =~= so_far.push(first) + value);
    }
}

/// Where the list ends, the items read so far are the whole list.
pub proof fn lemma_continued_end<T>(so_far: Seq<T>, by: nat)
    ensures
        continued(so_far, by, Outcome::Parsed { value: Seq::empty(), next: 0 }) == (
        Outcome::Parsed { value: so_far, next: by }),
{
    assert(so_far + Seq::<T>::empty() =~= so_far);
}

/// The outcome that an executable parser's result stands for, with absolute
/// positions.
pub open spec fn outcome_of<T: View>(r: Result<(T, usize), ParseError>) -> Outcome<T::V> {
    match r {
        Ok((value, next)) => Outcome::Parsed { value: value@, next: next as nat },
        Err(e) => Outcome::Failed {
            position: e.position as nat,
            kind: e.kind,
            committed: e.committed,
        },
    }
}

/// What is left of `input` from position `pos` on; nothing when `pos` lies
/// beyond the end.
pub open spec fn tail(input: Seq<char>, pos: nat) -> Seq<char> {
    if pos <= input.len() {
        input.skip(pos as int)
    } else {
        Seq::empty()
    }
}

/// What is left of what is left.
pub proof fn lemma_tail_tail(input: Seq<char>, a: nat, b: nat)
    ensures
        tail(tail(input, a), b) == tail(input, a + b),
{
    if a <= input.len() && b <= input.len() - a {
        assert(input.skip(a as int).skip(b as int) =~= input.skip((a + b) as int));
    } else {
        assert(tail(tail(input, a), b) =~= Seq::<char>::empty());
    }
}

} // verus!
