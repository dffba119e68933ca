use std::collections::HashMap;

use json_parser::error::{ErrorKind, ParseError};
use json_parser::number::{Exponent, Number};
use json_parser::parser::{json_value, parse, parse_with_depth, MAX_DEPTH};
use json_parser::value::Value;

/// A value with its numbers as floats and its objects as hash maps.
#[derive(PartialEq, Debug)]
enum Tree {
    Number(f64),
    String(String),
    Bool(bool),
    Null,
    Object(HashMap<String, Tree>),
    Array(Vec<Tree>),
}

fn float_of(n: &Number) -> f64 {
    let whole = n.integer as f64;
    let signed = if n.negative { -whole } else { whole };
    let mut magnitude = 1.0;
    let mut fraction = 0.0;
    for d in n.fraction.iter() {
        magnitude /= 10.0;
        fraction = fraction + (*d as f64) * magnitude;
    }
    let mantissa = if signed >= 0.0 { signed + fraction } else { signed - fraction };
    match n.exponent {
        Some(Exponent { negative, digits }) => {
            let e = if negative { digits.wrapping_neg() } else { digits };
            mantissa * 10.0f64.powi(e as i32)
        }
        None => mantissa,
    }
}

fn tree_of(v: &Value) -> Tree {
    match v {
        Value::Number(n) => Tree::Number(float_of(n)),
        Value::String(s) => Tree::String(s.clone()),
        Value::Bool(b) => Tree::Bool(*b),
        Value::Null => Tree::Null,
        Value::Object(members) => {
            Tree::Object(members.iter().map(|(k, v)| (k.clone(), tree_of(v))).collect())
        }
        Value::Array(items) => Tree::Array(items.iter().map(tree_of).collect()),
    }
}

fn parsed(input: &str) -> Result<(Tree, &str), ParseError> {
    parse(input).map(|(v, rest)| (tree_of(&v), rest))
}

fn object_of(members: Vec<(&str, Tree)>) -> Tree {
    Tree::Object(members.into_iter().map(|(k, v)| (k.to_string(), v)).collect())
}

fn failure(position: usize, kind: ErrorKind, committed: bool) -> ParseError {
    ParseError { position, kind, committed }
}

#[test]
fn json_test() {
    let input = r#"{
    "array": [1, ""],
    "object": {},
    "number": 3.14,
    "small_number": 0.59,
    "int": -100,
    "exp": -1e2,
    "exp_neg": 23e-2,
    "true": true,
    "false"  : false,
    "null" : null
}"#;
    let result = parsed(input);
    let expected = Tree::Object(
        vec![
            ("array", Tree::Array(vec![Tree::Number(1.0), Tree::String("".to_string())])),
            ("object", Tree::Object(HashMap::new())),
            ("number", Tree::Number(3.14)),
            ("small_number", Tree::Number(0.59)),
            ("int", Tree::Number(-100.)),
            ("exp", Tree::Number(-1e2)),
            ("exp_neg", Tree::Number(23E-2)),
            ("true", Tree::Bool(true)),
            ("false", Tree::Bool(false)),
            ("null", Tree::Null),
        ].into_iter()
            .map(|(k, v)| (k.to_string(), v))
            .collect(),
    );
    match result {
        Ok(result) => assert_eq!(result, (expected, "")),
        Err(e) => {
            println!("{} at {}", e.kind.label(), e.position);
            assert!(false);
        }
    }
}

#[test]
fn test() {
    let data = "  { \"a\"\t: 42,
  \"b\": [ \"x\", \"y\", 12 ] ,
  \"c\": { \"hello\" : \"world\"
  }
  }  ";

    let chars: Vec<char> = data.chars().collect();
    let (value, next) = json_value(&chars, 0, MAX_DEPTH).unwrap();
    println!("test: {:?}", (&value, next));
    assert_eq!(next, chars.len());
    assert_eq!(
        tree_of(&value),
        object_of(vec![
            ("a", Tree::Number(42.0)),
            (
                "b",
                Tree::Array(vec![
                    Tree::String("x".to_string()),
                    Tree::String("y".to_string()),
                    Tree::Number(12.0),
                ]),
            ),
            ("c", object_of(vec![("hello", Tree::String("world".to_string()))])),
        ])
    );
}

#[test]
fn canonical_literals_consume_all_input() {
    assert_eq!(parsed("true"), Ok((Tree::Bool(true), "")));
    assert_eq!(parsed("false"), Ok((Tree::Bool(false), "")));
    assert_eq!(parsed("null"), Ok((Tree::Null, "")));
    let (v, rest) = parse("true").unwrap();
    assert_eq!(v, Value::Bool(true));
    assert_eq!(rest, "");
}

#[test]
fn numbers_have_their_float_values() {
    assert_eq!(parsed("-1e2"), Ok((Tree::Number(-100.0), "")));
    assert_eq!(parsed("23e-2"), Ok((Tree::Number(0.23), "")));
    assert_eq!(parsed("0.59"), Ok((Tree::Number(0.59), "")));
    assert_eq!(parsed("-100"), Ok((Tree::Number(-100.0), "")));
    assert_eq!(parsed("3.14"), Ok((Tree::Number(3.14), "")));
    assert_eq!(parsed("0"), Ok((Tree::Number(0.0), "")));
    assert_eq!(parsed("12E3"), Ok((Tree::Number(12000.0), "")));
}

#[test]
fn empty_containers() {
    assert_eq!(parsed("{}"), Ok((Tree::Object(HashMap::new()), "")));
    assert_eq!(parsed("[]"), Ok((Tree::Array(vec![]), "")));
    assert_eq!(parse("{}").unwrap().0, Value::Object(vec![]));
    assert_eq!(parse("[]").unwrap().0, Value::Array(vec![]));
    assert_eq!(parsed("{ }"), Ok((Tree::Object(HashMap::new()), "")));
    assert_eq!(parsed("[ ]"), Ok((Tree::Array(vec![]), "")));
}

#[test]
fn nesting() {
    assert_eq!(
        parsed(r#"{"a":[1,""]}"#),
        Ok((
            object_of(vec![(
                "a",
                Tree::Array(vec![Tree::Number(1.0), Tree::String("".to_string())])
            )]),
            ""
        ))
    );
}

#[test]
fn duplicate_keys_keep_the_last_value() {
    assert_eq!(
        parsed(r#"{"a":1,"a":2}"#),
        Ok((object_of(vec![("a", Tree::Number(2.0))]), ""))
    );
    let (value, _) = parse(r#"{"a":1,"b":true,"a":2}"#).unwrap();
    match value {
        Value::Object(members) => {
            assert_eq!(members.len(), 2);
            assert_eq!(members[0].0, "a");
            assert_eq!(tree_of(&members[0].1), Tree::Number(2.0));
            assert_eq!(members[1].0, "b");
            assert_eq!(members[1].1, Value::Bool(true));
        }
        other => panic!("not an object: {:?}", other),
    }
}

#[test]
fn whitespace_between_tokens_changes_nothing() {
    let compact = r#"{"a":[1,"x y",{"b":null}],"c":-2.5e3,"d":true}"#;
    let spaced = " {\n\t\"a\" :\t[ 1 ,\n \"x y\"\t, { \"b\"\r\n: null } ] , \"c\" : -2.5e3 ,\n\"d\":true\n}\n ";
    let a = parsed(compact).unwrap();
    let b = parsed(spaced).unwrap();
    assert_eq!(a.0, b.0);
    assert_eq!(a.1, "");
    assert_eq!(b.1, "");
    assert_eq!(parse(compact).unwrap().0, parse(spaced).unwrap().0);
    assert_eq!(parsed(" \u{a0}\u{2003}\u{3000}[\u{2028}1\u{85}]\u{1680}"), Ok((Tree::Array(vec![Tree::Number(1.0)]), "")));
}

#[test]
fn escapes_are_replaced() {
    assert_eq!(
        parsed(r#""\n\t\"\\""#),
        Ok((Tree::String("\n\t\"\\".to_string()), ""))
    );
    let (v, _) = parse(r#""\n\t\"\\""#).unwrap();
    match v {
        Value::String(s) => assert_eq!(s.chars().collect::<Vec<char>>(), vec!['\n', '\t', '"', '\\']),
        other => panic!("not a string: {:?}", other),
    }
    assert_eq!(
        parsed(r#""\b\f\r\/""#),
        Ok((Tree::String("\u{8}\u{c}\r/".to_string()), ""))
    );
}

#[test]
fn trailing_input_is_handed_back() {
    assert_eq!(parsed("42 trailing"), Ok((Tree::Number(42.0), "trailing")));
    assert_eq!(parsed("42trailing"), Ok((Tree::Number(42.0), "trailing")));
    assert_eq!(parsed("[1] é ü"), Ok((Tree::Array(vec![Tree::Number(1.0)]), "é ü")));
    assert_eq!(parsed("\"é\"ü"), Ok((Tree::String("é".to_string()), "ü")));
    assert_eq!(parsed("null,"), Ok((Tree::Null, ",")));
}

#[test]
fn a_missing_value_fails_where_it_was_expected() {
    assert_eq!(
        parse("{\"a\": }"),
        Err(failure(6, ErrorKind::NoAlternativeMatched, true))
    );
}

#[test]
fn nothing_to_parse() {
    assert_eq!(parse(""), Err(failure(0, ErrorKind::NoAlternativeMatched, false)));
    assert_eq!(parse("   "), Err(failure(3, ErrorKind::NoAlternativeMatched, true)));
    assert_eq!(parse("x"), Err(failure(0, ErrorKind::NoAlternativeMatched, false)));
    assert_eq!(parse("]"), Err(failure(0, ErrorKind::NoAlternativeMatched, false)));
}

#[test]
fn structural_failures() {
    assert_eq!(parse("[1 2]"), Err(failure(3, ErrorKind::ExpectedChar(']'), true)));
    assert_eq!(parse("[1,]"), Err(failure(3, ErrorKind::NoAlternativeMatched, true)));
    assert_eq!(parse("[x]"), Err(failure(1, ErrorKind::ExpectedChar(']'), true)));
    assert_eq!(parse("[1"), Err(failure(2, ErrorKind::ExpectedChar(']'), true)));
    assert_eq!(parse("{\"a\" 1}"), Err(failure(5, ErrorKind::ExpectedChar(':'), true)));
    assert_eq!(parse("{\"a\":1,}"), Err(failure(7, ErrorKind::ExpectedString, true)));
    assert_eq!(parse("{\"a\":1 \"b\":2}"), Err(failure(7, ErrorKind::ExpectedChar('}'), true)));
    assert_eq!(parse("{1:2}"), Err(failure(1, ErrorKind::ExpectedChar('}'), true)));
    assert_eq!(parse("\"abc"), Err(failure(4, ErrorKind::ExpectedChar('"'), true)));
    assert_eq!(parse("\"a\\x\""), Err(failure(3, ErrorKind::UnrecognizedEscape, true)));
    assert_eq!(parse("\"a\\"), Err(failure(3, ErrorKind::UnrecognizedEscape, true)));
    assert_eq!(parse("\"\\u0041\""), Err(failure(2, ErrorKind::UnrecognizedEscape, true)));
    assert_eq!(parse("-"), Err(failure(1, ErrorKind::ExpectedInteger, true)));
    assert_eq!(parse("-x"), Err(failure(1, ErrorKind::ExpectedInteger, true)));
    assert_eq!(parse("1e"), Err(failure(2, ErrorKind::ExpectedInteger, true)));
    assert_eq!(parse("1e-"), Err(failure(3, ErrorKind::ExpectedInteger, true)));
    assert_eq!(parse("fals"), Err(failure(4, ErrorKind::ExpectedChar('e'), true)));
    assert_eq!(parse("tru "), Err(failure(3, ErrorKind::ExpectedChar('e'), true)));
    assert_eq!(parse("nil"), Err(failure(1, ErrorKind::ExpectedChar('u'), true)));
    assert_eq!(parse(" [ \"a\" , tx ]"), Err(failure(10, ErrorKind::ExpectedChar('r'), true)));
}

#[test]
fn nesting_is_limited() {
    assert_eq!(parse_with_depth("1", 0).map(|(v, _)| tree_of(&v)), Ok(Tree::Number(1.0)));
    assert_eq!(parse_with_depth("[]", 0), Err(failure(0, ErrorKind::DepthExceeded, true)));
    assert_eq!(parse_with_depth("{}", 0), Err(failure(0, ErrorKind::DepthExceeded, true)));
    assert_eq!(parse_with_depth(" []", 0), Err(failure(1, ErrorKind::DepthExceeded, true)));
    assert_eq!(parse_with_depth("[[]]", 1), Err(failure(1, ErrorKind::DepthExceeded, true)));
    assert_eq!(
        parse_with_depth("[[]]", 2).map(|(v, _)| tree_of(&v)),
        Ok(Tree::Array(vec![Tree::Array(vec![])]))
    );
    assert_eq!(
        parse_with_depth("{\"a\":{\"b\":[]}}", 2),
        Err(failure(10, ErrorKind::DepthExceeded, true))
    );
    let deep = format!("{}{}", "[".repeat(MAX_DEPTH), "]".repeat(MAX_DEPTH));
    assert!(parse(&deep).is_ok());
    let deeper = format!("{}{}", "[".repeat(MAX_DEPTH + 1), "]".repeat(MAX_DEPTH + 1));
    assert_eq!(parse(&deeper), Err(failure(MAX_DEPTH, ErrorKind::DepthExceeded, true)));
    let hopeless = "[".repeat(100_000);
    assert_eq!(parse(&hopeless), Err(failure(MAX_DEPTH, ErrorKind::DepthExceeded, true)));
}

#[test]
fn positions_count_characters() {
    assert_eq!(parse("[\"é\", x]"), Err(failure(6, ErrorKind::NoAlternativeMatched, true)));
    let chars: Vec<char> = "é[1] ".chars().collect();
    let (value, next) = json_value(&chars, 1, MAX_DEPTH).unwrap();
    assert_eq!(tree_of(&value), Tree::Array(vec![Tree::Number(1.0)]));
    assert_eq!(next, 5);
    assert_eq!(
        json_value(&chars, 9, MAX_DEPTH),
        Err(failure(9, ErrorKind::NoAlternativeMatched, false))
    );
}

/// For each character of `text`, the number of the token it belongs to:
/// strings, numbers and literals count, punctuation gets a token of its own.
fn tokens_of(text: &[char]) -> Vec<usize> {
    let mut spans = Vec::new();
    let mut token = 0;
    let mut i = 0;
    while i < text.len() {
        token += 1;
        if text[i] == '"' {
            spans.push(token);
            i += 1;
            while text[i] != '"' {
                if text[i] == '\\' {
                    spans.push(token);
                    i += 1;
                }
                spans.push(token);
                i += 1;
            }
            spans.push(token);
            i += 1;
        } else if text[i].is_ascii_alphanumeric() || text[i] == '-' {
            while i < text.len()
                && (text[i].is_ascii_alphanumeric() || text[i] == '-' || text[i] == '.')
            {
                spans.push(token);
                i += 1;
            }
        } else {
            spans.push(token);
            i += 1;
        }
    }
    spans
}

#[test]
fn whitespace_at_every_token_boundary_changes_nothing() {
    let compact = r#"{"a":[1,"x\" y",{"b":null,"":[]}],"c":-2.5e3,"d":true,"e":[false,0,12E-1,[[]]]}"#;
    let text: Vec<char> = compact.chars().collect();
    let spans = tokens_of(&text);
    assert_eq!(spans.len(), text.len());
    let (baseline, rest) = parsed(compact).unwrap();
    assert_eq!(rest, "");
    let mut boundaries = 0;
    for p in 0..=text.len() {
        let inside = p > 0 && p < text.len() && spans[p - 1] == spans[p];
        for gap in [" ", "\n", "\t\r\n  ", "\u{a0}\u{2028}"] {
            let mut spaced: String = text[..p].iter().collect();
            spaced.push_str(gap);
            spaced.extend(text[p..].iter());
            if !inside {
                let (value, rest) = parsed(&spaced).unwrap();
                assert_eq!(value, baseline, "at {}", p);
                assert_eq!(rest, "", "at {}", p);
            }
        }
        if !inside {
            boundaries += 1;
        }
    }
    assert_eq!(boundaries, 44);
}
