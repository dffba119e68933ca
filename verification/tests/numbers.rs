use json_parser::error::{ErrorKind, ParseError};
use json_parser::number::{number, Exponent, Number};

fn text(input: &str) -> Vec<char> {
    input.chars().collect()
}

fn written(
    negative: bool,
    integer: i64,
    fraction: &[u8],
    exponent: Option<(bool, i64)>,
) -> Number {
    Number {
        negative,
        integer,
        fraction: fraction.to_vec(),
        exponent: exponent.map(|(negative, digits)| Exponent { negative, digits }),
    }
}

fn no_number<T>(position: usize, kind: ErrorKind, committed: bool) -> Result<T, ParseError> {
    Err(ParseError { position, kind, committed })
}

fn as_float(n: &Number) -> f64 {
    let whole = n.integer as f64;
    let signed = if n.negative { -whole } else { whole };
    let mut magnitude = 1.0;
    let mut fraction = 0.0;
    for d in n.fraction.iter() {
        magnitude /= 10.0;
        fraction = fraction + (*d as f64) * magnitude;
    }
    let mantissa = if signed >= 0.0 { signed + fraction } else { signed - fraction };
    match n.exponent {
        Some(e) => mantissa * 10.0f64.powi(e.power()),
        None => mantissa,
    }
}

fn float_at(input: &str) -> f64 {
    as_float(&number(&text(input), 0).unwrap().0)
}

#[test]
fn number_keeps_its_parts() {
    assert_eq!(number(&text("0"), 0), Ok((written(false, 0, &[], None), 1)));
    assert_eq!(number(&text("-0"), 0), Ok((written(true, 0, &[], None), 2)));
    assert_eq!(number(&text("-0.5"), 0), Ok((written(true, 0, &[5], None), 4)));
    assert_eq!(number(&text("42"), 0), Ok((written(false, 42, &[], None), 2)));
    assert_eq!(number(&text("-100"), 0), Ok((written(true, 100, &[], None), 4)));
    assert_eq!(number(&text("3.14"), 0), Ok((written(false, 3, &[1, 4], None), 4)));
    assert_eq!(number(&text("0.59"), 0), Ok((written(false, 0, &[5, 9], None), 4)));
    assert_eq!(number(&text("0.050"), 0), Ok((written(false, 0, &[0, 5, 0], None), 5)));
    assert_eq!(number(&text("-1e2"), 0), Ok((written(true, 1, &[], Some((false, 2))), 4)));
    assert_eq!(number(&text("23e-2"), 0), Ok((written(false, 23, &[], Some((true, 2))), 5)));
    assert_eq!(number(&text("1.5E10"), 0), Ok((written(false, 1, &[5], Some((false, 10))), 6)));
    assert_eq!(number(&text("7."), 0), Ok((written(false, 7, &[], None), 2)));
    assert_eq!(number(&text("7.e1"), 0), Ok((written(false, 7, &[], Some((false, 1))), 4)));
    assert_eq!(number(&text("x 12,"), 2), Ok((written(false, 12, &[], None), 4)));
}

#[test]
fn number_skips_whitespace_where_the_grammar_does() {
    assert_eq!(number(&text("42   "), 0), Ok((written(false, 42, &[], None), 5)));
    assert_eq!(number(&text("4.2 \n]"), 0), Ok((written(false, 4, &[2], None), 5)));
    assert_eq!(number(&text("1e5\t,"), 0), Ok((written(false, 1, &[], Some((false, 5))), 4)));
    assert_eq!(number(&text("12 .5"), 0), Ok((written(false, 12, &[5], None), 5)));
    assert_eq!(number(&text("12 e5"), 0), Ok((written(false, 12, &[], Some((false, 5))), 5)));
    assert_eq!(number(&text("0 .5"), 0), Ok((written(false, 0, &[], None), 2)));
    assert_eq!(number(&text("1. 5"), 0), Ok((written(false, 1, &[], None), 3)));
    assert_eq!(number(&text("1.5 e3"), 0), Ok((written(false, 1, &[5], None), 4)));
}

#[test]
fn number_stops_where_it_ends() {
    assert_eq!(number(&text("0123"), 0), Ok((written(false, 0, &[], None), 1)));
    assert_eq!(number(&text("00"), 0), Ok((written(false, 0, &[], None), 1)));
    assert_eq!(number(&text("1.2.3"), 0), Ok((written(false, 1, &[2], None), 3)));
    assert_eq!(number(&text("1e2e3"), 0), Ok((written(false, 1, &[], Some((false, 2))), 3)));
    assert_eq!(number(&text("1-2"), 0), Ok((written(false, 1, &[], None), 1)));
    assert_eq!(number(&text("1e+2"), 0), no_number(2, ErrorKind::ExpectedInteger, true));
    assert_eq!(number(&text("+1"), 0), no_number(0, ErrorKind::ExpectedNumber, false));
}

#[test]
fn number_fails_without_consuming_where_none_begins() {
    assert_eq!(number(&text(""), 0), no_number(0, ErrorKind::ExpectedNumber, false));
    assert_eq!(number(&text("x"), 0), no_number(0, ErrorKind::ExpectedNumber, false));
    assert_eq!(number(&text(".5"), 0), no_number(0, ErrorKind::ExpectedNumber, false));
    assert_eq!(number(&text(" 1"), 0), no_number(0, ErrorKind::ExpectedNumber, false));
    assert_eq!(number(&text("e5"), 0), no_number(0, ErrorKind::ExpectedNumber, false));
    assert_eq!(number(&text("12"), 2), no_number(2, ErrorKind::ExpectedNumber, false));
    assert_eq!(number(&text("12"), 7), no_number(7, ErrorKind::ExpectedNumber, false));
}

#[test]
fn number_fails_for_good_once_it_has_begun() {
    assert_eq!(number(&text("-"), 0), no_number(1, ErrorKind::ExpectedInteger, true));
    assert_eq!(number(&text("- 1"), 0), no_number(1, ErrorKind::ExpectedInteger, true));
    assert_eq!(number(&text("-.5"), 0), no_number(1, ErrorKind::ExpectedInteger, true));
    assert_eq!(number(&text("--1"), 0), no_number(1, ErrorKind::ExpectedInteger, true));
    assert_eq!(number(&text("1e"), 0), no_number(2, ErrorKind::ExpectedInteger, true));
    assert_eq!(number(&text("1E-"), 0), no_number(3, ErrorKind::ExpectedInteger, true));
    assert_eq!(number(&text("1e 5"), 0), no_number(2, ErrorKind::ExpectedInteger, true));
    assert_eq!(number(&text("1.5e- 5"), 0), no_number(5, ErrorKind::ExpectedInteger, true));
    assert_eq!(number(&text("0ex"), 0), no_number(2, ErrorKind::ExpectedInteger, true));
}

#[test]
fn number_wraps_its_integers() {
    assert_eq!(
        number(&text("9223372036854775808"), 0),
        Ok((written(false, i64::MIN, &[], None), 19))
    );
    assert_eq!(
        number(&text("1e18446744073709551617"), 0),
        Ok((written(false, 1, &[], Some((false, 1))), 22))
    );
}

#[test]
fn exponent_power() {
    assert_eq!(Exponent { negative: false, digits: 0 }.power(), 0);
    assert_eq!(Exponent { negative: false, digits: 2 }.power(), 2);
    assert_eq!(Exponent { negative: true, digits: 2 }.power(), -2);
    assert_eq!(Exponent { negative: true, digits: 0 }.power(), 0);
    assert_eq!(Exponent { negative: false, digits: 2147483647 }.power(), i32::MAX);
    assert_eq!(Exponent { negative: false, digits: 2147483648 }.power(), i32::MIN);
    assert_eq!(Exponent { negative: true, digits: 2147483648 }.power(), i32::MIN);
    assert_eq!(Exponent { negative: false, digits: 4294967296 + 7 }.power(), 7);
    assert_eq!(Exponent { negative: true, digits: 4294967296 + 7 }.power(), -7);
    assert_eq!(Exponent { negative: true, digits: i64::MIN }.power(), 0);
    assert_eq!(Exponent { negative: false, digits: -1 }.power(), -1);
    assert_eq!(Exponent { negative: true, digits: -1 }.power(), 1);
}

#[test]
fn float_values() {
    assert_eq!(float_at("-1e2"), -100.0);
    assert_eq!(float_at("23e-2"), 0.23);
    assert_eq!(float_at("0.59"), 0.59);
    assert_eq!(float_at("-100"), -100.0);
    assert_eq!(float_at("3.14"), 3.14);
    assert_eq!(float_at("-2.5"), -2.5);
    assert_eq!(float_at("1.5e3"), 1500.0);
    assert_eq!(float_at("0"), 0.0);
    assert_eq!(float_at("12 .5"), 12.5);
    assert_eq!(float_at("1e-0"), 1.0);
}
