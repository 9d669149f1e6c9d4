use screw_css::errors::{Error, Unexpected};
use screw_css::number::{Number, Unit};
use screw_css::tokenizer::{lex, Token, MAX_NESTING};

fn num(v: i64) -> Token {
    Token::Number(Number::from_int(v))
}

fn ident(s: &str) -> Token {
    Token::Ident(s.to_string())
}

#[test]
fn it_works() {}

#[test]
fn radix_literals() {
    assert_eq!(lex("0x1f".to_string()), Ok(vec![num(31)]));
    assert_eq!(lex("0b101".to_string()), Ok(vec![num(5)]));
    assert_eq!(lex("0o17".to_string()), Ok(vec![num(15)]));
    assert_eq!(lex("0".to_string()), Ok(vec![num(0)]));
    assert_eq!(lex("0xFF".to_string()), Ok(vec![num(255)]));
}

#[test]
fn radix_literal_errors() {
    assert_eq!(lex("0b12".to_string()), Err(Error::IncorrectNumber));
    assert_eq!(lex("0x".to_string()), Err(Error::IncorrectNumber));
    assert_eq!(lex("0b".to_string()), Err(Error::IncorrectNumber));
    assert_eq!(lex("0o 1".to_string()), Err(Error::IncorrectNumber));
    assert_eq!(lex("0xg".to_string()), Err(Error::IncorrectNumber));
    assert_eq!(lex("h:0xpx".to_string()), Err(Error::IncorrectNumber));
    assert_eq!(lex("0o8".to_string()), Err(Error::IncorrectNumber));
    assert_eq!(lex("0x10000000000000000".to_string()), Err(Error::IncorrectNumber));
}

#[test]
fn decimal_literals() {
    let n = Number { negative: false, mantissa: 125, exponent: -1 };
    assert_eq!(lex("12.5".to_string()), Ok(vec![Token::Number(n)]));
    assert_eq!(lex("10.0".to_string()), Ok(vec![num(10)]));
    assert_eq!(lex("1000".to_string()), Ok(vec![Token::Number(Number { negative: false, mantissa: 1, exponent: 3 })]));
    assert_eq!(lex("007".to_string()), Ok(vec![num(7)]));
    assert_eq!(lex("0.05".to_string()), Ok(vec![Token::Number(Number { negative: false, mantissa: 5, exponent: -2 })]));
    assert_eq!(lex("3.".to_string()), Ok(vec![num(3)]));
    assert_eq!(lex("0 1".to_string()), Ok(vec![num(0), num(1)]));
}

#[test]
fn decimal_literal_errors() {
    assert_eq!(lex("1.2.3".to_string()), Err(Error::IncorrectNumber));
    assert_eq!(lex("99999999999999999999".to_string()), Err(Error::IncorrectNumber));
    assert_eq!(lex(format!("1{}", "0".repeat(39))), Err(Error::IncorrectNumber));
    assert_eq!(lex("1.5.".to_string()), Err(Error::IncorrectNumber));
}

#[test]
fn units_and_identifiers() {
    assert_eq!(lex("10px".to_string()), Ok(vec![num(10), Token::Unit(Unit::Px)]));
    assert_eq!(lex("50%".to_string()), Ok(vec![num(50), Token::Unit(Unit::Percent)]));
    assert_eq!(
        lex("vmin vmax rem em deg pc pt in cm mm vh vw".to_string()),
        Ok(vec![
            Token::Unit(Unit::VMin),
            Token::Unit(Unit::VMax),
            Token::Unit(Unit::Rem),
            Token::Unit(Unit::Em),
            Token::Unit(Unit::Deg),
            Token::Unit(Unit::Pc),
            Token::Unit(Unit::Pt),
            Token::Unit(Unit::In),
            Token::Unit(Unit::Cm),
            Token::Unit(Unit::Mm),
            Token::Unit(Unit::Vh),
            Token::Unit(Unit::Vw),
        ])
    );
    assert_eq!(lex("bg-clip pxx Px".to_string()), Ok(vec![ident("bg-clip"), ident("pxx"), ident("Px")]));
}

#[test]
fn punctuation_and_white_space() {
    assert_eq!(
        lex(" \t\n-h : @ ".to_string()),
        Ok(vec![Token::Negator, ident("h"), Token::Colon, Token::At])
    );
}

#[test]
fn nested_group_with_escapes() {
    let inner = lex("a(b)c".to_string()).unwrap();
    assert_eq!(inner, vec![ident("a"), Token::Group(vec![ident("b")]), ident("c")]);
    assert_eq!(lex("(a\\(b\\)c)".to_string()), Ok(vec![Token::Group(inner)]));
}

#[test]
fn nested_groups_and_blocks() {
    assert_eq!(
        lex("(1 (2)) {a {b}}".to_string()),
        Ok(vec![
            Token::Group(vec![num(1), Token::Group(vec![num(2)])]),
            Token::Block(vec![ident("a"), Token::Block(vec![ident("b")])]),
        ])
    );
    assert_eq!(lex("()".to_string()), Ok(vec![Token::Group(vec![])]));
}

#[test]
fn unterminated_spans() {
    assert_eq!(lex("(a".to_string()), Err(Error::UnexpectedEOF));
    assert_eq!(lex("{a".to_string()), Err(Error::UnexpectedEOF));
    assert_eq!(lex("\"abc".to_string()), Err(Error::UnexpectedEOF));
    assert_eq!(lex("(a\\".to_string()), Err(Error::UnexpectedEOF));
}

#[test]
fn string_literals() {
    assert_eq!(lex("\"a\\\"b\"".to_string()), Ok(vec![Token::String("a\"b".to_string())]));
    assert_eq!(lex("\"x y\"".to_string()), Ok(vec![Token::String("x y".to_string())]));
    assert_eq!(lex("\"\"".to_string()), Ok(vec![Token::String(String::new())]));
}

#[test]
fn rejected_characters() {
    assert_eq!(lex("$x".to_string()), Err(Error::NotSupported));
    assert_eq!(lex("a # b".to_string()), Err(Error::Unexpected(Unexpected::Char('#'))));
    assert_eq!(lex("(#)".to_string()), Err(Error::Unexpected(Unexpected::Char('#'))));
}

#[test]
fn empty_source() {
    assert_eq!(lex(String::new()), Ok(vec![]));
    assert_eq!(lex("   ".to_string()), Ok(vec![]));
}

#[test]
fn large_numerals_with_trailing_zeros() {
    assert_eq!(
        lex("100000000000000000000".to_string()),
        Ok(vec![Token::Number(Number { negative: false, mantissa: 1, exponent: 20 })])
    );
    assert_eq!(
        lex("18446744073709551615000.000".to_string()),
        Ok(vec![Token::Number(Number { negative: false, mantissa: 18446744073709551615, exponent: 3 })])
    );
}

fn nested(depth: usize) -> String {
    format!("{}1{}", "(".repeat(depth), ")".repeat(depth))
}

#[test]
fn nesting_depth_limit() {
    let mut inner = vec![num(1)];
    for _ in 0..3 {
        inner = vec![Token::Group(inner)];
    }
    assert_eq!(lex(nested(3)), Ok(inner));
    assert!(lex(nested(MAX_NESTING)).is_ok());
    assert_eq!(lex(nested(MAX_NESTING + 1)), Err(Error::NestingTooDeep));
    assert_eq!(lex(format!("{}{}", "{".repeat(MAX_NESTING + 1), "}".repeat(MAX_NESTING + 1))), Err(Error::NestingTooDeep));
    assert_eq!(lex(nested(100_000)), Err(Error::NestingTooDeep));
}
