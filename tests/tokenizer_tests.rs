use ry::number::Number;
use ry::tokenizer::{format_token, is_valid_number_char, is_valid_symbol_char, tokenize, Token};

fn sym(s: &str) -> Token {
    Token::Sym(s.to_string())
}

fn num(n: i32) -> Token {
    Token::Num(Number::integer(n))
}

#[test]
fn empty_input_gives_no_tokens() {
    assert_eq!(tokenize(String::new()).unwrap(), vec![]);
}

#[test]
fn nested_form_tokens() {
    let ts = tokenize("(+ 2 (- 5 1))".to_string()).unwrap();
    assert_eq!(
        ts,
        vec![
            Token::ParenOpen,
            sym("+"),
            num(2),
            Token::ParenOpen,
            sym("-"),
            num(5),
            num(1),
            Token::ParenClose,
            Token::ParenClose,
        ]
    );
}

#[test]
fn bare_minus_is_a_symbol() {
    assert_eq!(tokenize("-".to_string()).unwrap(), vec![sym("-")]);
}

#[test]
fn minus_followed_by_letters_is_one_symbol() {
    assert_eq!(tokenize("-ab".to_string()).unwrap(), vec![sym("-ab")]);
}

#[test]
fn negative_and_fractional_numbers() {
    let ts = tokenize("-3 2.5 .25 7.".to_string()).unwrap();
    assert_eq!(
        ts,
        vec![
            Token::Num(Number { micros: -3_000_000 }),
            Token::Num(Number { micros: 2_500_000 }),
            Token::Num(Number { micros: 250_000 }),
            Token::Num(Number { micros: 7_000_000 }),
        ]
    );
}

#[test]
fn brackets_are_delimiters() {
    let ts = tokenize("[a]".to_string()).unwrap();
    assert_eq!(ts, vec![Token::ParenOpen, sym("a"), Token::ParenClose]);
}

#[test]
fn number_directly_before_close_keeps_the_close() {
    let ts = tokenize("(f 1)".to_string()).unwrap();
    assert_eq!(ts, vec![Token::ParenOpen, sym("f"), num(1), Token::ParenClose]);
}

#[test]
fn string_literal_keeps_raw_interior() {
    let ts = tokenize(r#"("a b" "x\"y")"#.to_string()).unwrap();
    assert_eq!(
        ts,
        vec![
            Token::ParenOpen,
            Token::Str("a b".to_string()),
            Token::Str(r#"x\"y"#.to_string()),
            Token::ParenClose,
        ]
    );
}

#[test]
fn empty_string_literal() {
    assert_eq!(tokenize("\"\"".to_string()).unwrap(), vec![Token::Str(String::new())]);
}

#[test]
fn unterminated_string_is_an_error() {
    let e = tokenize("(print \"abc".to_string()).unwrap_err();
    assert_eq!(e, "unterminated string literal starting at: 7");
}

#[test]
fn dashed_number_is_malformed() {
    let e = tokenize("1-2".to_string()).unwrap_err();
    assert_eq!(e, "malformed number literal: 1-2");
}

#[test]
fn two_points_is_malformed() {
    let e = tokenize("(x 1.2.3)".to_string()).unwrap_err();
    assert_eq!(e, "malformed number literal: 1.2.3");
}

#[test]
fn extra_fraction_digits_round_to_nearest_millionth() {
    let one = |t: &str| tokenize(t.to_string()).unwrap();
    assert_eq!(one("0.123456"), vec![Token::Num(Number { micros: 123_456 })]);
    assert_eq!(one("0.1234567"), vec![Token::Num(Number { micros: 123_457 })]);
    assert_eq!(one("0.1234564"), vec![Token::Num(Number { micros: 123_456 })]);
    assert_eq!(one("0.12345649"), vec![Token::Num(Number { micros: 123_456 })]);
    assert_eq!(one("1.0000005"), vec![Token::Num(Number { micros: 1_000_001 })]);
    assert_eq!(one("-0.0000005"), vec![Token::Num(Number { micros: -1 })]);
    assert_eq!(one("(0.1234567)"), vec![Token::ParenOpen, Token::Num(Number { micros: 123_457 }), Token::ParenClose]);
}

#[test]
fn long_integer_literals() {
    let ts = tokenize("999999999999".to_string()).unwrap();
    assert_eq!(ts, vec![Token::Num(Number { micros: 999_999_999_999_000_000 })]);
    let ts = tokenize("1000000000000".to_string()).unwrap();
    assert_eq!(ts, vec![Token::Num(Number { micros: 1_000_000_000_000_000_000 })]);
    let ts = tokenize("0000000000000000000012".to_string()).unwrap();
    assert_eq!(ts, vec![num(12)]);
}

#[test]
fn largest_magnitude_literals() {
    let ts = tokenize("9223372036854.775807 -9223372036854.775807".to_string()).unwrap();
    assert_eq!(ts, vec![Token::Num(Number { micros: i64::MAX }), Token::Num(Number { micros: -i64::MAX })]);
    assert_eq!(
        tokenize("9223372036854.775808".to_string()).unwrap_err(),
        "number literal out of range: 9223372036854.775808"
    );
    assert_eq!(
        tokenize("9223372036854.7758075".to_string()).unwrap_err(),
        "number literal out of range: 9223372036854.7758075"
    );
    assert!(tokenize("(x 99999999999999999999999)".to_string()).is_err());
}

#[test]
fn other_characters_are_skipped() {
    let ts = tokenize("  a\n\tb ; c".to_string()).unwrap();
    assert_eq!(ts, vec![sym("a"), sym("b"), sym("c")]);
}

#[test]
fn symbol_characters() {
    let ts = tokenize("foo_bar*/+".to_string()).unwrap();
    assert_eq!(ts, vec![sym("foo_bar*/+")]);
    assert!(is_valid_symbol_char('_'));
    assert!(is_valid_symbol_char('Z'));
    assert!(!is_valid_symbol_char('.'));
    assert!(is_valid_number_char('.'));
    assert!(is_valid_number_char('-'));
    assert!(!is_valid_number_char('a'));
}

#[test]
fn token_text() {
    assert_eq!(format_token(&Token::ParenOpen), "paren_open");
    assert_eq!(format_token(&Token::ParenClose), "paren_close");
    assert_eq!(format_token(&Token::Nil), "nil");
    assert_eq!(format_token(&Token::Bool(true)), "bool[true]");
    assert_eq!(format_token(&num(5)), "number[5]");
    assert_eq!(format_token(&Token::Num(Number { micros: -1_250_000 })), "number[-1.25]");
    assert_eq!(format_token(&Token::Str("hi".to_string())), "string[\"hi\"]");
    assert_eq!(format_token(&sym("+")), "symbol[+]");
}
