use rts::token::{Token, TokenType};
use rts::value::{calculate, decimalBytes, formatInteger, lessText, parseInteger};

fn uint(text: &str) -> Token {
    Token::new(TokenType::UInt, text.as_bytes().to_vec())
}

fn sint(text: &str) -> Token {
    Token::new(TokenType::Int, text.as_bytes().to_vec())
}

fn text(text: &str) -> Token {
    Token::new(TokenType::String, text.as_bytes().to_vec())
}

fn truth(b: bool) -> Token {
    Token::new(TokenType::Bool, if b { b"1".to_vec() } else { b"0".to_vec() })
}

fn result(op: TokenType, left: &Token, right: &Token) -> (TokenType, Option<Vec<u8>>) {
    let r = calculate(&op, left, right);
    assert!(r.tokens.is_empty());
    (r.dataType, r.data)
}

fn some(text: &str) -> Option<Vec<u8>> {
    Some(text.as_bytes().to_vec())
}

#[test]
fn integers_are_read() {
    assert_eq!(parseInteger(&b"0".to_vec()), Some(0));
    assert_eq!(parseInteger(&b"007".to_vec()), Some(7));
    assert_eq!(parseInteger(&b"-15".to_vec()), Some(-15));
    assert_eq!(parseInteger(&b"9223372036854775807".to_vec()), Some(i64::MAX));
    assert_eq!(parseInteger(&b"-9223372036854775808".to_vec()), Some(i64::MIN));
    assert_eq!(parseInteger(&b"9223372036854775808".to_vec()), None);
    assert_eq!(parseInteger(&b"-9223372036854775809".to_vec()), None);
    assert_eq!(parseInteger(&b"123456789012345678901234567890".to_vec()), None);
    assert_eq!(parseInteger(&b"".to_vec()), None);
    assert_eq!(parseInteger(&b"-".to_vec()), None);
    assert_eq!(parseInteger(&b"1a".to_vec()), None);
    assert_eq!(parseInteger(&b"1.5".to_vec()), None);
    assert_eq!(parseInteger(&b"+1".to_vec()), None);
    assert_eq!(parseInteger(&b"--1".to_vec()), None);
}

#[test]
fn integers_are_written() {
    assert_eq!(formatInteger(0), b"0".to_vec());
    assert_eq!(formatInteger(42), b"42".to_vec());
    assert_eq!(formatInteger(-42), b"-42".to_vec());
    assert_eq!(formatInteger(i64::MAX), b"9223372036854775807".to_vec());
    assert_eq!(formatInteger(i64::MIN), b"-9223372036854775808".to_vec());
    assert_eq!(decimalBytes(u64::MAX), b"18446744073709551615".to_vec());
    assert_eq!(decimalBytes(10), b"10".to_vec());
}

#[test]
fn written_integers_are_read_back() {
    for v in [0i64, 1, -1, 9, 10, 99, 100, -100, 123456789, i64::MAX, i64::MIN] {
        assert_eq!(parseInteger(&formatInteger(v)), Some(v));
    }
}

#[test]
fn integer_arithmetic() {
    assert_eq!(result(TokenType::Plus, &uint("2"), &uint("3")), (TokenType::UInt, some("5")));
    assert_eq!(result(TokenType::Minus, &uint("2"), &uint("3")), (TokenType::Int, some("-1")));
    assert_eq!(result(TokenType::Minus, &sint("-2"), &sint("-3")), (TokenType::Int, some("1")));
    assert_eq!(result(TokenType::Multiply, &uint("6"), &sint("-7")), (TokenType::Int, some("-42")));
    assert_eq!(result(TokenType::Divide, &uint("10"), &uint("3")), (TokenType::UInt, some("3")));
    assert_eq!(result(TokenType::Divide, &sint("-10"), &uint("3")), (TokenType::Int, some("-3")));
    assert_eq!(result(TokenType::Divide, &uint("10"), &sint("-3")), (TokenType::Int, some("-3")));
    assert_eq!(result(TokenType::Divide, &sint("-10"), &sint("-3")), (TokenType::Int, some("3")));
    assert_eq!(result(TokenType::Modulo, &uint("10"), &uint("3")), (TokenType::UInt, some("1")));
    assert_eq!(result(TokenType::Modulo, &sint("-10"), &uint("3")), (TokenType::Int, some("-1")));
    assert_eq!(result(TokenType::Modulo, &uint("10"), &sint("-3")), (TokenType::Int, some("1")));
    assert_eq!(result(TokenType::Modulo, &uint("10"), &sint("-1")), (TokenType::Int, some("0")));
}

#[test]
fn division_by_zero_has_no_value() {
    assert_eq!(result(TokenType::Divide, &uint("1"), &uint("0")), (TokenType::Nothing, None));
    assert_eq!(result(TokenType::Modulo, &uint("1"), &uint("0")), (TokenType::Nothing, None));
}

#[test]
fn result_that_does_not_fit_has_no_value() {
    let max = uint("9223372036854775807");
    let min = sint("-9223372036854775808");
    assert_eq!(result(TokenType::Plus, &max, &uint("1")), (TokenType::Nothing, None));
    assert_eq!(result(TokenType::Minus, &min, &uint("1")), (TokenType::Nothing, None));
    assert_eq!(result(TokenType::Multiply, &max, &uint("2")), (TokenType::Nothing, None));
    assert_eq!(result(TokenType::Divide, &min, &sint("-1")), (TokenType::Nothing, None));
    assert_eq!(result(TokenType::Modulo, &min, &sint("-1")), (TokenType::Int, some("0")));
    assert_eq!(result(TokenType::Plus, &uint("9223372036854775808"), &uint("1")), (TokenType::Nothing, None));
}

#[test]
fn integer_comparisons() {
    let cases = [
        (TokenType::Equals, "0", "1", "0"),
        (TokenType::NotEquals, "1", "0", "1"),
        (TokenType::LessThan, "1", "0", "0"),
        (TokenType::GreaterThan, "0", "0", "1"),
        (TokenType::LessThanOrEquals, "1", "1", "0"),
        (TokenType::GreaterThanOrEquals, "0", "1", "1"),
    ];
    for (op, less, equal, greater) in cases {
        assert_eq!(result(op, &uint("2"), &uint("10")), (TokenType::Bool, some(less)));
        assert_eq!(result(op, &uint("7"), &uint("7")), (TokenType::Bool, some(equal)));
        assert_eq!(result(op, &uint("10"), &sint("-2")), (TokenType::Bool, some(greater)));
    }
}

#[test]
fn text_operations() {
    assert_eq!(result(TokenType::Plus, &text("ab"), &text("c")), (TokenType::String, some("abc")));
    assert_eq!(result(TokenType::Equals, &text("ab"), &text("ab")), (TokenType::Bool, some("1")));
    assert_eq!(result(TokenType::LessThan, &text("ab"), &text("b")), (TokenType::Bool, some("1")));
    assert_eq!(result(TokenType::LessThan, &text("a"), &text("ab")), (TokenType::Bool, some("1")));
    assert_eq!(result(TokenType::GreaterThan, &text("b"), &text("ab")), (TokenType::Bool, some("1")));
    assert_eq!(result(TokenType::Minus, &text("ab"), &text("b")), (TokenType::Nothing, None));
    assert!(lessText(&b"".to_vec(), &b"a".to_vec()));
    assert!(!lessText(&b"a".to_vec(), &b"a".to_vec()));
    assert!(!lessText(&b"b".to_vec(), &b"a".to_vec()));
}

#[test]
fn truth_operations() {
    for a in [false, true] {
        for b in [false, true] {
            let bit = |v: bool| some(if v { "1" } else { "0" });
            assert_eq!(result(TokenType::Joint, &truth(a), &truth(b)), (TokenType::Bool, bit(a && b)));
            assert_eq!(result(TokenType::Inclusion, &truth(a), &truth(b)), (TokenType::Bool, bit(a || b)));
            assert_eq!(result(TokenType::Equals, &truth(a), &truth(b)), (TokenType::Bool, bit(a == b)));
            assert_eq!(result(TokenType::NotEquals, &truth(a), &truth(b)), (TokenType::Bool, bit(a != b)));
        }
    }
    assert_eq!(result(TokenType::Plus, &truth(true), &truth(true)), (TokenType::Nothing, None));
}

#[test]
fn mixed_operands_have_no_value() {
    assert_eq!(result(TokenType::Plus, &uint("1"), &text("a")), (TokenType::Nothing, None));
    assert_eq!(result(TokenType::Equals, &uint("1"), &truth(true)), (TokenType::Nothing, None));
    let none = Token::newEmpty(TokenType::Nothing);
    assert_eq!(result(TokenType::Plus, &none, &uint("1")), (TokenType::Nothing, None));
    let tag = Token::newEmpty(TokenType::UInt);
    assert_eq!(result(TokenType::Plus, &tag, &uint("1")), (TokenType::Nothing, None));
}

fn ufloat(text: &str) -> Token {
    Token::new(TokenType::UFloat, text.as_bytes().to_vec())
}

fn float(text: &str) -> Token {
    Token::new(TokenType::Float, text.as_bytes().to_vec())
}

fn rational(text: &str) -> Token {
    Token::new(TokenType::Rational, text.as_bytes().to_vec())
}

#[test]
fn decimal_arithmetic() {
    assert_eq!(result(TokenType::Plus, &ufloat("1.5"), &ufloat("2.25")), (TokenType::UFloat, some("3.75")));
    assert_eq!(result(TokenType::Plus, &ufloat("0.1"), &ufloat("0.2")), (TokenType::UFloat, some("0.3")));
    assert_eq!(result(TokenType::Minus, &ufloat("1.5"), &ufloat("2.0")), (TokenType::Float, some("-0.5")));
    assert_eq!(result(TokenType::Multiply, &float("-1.5"), &ufloat("2.0")), (TokenType::Float, some("-3.0")));
    assert_eq!(result(TokenType::Multiply, &float("-1.5"), &float("-2.0")), (TokenType::Float, some("3.0")));
    assert_eq!(result(TokenType::Divide, &ufloat("10.0"), &uint("3")), (TokenType::UFloat, some("3.333333")));
    assert_eq!(result(TokenType::Divide, &float("-10.0"), &uint("3")), (TokenType::Float, some("-3.333333")));
    assert_eq!(result(TokenType::Divide, &uint("1"), &ufloat("8.0")), (TokenType::UFloat, some("0.125")));
    assert_eq!(result(TokenType::Plus, &uint("1"), &ufloat("0.5")), (TokenType::UFloat, some("1.5")));
    assert_eq!(result(TokenType::Plus, &sint("-1"), &ufloat("1.0")), (TokenType::Float, some("0.0")));
    assert_eq!(result(TokenType::Divide, &ufloat("1.5"), &ufloat("0.0")), (TokenType::Nothing, None));
    assert_eq!(result(TokenType::Multiply, &ufloat("0.001"), &ufloat("0.0001")), (TokenType::UFloat, some("0.0")));
    assert_eq!(result(TokenType::Minus, &ufloat("0.0000001"), &ufloat("0.0000002")), (TokenType::UFloat, some("0.0")));
    assert_eq!(result(TokenType::Plus, &ufloat("0.000001"), &ufloat("0.0")), (TokenType::UFloat, some("0.000001")));
    assert_eq!(result(TokenType::Modulo, &ufloat("1.5"), &ufloat("1.0")), (TokenType::Nothing, None));
}

#[test]
fn rational_arithmetic() {
    assert_eq!(result(TokenType::Plus, &rational("1//2"), &rational("1//3")), (TokenType::Rational, some("5//6")));
    assert_eq!(result(TokenType::Plus, &rational("1//2"), &rational("1//2")), (TokenType::Rational, some("1//1")));
    assert_eq!(result(TokenType::Minus, &rational("1//2"), &rational("3//4")), (TokenType::Rational, some("-1//4")));
    assert_eq!(result(TokenType::Multiply, &rational("-2//3"), &rational("3//4")), (TokenType::Rational, some("-1//2")));
    assert_eq!(result(TokenType::Divide, &rational("1//2"), &rational("-1//4")), (TokenType::Rational, some("-2//1")));
    assert_eq!(result(TokenType::Divide, &rational("1//2"), &rational("0//4")), (TokenType::Nothing, None));
    assert_eq!(result(TokenType::Plus, &rational("1//2"), &uint("1")), (TokenType::Rational, some("3//2")));
    assert_eq!(result(TokenType::Plus, &rational("1//2"), &ufloat("0.25")), (TokenType::Rational, some("3//4")));
    assert_eq!(result(TokenType::Plus, &rational("1//0"), &uint("1")), (TokenType::Nothing, None));
    assert_eq!(result(TokenType::Plus, &rational("1//2//3"), &uint("1")), (TokenType::Nothing, None));
    assert_eq!(result(TokenType::Minus, &rational("2//4"), &rational("1//2")), (TokenType::Rational, some("0//1")));
}

#[test]
fn comparisons_of_fractions() {
    assert_eq!(result(TokenType::LessThan, &rational("1//3"), &ufloat("0.5")), (TokenType::Bool, some("1")));
    assert_eq!(result(TokenType::Equals, &rational("1//2"), &ufloat("0.5")), (TokenType::Bool, some("1")));
    assert_eq!(result(TokenType::Equals, &ufloat("2.0"), &uint("2")), (TokenType::Bool, some("1")));
    assert_eq!(result(TokenType::GreaterThan, &float("-0.5"), &sint("-1")), (TokenType::Bool, some("1")));
    assert_eq!(result(TokenType::GreaterThanOrEquals, &ufloat("0.1"), &ufloat("0.10")), (TokenType::Bool, some("1")));
    assert_eq!(result(TokenType::NotEquals, &ufloat("0.1"), &ufloat("0.11")), (TokenType::Bool, some("1")));
}

#[test]
fn fraction_that_does_not_fit_has_no_value() {
    let big = rational("9223372036854775807//1");
    assert_eq!(result(TokenType::Multiply, &big, &rational("2//1")), (TokenType::Nothing, None));
    assert_eq!(result(TokenType::Multiply, &big, &rational("1//2")), (TokenType::Rational, some("9223372036854775807//2")));
    assert_eq!(result(TokenType::Plus, &ufloat("0.0000000000000000001"), &uint("1")), (TokenType::Nothing, None));
    assert_eq!(result(TokenType::Plus, &ufloat("9223372036854775807.0"), &ufloat("1.0")), (TokenType::Nothing, None));
}
