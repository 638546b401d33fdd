use rts::line::Line;
use rts::token::{Token, TokenType};
use rts::tokenizer::{
    deleteComment, getNumber, getOperator, getQuotes, getWord, isDigit, isLetter, isSingleChar,
    readTokens,
};

fn number(text: &str) -> (Token, usize) {
    let buffer = text.as_bytes();
    let mut index = 0usize;
    let token = getNumber(buffer, &mut index, &buffer.len());
    (token, index)
}

fn word(text: &str) -> (Token, usize) {
    let buffer = text.as_bytes();
    let mut index = 0usize;
    let token = getWord(buffer, &mut index, &buffer.len());
    (token, index)
}

fn quote(text: &str) -> (Token, usize) {
    let buffer = text.as_bytes();
    let mut index = 0usize;
    let token = getQuotes(buffer, &mut index);
    (token, index)
}

fn operator(text: &str) -> (TokenType, usize) {
    let buffer = text.as_bytes();
    let mut index = 0usize;
    let token = getOperator(buffer, &mut index, &buffer.len());
    (token.dataType, index)
}

fn kinds(tokens: &Vec<Token>) -> Vec<TokenType> {
    tokens.iter().map(|t| t.dataType).collect()
}

fn lex(text: &str) -> Vec<Line> {
    readTokens(text.as_bytes().to_vec())
}

#[test]
fn number_literals_keep_their_text() {
    for (text, kind) in [
        ("0", TokenType::UInt),
        ("12", TokenType::UInt),
        ("-7", TokenType::Int),
        ("3.25", TokenType::UFloat),
        ("-12.5", TokenType::Float),
        ("1//3", TokenType::Rational),
        ("-2//5", TokenType::Rational),
    ] {
        let (token, index) = number(text);
        assert_eq!(token.dataType, kind, "{}", text);
        assert_eq!(token.data, Some(text.as_bytes().to_vec()), "{}", text);
        assert_eq!(index, text.len(), "{}", text);
        assert!(token.tokens.is_empty());
    }
}

#[test]
fn negative_float_example() {
    let (token, index) = number("-12.5");
    assert_eq!(token.dataType, TokenType::Float);
    assert_eq!(token.data, Some(b"-12.5".to_vec()));
    assert_eq!(index, 5);
}

#[test]
fn number_stops_at_what_is_no_part_of_it() {
    let (token, index) = number("42+1");
    assert_eq!(token.dataType, TokenType::UInt);
    assert_eq!(token.data, Some(b"42".to_vec()));
    assert_eq!(index, 2);
    let (token, index) = number("1.5.2");
    assert_eq!(token.dataType, TokenType::UFloat);
    assert_eq!(token.data, Some(b"1.5".to_vec()));
    assert_eq!(index, 3);
    let (token, index) = number("7.");
    assert_eq!(token.dataType, TokenType::UInt);
    assert_eq!(index, 1);
    let (token, index) = number("1//2.5");
    assert_eq!(token.dataType, TokenType::Rational);
    assert_eq!(token.data, Some(b"1//2".to_vec()));
    assert_eq!(index, 4);
    let (token, index) = number("8/2");
    assert_eq!(token.dataType, TokenType::UInt);
    assert_eq!(index, 1);
}

#[test]
fn number_behind_a_dot_takes_no_dot() {
    let buffer = b".1.5";
    let mut index = 1usize;
    let token = getNumber(buffer, &mut index, &buffer.len());
    assert_eq!(token.dataType, TokenType::UInt);
    assert_eq!(token.data, Some(b"1".to_vec()));
    assert_eq!(index, 2);
}

#[test]
fn words_links_and_reserved_words() {
    let (token, index) = word("hello world");
    assert_eq!(token.dataType, TokenType::Word);
    assert_eq!(token.data, Some(b"hello".to_vec()));
    assert_eq!(index, 5);
    let (token, index) = word("a.b[0] ");
    assert_eq!(token.dataType, TokenType::Link);
    assert_eq!(token.data, Some(b"a.b[0]".to_vec()));
    assert_eq!(index, 6);
    let (token, _) = word("true");
    assert_eq!(token.dataType, TokenType::Bool);
    assert_eq!(token.data, Some(b"1".to_vec()));
    let (token, _) = word("false");
    assert_eq!(token.dataType, TokenType::Bool);
    assert_eq!(token.data, Some(b"0".to_vec()));
    for (text, kind) in [
        ("UInt", TokenType::UInt),
        ("Int", TokenType::Int),
        ("UFloat", TokenType::UFloat),
        ("Float", TokenType::Float),
        ("Rational", TokenType::Rational),
        ("Bool", TokenType::Bool),
        ("Char", TokenType::Char),
        ("String", TokenType::String),
        ("RawString", TokenType::RawString),
    ] {
        let (token, index) = word(text);
        assert_eq!(token.dataType, kind);
        assert_eq!(token.data, None);
        assert_eq!(index, text.len());
    }
}

#[test]
fn plain_word_stops_at_digit_and_bracket() {
    let (token, index) = word("a[0]");
    assert_eq!(token.dataType, TokenType::Word);
    assert_eq!(token.data, Some(b"a".to_vec()));
    assert_eq!(index, 1);
    let (token, index) = word("x1");
    assert_eq!(token.data, Some(b"x".to_vec()));
    assert_eq!(index, 1);
}

#[test]
fn quote_escaping() {
    let (token, index) = quote("\"a\\\"b\"");
    assert_eq!(token.dataType, TokenType::String);
    assert_eq!(token.data, Some(b"a\\\"b".to_vec()));
    assert_eq!(index, 6);
    let lines = lex("\"a\\\"b\"\n");
    assert_eq!(lines.len(), 1);
    assert_eq!(kinds(&lines[0].tokens), vec![TokenType::String]);
}

#[test]
fn unterminated_quote_has_no_value() {
    let (token, index) = quote("\"abc\n");
    assert_eq!(token.dataType, TokenType::Nothing);
    assert_eq!(token.data, None);
    assert_eq!(index, 4);
}

#[test]
fn double_backslash_does_not_escape() {
    let (token, index) = quote("\"a\\\\\" x");
    assert_eq!(token.dataType, TokenType::String);
    assert_eq!(token.data, Some(b"a\\\\".to_vec()));
    assert_eq!(index, 5);
}

#[test]
fn char_and_raw_string() {
    let (token, _) = quote("'x'");
    assert_eq!(token.dataType, TokenType::Char);
    assert_eq!(token.data, Some(b"x".to_vec()));
    let (token, _) = quote("'xy'");
    assert_eq!(token.dataType, TokenType::Nothing);
    let (token, _) = quote("''");
    assert_eq!(token.dataType, TokenType::Nothing);
    let (token, index) = quote("`raw \"text\"`");
    assert_eq!(token.dataType, TokenType::RawString);
    assert_eq!(token.data, Some(b"raw \"text\"".to_vec()));
    assert_eq!(index, 12);
}

#[test]
fn quote_at_end_of_buffer_keeps_what_was_read() {
    let (token, index) = quote("\"abc");
    assert_eq!(token.dataType, TokenType::String);
    assert_eq!(token.data, Some(b"abc".to_vec()));
    assert_eq!(index, 4);
}

#[test]
fn operator_table() {
    for (text, kind, length) in [
        ("+", TokenType::Plus, 1),
        ("++", TokenType::UnaryPlus, 2),
        ("+=", TokenType::PlusEquals, 2),
        ("-", TokenType::Minus, 1),
        ("--", TokenType::UnaryMinus, 2),
        ("-=", TokenType::MinusEquals, 2),
        ("->", TokenType::Pointer, 2),
        ("*", TokenType::Multiply, 1),
        ("**", TokenType::UnaryMultiply, 2),
        ("*=", TokenType::MultiplyEquals, 2),
        ("/", TokenType::Divide, 1),
        ("//", TokenType::UnaryDivide, 2),
        ("/=", TokenType::DivideEquals, 2),
        ("%", TokenType::Modulo, 1),
        ("%=", TokenType::Modulo, 2),
        ("%%", TokenType::Modulo, 2),
        ("^", TokenType::Disjoint, 1),
        ("^=", TokenType::Exponent, 2),
        ("^^", TokenType::Exponent, 2),
        (">", TokenType::GreaterThan, 1),
        (">=", TokenType::GreaterThanOrEquals, 2),
        ("<", TokenType::LessThan, 1),
        ("<=", TokenType::LessThanOrEquals, 2),
        ("!", TokenType::Exclusion, 1),
        ("!=", TokenType::NotEquals, 2),
        ("~", TokenType::Tilde, 1),
        ("~~", TokenType::DoubleTilde, 2),
        ("&", TokenType::Joint, 1),
        ("|", TokenType::Inclusion, 1),
        ("=", TokenType::Equals, 1),
        ("(", TokenType::CircleBracketBegin, 1),
        (")", TokenType::CircleBracketEnd, 1),
        ("{", TokenType::FigureBracketBegin, 1),
        ("}", TokenType::FigureBracketEnd, 1),
        ("[", TokenType::SquareBracketBegin, 1),
        ("]", TokenType::SquareBracketEnd, 1),
        (";", TokenType::Endline, 1),
        (":", TokenType::Colon, 1),
        (",", TokenType::Comma, 1),
        (".", TokenType::Dot, 1),
        ("?", TokenType::Question, 1),
    ] {
        let (found, index) = operator(text);
        assert_eq!(found, kind, "{}", text);
        assert_eq!(index, length, "{}", text);
    }
    let (found, index) = operator("@");
    assert_eq!(found, TokenType::Nothing);
    assert_eq!(index, 0);
    let (found, index) = operator("+x");
    assert_eq!(found, TokenType::Plus);
    assert_eq!(index, 1);
}

#[test]
fn byte_classes() {
    assert!(isDigit(&b'0') && isDigit(&b'9') && !isDigit(&b'a') && !isDigit(&b'/'));
    assert!(isLetter(&b'a') && isLetter(&b'Z') && !isLetter(&b'1') && !isLetter(&b'_'));
    assert!(isLetter(&b'z') && isLetter(&b'A') && !isLetter(&b'[') && !isLetter(&b'`'));
    assert!(isSingleChar(&b'+') && isSingleChar(&b'~') && !isSingleChar(&b';'));
    assert!(!isSingleChar(&b'#') && !isSingleChar(&b'a'));
}

#[test]
fn comment_is_skipped_to_the_end_of_the_line() {
    let buffer = b"x # note\ny";
    let mut index = 2usize;
    deleteComment(buffer, &mut index, &buffer.len());
    assert_eq!(index, 8);
    let buffer = b"# to the end";
    let mut index = 0usize;
    deleteComment(buffer, &mut index, &buffer.len());
    assert_eq!(index, buffer.len());
}

#[test]
fn lines_and_indentation() {
    let lines = lex("a = 1\n  b = 2\nc = 3\n");
    assert_eq!(lines.len(), 2);
    assert_eq!(lines[0].indent, 0);
    assert_eq!(lines[0].lines.len(), 1);
    assert_eq!(lines[0].lines[0].indent, 2);
    assert_eq!(
        kinds(&lines[0].lines[0].tokens),
        vec![TokenType::Word, TokenType::Equals, TokenType::UInt]
    );
    assert_eq!(lines[1].tokens[0].data, Some(b"c".to_vec()));
}

#[test]
fn semicolon_ends_a_line() {
    let lines = lex("a = 1;b = 2\n");
    assert_eq!(lines.len(), 2);
    assert_eq!(lines[0].tokens.len(), 3);
    assert_eq!(lines[1].tokens.len(), 3);
    let lines = lex("a = 1; b = 2\n");
    assert_eq!(lines.len(), 1);
    assert_eq!(lines[0].lines.len(), 1);
    assert_eq!(lines[0].lines[0].indent, 1);
}

#[test]
fn missing_newline_at_the_end_is_added() {
    let with = lex("a = 1\n");
    let without = lex("a = 1");
    assert_eq!(with, without);
    assert_eq!(without.len(), 1);
    assert!(lex("").is_empty());
}

#[test]
fn formatted_quote_takes_the_place_of_its_mark() {
    let lines = lex("x = f\"a{b}\"\n");
    assert_eq!(
        kinds(&lines[0].tokens),
        vec![TokenType::Word, TokenType::Equals, TokenType::FormattedString]
    );
    assert_eq!(lines[0].tokens[2].data, Some(b"a{b}".to_vec()));
    let lines = lex("f'c' f`r`\n");
    assert_eq!(
        kinds(&lines[0].tokens),
        vec![TokenType::FormattedChar, TokenType::FormattedRawString]
    );
    let lines = lex("g\"a\"\n");
    assert_eq!(kinds(&lines[0].tokens), vec![TokenType::Word, TokenType::String]);
}

#[test]
fn unknown_bytes_are_skipped() {
    let lines = lex("a @ $ b\n");
    assert_eq!(kinds(&lines[0].tokens), vec![TokenType::Word, TokenType::Word]);
}

#[test]
fn negative_number_needs_a_digit() {
    let lines = lex("a - b -3 - 4\n");
    assert_eq!(
        kinds(&lines[0].tokens),
        vec![
            TokenType::Word,
            TokenType::Minus,
            TokenType::Word,
            TokenType::Int,
            TokenType::Minus,
            TokenType::UInt
        ]
    );
}

#[test]
fn failed_quote_leaves_the_end_of_its_line() {
    let lines = lex("a \"bc\nx\n");
    assert_eq!(lines.len(), 2);
    assert_eq!(kinds(&lines[0].tokens), vec![TokenType::Word]);
    assert_eq!(lines[0].tokens[0].data, Some(b"a".to_vec()));
    assert_eq!(kinds(&lines[1].tokens), vec![TokenType::Word]);
    assert_eq!(lines[1].tokens[0].data, Some(b"x".to_vec()));
    let lines = lex("a = \"bc\nd = 1\n");
    assert_eq!(lines.len(), 2);
    assert_eq!(kinds(&lines[0].tokens), vec![TokenType::Word, TokenType::Equals]);
    assert_eq!(
        kinds(&lines[1].tokens),
        vec![TokenType::Word, TokenType::Equals, TokenType::UInt]
    );
}

#[test]
fn unterminated_quote_on_the_last_line_keeps_the_tokens_before_it() {
    let lines = lex("a = 1\nb \"cd");
    assert_eq!(lines.len(), 2);
    assert_eq!(kinds(&lines[1].tokens), vec![TokenType::Word]);
    assert_eq!(lines[1].tokens[0].data, Some(b"b".to_vec()));
}

#[test]
fn failed_char_literal_loses_no_byte_behind_it() {
    let lines = lex("'ab'+1\n");
    assert_eq!(lines.len(), 1);
    assert_eq!(kinds(&lines[0].tokens), vec![TokenType::Plus, TokenType::UInt]);
    let lines = lex("'ab'\nx\n");
    assert_eq!(lines.len(), 2);
    assert!(lines[0].tokens.is_empty());
    assert_eq!(kinds(&lines[1].tokens), vec![TokenType::Word]);
}

#[test]
fn token_accessors() {
    let mut token = Token::new(TokenType::String, b"ab".to_vec());
    assert_eq!(token.getDataType(), TokenType::String);
    assert_eq!(token.getData(), Some(b"ab".to_vec()));
    token.setDataType(TokenType::RawString);
    token.setData(None);
    assert_eq!(token.getDataType(), TokenType::RawString);
    assert_eq!(token.getData(), None);
    let copy = token.copy();
    assert_eq!(copy, token);
    assert_eq!(Token::newEmpty(TokenType::Comma).getData(), None);
    assert_eq!(Token::fromStr(TokenType::Word, "abc").getData(), Some(b"abc".to_vec()));
}

#[test]
fn number_kind_goes_by_its_text_inside_a_buffer() {
    let buffer = b"x = -3.5+2//7 8 -4 1.25;";
    for (start, text, kind) in [
        (4usize, "-3.5", TokenType::Float),
        (9, "2//7", TokenType::Rational),
        (14, "8", TokenType::UInt),
        (16, "-4", TokenType::Int),
        (19, "1.25", TokenType::UFloat),
    ] {
        let mut index = start;
        let token = getNumber(buffer, &mut index, &buffer.len());
        assert_eq!(token.dataType, kind, "{}", text);
        assert_eq!(token.data, Some(text.as_bytes().to_vec()));
        assert_eq!(index, start + text.len());
        assert_eq!(token.dataType == TokenType::Rational, text.contains("//"));
    }
}
