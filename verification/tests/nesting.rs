use rts::line::Line;
use rts::nesting::{blockNesting, bracketNesting, deleteNestedComment, lineNesting};
use rts::token::{Token, TokenType};
use rts::tokenizer::readTokens;

fn empty(kind: TokenType) -> Token {
    Token::newEmpty(kind)
}

fn uint(text: &str) -> Token {
    Token::new(TokenType::UInt, text.as_bytes().to_vec())
}

fn word(text: &str) -> Token {
    Token::new(TokenType::Word, text.as_bytes().to_vec())
}

fn kinds(tokens: &Vec<Token>) -> Vec<TokenType> {
    tokens.iter().map(|t| t.dataType).collect()
}

fn line(indent: usize, name: &str) -> Line {
    Line { tokens: vec![word(name)], indent, lines: Vec::new() }
}

fn names(lines: &Vec<Line>) -> Vec<Vec<u8>> {
    lines.iter().map(|l| l.tokens[0].data.clone().unwrap()).collect()
}

#[test]
fn bracket_nesting_of_a_call() {
    let lines = readTokens(b"f(1,(2+3))\n".to_vec());
    assert_eq!(lines.len(), 1);
    let tokens = &lines[0].tokens;
    assert_eq!(kinds(tokens), vec![TokenType::Word, TokenType::CircleBracketBegin]);
    assert_eq!(tokens[0].data, Some(b"f".to_vec()));
    let inner = &tokens[1].tokens;
    assert_eq!(
        kinds(inner),
        vec![TokenType::UInt, TokenType::Comma, TokenType::CircleBracketBegin]
    );
    assert_eq!(inner[0].data, Some(b"1".to_vec()));
    let group = &inner[2].tokens;
    assert_eq!(kinds(group), vec![TokenType::UInt, TokenType::Plus, TokenType::UInt]);
    assert_eq!(group[0].data, Some(b"2".to_vec()));
    assert_eq!(group[2].data, Some(b"3".to_vec()));
}

#[test]
fn block_nesting_on_one_level() {
    let mut tokens = vec![
        word("a"),
        empty(TokenType::CircleBracketBegin),
        uint("1"),
        empty(TokenType::CircleBracketBegin),
        uint("2"),
        empty(TokenType::CircleBracketEnd),
        uint("3"),
        empty(TokenType::CircleBracketEnd),
        word("b"),
    ];
    blockNesting(&mut tokens, &TokenType::CircleBracketBegin, &TokenType::CircleBracketEnd);
    assert_eq!(
        kinds(&tokens),
        vec![TokenType::Word, TokenType::CircleBracketBegin, TokenType::Word]
    );
    assert_eq!(
        kinds(&tokens[1].tokens),
        vec![TokenType::UInt, TokenType::CircleBracketBegin, TokenType::UInt]
    );
    assert_eq!(kinds(&tokens[1].tokens[1].tokens), vec![TokenType::UInt]);
}

#[test]
fn unmatched_close_is_dropped() {
    let mut tokens = vec![uint("1"), empty(TokenType::CircleBracketEnd), uint("2")];
    blockNesting(&mut tokens, &TokenType::CircleBracketBegin, &TokenType::CircleBracketEnd);
    assert_eq!(kinds(&tokens), vec![TokenType::UInt, TokenType::UInt]);
}

#[test]
fn unmatched_open_keeps_what_it_gathered() {
    let mut tokens = vec![
        uint("1"),
        empty(TokenType::CircleBracketBegin),
        uint("2"),
        empty(TokenType::CircleBracketBegin),
        uint("3"),
    ];
    blockNesting(&mut tokens, &TokenType::CircleBracketBegin, &TokenType::CircleBracketEnd);
    assert_eq!(
        kinds(&tokens),
        vec![TokenType::UInt, TokenType::CircleBracketBegin, TokenType::CircleBracketBegin]
    );
    assert_eq!(kinds(&tokens[1].tokens), vec![TokenType::UInt]);
    assert_eq!(tokens[1].tokens[0].data, Some(b"2".to_vec()));
    assert_eq!(kinds(&tokens[2].tokens), vec![TokenType::UInt]);
}

#[test]
fn empty_brackets_hold_nothing() {
    let mut tokens =
        vec![word("f"), empty(TokenType::CircleBracketBegin), empty(TokenType::CircleBracketEnd)];
    bracketNesting(&mut tokens, &TokenType::CircleBracketBegin, &TokenType::CircleBracketEnd);
    assert_eq!(kinds(&tokens), vec![TokenType::Word, TokenType::CircleBracketBegin]);
    assert!(tokens[1].tokens.is_empty());
}

#[test]
fn square_brackets_nest_inside_round_ones() {
    let lines = readTokens(b"f(a[1], [2, 3])\n".to_vec());
    let inner = &lines[0].tokens[1].tokens;
    assert_eq!(
        kinds(inner),
        vec![
            TokenType::Word,
            TokenType::SquareBracketBegin,
            TokenType::Comma,
            TokenType::SquareBracketBegin
        ]
    );
    assert_eq!(kinds(&inner[1].tokens), vec![TokenType::UInt]);
    assert_eq!(
        kinds(&inner[3].tokens),
        vec![TokenType::UInt, TokenType::Comma, TokenType::UInt]
    );
}

#[test]
fn indentation_nesting() {
    let mut lines =
        vec![line(0, "a"), line(1, "b"), line(1, "c"), line(2, "d"), line(0, "e")];
    lineNesting(&mut lines);
    assert_eq!(names(&lines), vec![b"a".to_vec(), b"e".to_vec()]);
    assert_eq!(names(&lines[0].lines), vec![b"b".to_vec(), b"c".to_vec()]);
    assert!(lines[0].lines[0].lines.is_empty());
    assert_eq!(names(&lines[0].lines[1].lines), vec![b"d".to_vec()]);
    assert!(lines[1].lines.is_empty());
}

#[test]
fn deeper_line_after_a_shallower_child_is_still_a_child() {
    let mut lines = vec![line(0, "a"), line(4, "b"), line(2, "c"), line(3, "d")];
    lineNesting(&mut lines);
    assert_eq!(names(&lines), vec![b"a".to_vec()]);
    assert_eq!(names(&lines[0].lines), vec![b"b".to_vec(), b"c".to_vec()]);
    assert_eq!(names(&lines[0].lines[1].lines), vec![b"d".to_vec()]);
}

#[test]
fn nesting_of_no_lines() {
    let mut lines: Vec<Line> = Vec::new();
    lineNesting(&mut lines);
    assert!(lines.is_empty());
}

#[test]
fn trailing_comment_is_removed() {
    let lines = readTokens(b"a = 1 # note\nb = 2\n".to_vec());
    assert_eq!(lines.len(), 2);
    assert_eq!(
        kinds(&lines[0].tokens),
        vec![TokenType::Word, TokenType::Equals, TokenType::UInt]
    );
}

#[test]
fn line_with_a_trailing_comment_keeps_its_block() {
    let lines = readTokens(b"f # note\n  a = 1 # one\n  # two\nb = 2\n".to_vec());
    assert_eq!(lines.len(), 2);
    assert_eq!(kinds(&lines[0].tokens), vec![TokenType::Word]);
    assert_eq!(lines[0].lines.len(), 2);
    assert_eq!(lines[0].lines[0].tokens.len(), 3);
    assert!(lines[0].lines[1].tokens.is_empty());
}

#[test]
fn comment_above_a_block_goes_away_with_the_block() {
    let lines = readTokens(b"# note\n  x = 1\nb = 2\n".to_vec());
    assert_eq!(lines.len(), 1);
    assert_eq!(lines[0].tokens[0].data, Some(b"b".to_vec()));
}

#[test]
fn comment_alone_becomes_a_separator() {
    let lines = readTokens(b"a = 1\n# note\nb = 2\n".to_vec());
    assert_eq!(lines.len(), 3);
    assert!(lines[1].tokens.is_empty());
    assert!(lines[1].lines.is_empty());
}

#[test]
fn separators_collapse() {
    let lines = readTokens(b"a = 1\n\n\n\nb = 2\n".to_vec());
    assert_eq!(lines.len(), 3);
    assert!(lines[1].tokens.is_empty());
    let lines = readTokens(b"a = 1\n\n# note\n\nb = 2\n".to_vec());
    assert_eq!(lines.len(), 3);
}

#[test]
fn comments_in_nested_blocks_are_removed() {
    let lines = readTokens(b"f\n  a = 1 # one\n  b = 2\n".to_vec());
    assert_eq!(lines.len(), 1);
    assert_eq!(lines[0].lines.len(), 2);
    assert_eq!(lines[0].lines[0].tokens.len(), 3);
}

#[test]
fn cleaning_starts_at_the_given_line() {
    let comment =
        || Line { tokens: vec![word("x"), empty(TokenType::Comment)], indent: 0, lines: Vec::new() };
    let mut lines = vec![comment(), comment()];
    deleteNestedComment(&mut lines, 1);
    assert_eq!(lines[0].tokens.len(), 2);
    assert_eq!(lines[1].tokens.len(), 1);
    let mut lines = vec![comment()];
    deleteNestedComment(&mut lines, 5);
    assert_eq!(lines[0].tokens.len(), 2);
}
