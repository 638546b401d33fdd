use rts::line::Line;
use rts::logger::{
    commandWords, divideWhitespace, formatPieces, formatString, hexToTermionColor, log, logLine, logSeparator,
    renderPieces, splitBytes, Piece,
};
use rts::output::{dumpLines, dumpTokens, outputLines, outputTokens};
use rts::token::{Token, TokenType};
use rts::tokenizer::readTokens;

fn text(pieces: &[Piece]) -> String {
    let bytes: Vec<u8> = pieces
        .iter()
        .filter_map(|p| if let Piece::Byte(c) = p { Some(*c) } else { None })
        .collect();
    String::from_utf8(bytes).unwrap()
}

fn bytes(s: &str) -> Vec<Piece> {
    s.bytes().map(Piece::Byte).collect()
}

#[test]
fn markup_is_read_into_pieces() {
    assert_eq!(formatPieces(b"ab"), bytes("ab"));
    assert_eq!(formatPieces(b"a\\nb"), bytes("a\nb"));
    assert_eq!(formatPieces(b"\\bx\\cb"), vec![Piece::Bold, Piece::Byte(b'x'), Piece::NoBold]);
    assert_eq!(formatPieces(b"\\c"), vec![Piece::Reset]);
    assert_eq!(formatPieces(b"\\cfg\\cbg"), vec![Piece::ForegroundReset, Piece::BackgroundReset]);
    assert_eq!(
        formatPieces(b"\\fg(#ff0080)x"),
        vec![Piece::Foreground(255, 0, 128), Piece::Byte(b'x')]
    );
    assert_eq!(
        formatPieces(b"\\bg(#0A0b0C)"),
        vec![Piece::Background(10, 11, 12)]
    );
}

#[test]
fn markup_edge_cases() {
    assert_eq!(formatPieces(b"\\fg(#zz)x"), vec![Piece::Foreground(0, 0, 0), Piece::Byte(b'x')]);
    assert_eq!(formatPieces(b"\\fg(#12"), vec![Piece::Foreground(0, 0, 0)]);
    assert_eq!(formatPieces(b"\\fg"), vec![Piece::Foreground(0, 0, 0)]);
    assert_eq!(formatPieces(b"\\fx"), bytes("fx"));
    assert_eq!(formatPieces(b"\\cfx"), bytes("cfx"));
    assert_eq!(formatPieces(b"\\q"), bytes("\\q"));
    assert_eq!(formatPieces(b"\\\\n"), bytes("\\\\n"));
    assert_eq!(formatPieces(b"a\\"), bytes("a\\"));
    assert_eq!(formatPieces(b""), Vec::<Piece>::new());
}

#[test]
fn styles_are_rendered_to_escape_sequences() {
    assert_eq!(renderPieces(&vec![Piece::Bold]), b"\x1b[1m".to_vec());
    assert_eq!(renderPieces(&vec![Piece::NoBold]), b"\x1b[21m".to_vec());
    assert_eq!(renderPieces(&vec![Piece::Reset]), b"\x1b[m".to_vec());
    assert_eq!(renderPieces(&vec![Piece::ForegroundReset]), b"\x1b[39m".to_vec());
    assert_eq!(renderPieces(&vec![Piece::BackgroundReset]), b"\x1b[49m".to_vec());
    assert_eq!(formatString(b"\\bhi\\c\\n"), b"\x1b[1mhi\x1b[m\n".to_vec());
}

#[test]
fn colours_are_rendered_or_switched_off() {
    let out = renderPieces(&vec![Piece::Foreground(255, 0, 7)]);
    assert!(out == b"\x1b[38;2;255;0;7m".to_vec() || out.is_empty());
    let out = renderPieces(&vec![Piece::Background(1, 20, 128)]);
    assert!(out == b"\x1b[48;2;1;20;128m".to_vec() || out.is_empty());
    let out = formatString(b"\\fg(#010203)x");
    assert!(out == b"\x1b[38;2;1;2;3mx".to_vec() || out == b"x".to_vec());
}

#[test]
fn hexadecimal_colours() {
    assert_eq!(hexToTermionColor(b"000000"), Some((0, 0, 0)));
    assert_eq!(hexToTermionColor(b"ffFF10"), Some((255, 255, 16)));
    assert_eq!(hexToTermionColor(b"12345"), None);
    assert_eq!(hexToTermionColor(b"1234567"), None);
    assert_eq!(hexToTermionColor(b"12345g"), None);
    assert_eq!(hexToTermionColor(b""), None);
}

#[test]
fn white_space_is_divided() {
    assert_eq!(divideWhitespace(b"  \tab c"), (b"  \t".to_vec(), b"ab c".to_vec()));
    assert_eq!(divideWhitespace(b"ab"), (Vec::new(), b"ab".to_vec()));
    assert_eq!(divideWhitespace(b"   "), (b"   ".to_vec(), Vec::new()));
    assert_eq!(divideWhitespace(b""), (Vec::new(), Vec::new()));
}

#[test]
fn text_is_split() {
    assert_eq!(splitBytes(b"a|b||c", b"|"), vec![b"a".to_vec(), b"b".to_vec(), Vec::new(), b"c".to_vec()]);
    assert_eq!(splitBytes(b"a->b->", b"->"), vec![b"a".to_vec(), b"b".to_vec(), Vec::new()]);
    assert_eq!(splitBytes(b"", b"|"), vec![Vec::<u8>::new()]);
    assert_eq!(splitBytes(b"a-b", b"->"), vec![b"a-b".to_vec()]);
    assert_eq!(splitBytes(b"ab", b""), vec![b"ab".to_vec()]);
}

#[test]
fn log_lines() {
    assert_eq!(text(&logLine("syntax", b"x")), "Syntax ");
    assert_eq!(text(&logLine("ok", b"done")), "   + done\n");
    assert_eq!(text(&logLine("ok", b"+open")), "   O ┳ open\n");
    assert_eq!(text(&logLine("ok", b"xclose")), "   X ┻ close\n");
    assert_eq!(text(&logLine("err", b"bad")), "   - bad\n");
    assert_eq!(text(&logLine("warn", b"hm")), "   ? hm\n");
    assert_eq!(text(&logLine("warn-input", b"hm")), "   ? hm");
    assert_eq!(text(&logLine("note", b"n")), "  Note: n\n");
    assert_eq!(text(&logLine("path", b"a->b->c")), "-> a->b->c\n");
    assert_eq!(text(&logLine("line", b"12|a|b")), "  12 | ab\n");
    assert_eq!(text(&logLine("parserBegin", b"  x")), "  x\n");
    assert_eq!(text(&logLine("parserInfo", b" y")), " y\n");
    assert_eq!(text(&logLine("parserToken", b"a|b|c")), "abc\n");
    assert_eq!(text(&logLine("other", b"t")), "t\n");
}

#[test]
fn log_line_pieces() {
    assert_eq!(
        logLine("err", b"e"),
        vec![
            Piece::Byte(b' '),
            Piece::Byte(b' '),
            Piece::Byte(b' '),
            Piece::Foreground(0xe9, 0x1a, 0x34),
            Piece::Bold,
            Piece::Byte(b'-'),
            Piece::NoBold,
            Piece::ForegroundReset,
            Piece::Byte(b' '),
            Piece::Foreground(0xf0, 0xf8, 0xff),
            Piece::Bold,
            Piece::Byte(b'e'),
            Piece::Reset,
            Piece::Byte(b'\n'),
        ]
    );
    let line = log("other", b"t");
    assert!(line == b"\x1b[38;2;240;248;255mt\x1b[m\n".to_vec() || line == b"t\x1b[m\n".to_vec());
}

#[test]
fn separator_line() {
    let out = logSeparator(b"AST");
    let shown = b" \x1b[38;2;85;175;150m\x1b[1mx \x1b[38;2;0;149;182mAST\x1b[m\n".to_vec();
    let plain = b" \x1b[1mx AST\x1b[m\n".to_vec();
    assert!(out == shown || out == plain);
}

#[test]
fn tokens_are_dumped() {
    let tokens = vec![
        Token::new(TokenType::Word, b"f".to_vec()),
        Token {
            dataType: TokenType::CircleBracketBegin,
            data: None,
            tokens: vec![Token::new(TokenType::String, b"s".to_vec())],
        },
    ];
    let dump = dumpTokens(&tokens, &b" ".to_vec(), &b" ".to_vec());
    assert_eq!(text(&dump), " ┃ f  Word\n X CircleBracketBegin\n X   \"s\"  String\n");
    let out = outputTokens(&tokens, &0, &0);
    assert!(!out.is_empty());
    assert!(outputTokens(&Vec::new(), &0, &0).is_empty());
}

#[test]
fn lines_are_dumped() {
    let lines = readTokens(b"a\n  b\n\nc\n".to_vec());
    let dump = dumpLines(&lines, &Vec::new());
    assert_eq!(
        text(&dump),
        " 0\n ┣ Tokens\n X   a  Word\n ┗ Lines\n   0\n   ┣ Tokens\n   X   b  Word\n 1\n ┗ Separator\n 2\n ┣ Tokens\n X   c  Word\n"
    );
    assert!(!outputLines(&lines, &2).is_empty());
    assert!(outputLines(&Vec::<Line>::new(), &2).is_empty());
}

#[test]
fn command_is_split_into_words() {
    assert_eq!(commandWords(b"echo  hi\tthere "), vec![b"echo".to_vec(), b"hi".to_vec(), b"there".to_vec()]);
    assert_eq!(commandWords(b"   "), Vec::<Vec<u8>>::new());
    assert_eq!(commandWords(b""), Vec::<Vec<u8>>::new());
    assert_eq!(commandWords(b"ls"), vec![b"ls".to_vec()]);
}

