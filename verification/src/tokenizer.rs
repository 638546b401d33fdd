//! The lexer: scans a byte buffer into tokens.
use vstd::prelude::*;
use vstd::string::*;
use crate::token::{
    Token, TokenType, TokenView, tokensView, lemma_tokensView_push, lemma_tokensView_update,
};
use crate::line::{Line, LineView, linesView, lemma_linesView_push, lemma_nested_lines};
use crate::nesting::{
    bracketNested, bracketNesting, lineNested, lineNesting, cleanedFrom, deleteNestedComment, flat,
};

verus! {

pub const NEWLINE: u8 = 10;
pub const SPACE: u8 = 32;
pub const BANG: u8 = 33;
pub const DOUBLE_QUOTE: u8 = 34;
pub const HASH: u8 = 35;
pub const PERCENT: u8 = 37;
pub const AMPERSAND: u8 = 38;
pub const SINGLE_QUOTE: u8 = 39;
pub const LPAREN: u8 = 40;
pub const RPAREN: u8 = 41;
pub const STAR: u8 = 42;
pub const PLUS: u8 = 43;
pub const COMMA: u8 = 44;
pub const MINUS: u8 = 45;
pub const DOT: u8 = 46;
pub const SLASH: u8 = 47;
pub const ZERO: u8 = 48;
pub const NINE: u8 = 57;
pub const COLON: u8 = 58;
pub const SEMICOLON: u8 = 59;
pub const LESS: u8 = 60;
pub const EQUAL: u8 = 61;
pub const GREATER: u8 = 62;
pub const QUESTION: u8 = 63;
pub const UPPER_A: u8 = 65;
pub const UPPER_Z: u8 = 90;
pub const LBRACKET: u8 = 91;
pub const BACKSLASH: u8 = 92;
pub const RBRACKET: u8 = 93;
pub const CARET: u8 = 94;
pub const BACKTICK: u8 = 96;
pub const LOWER_A: u8 = 97;
pub const LOWER_Z: u8 = 122;
pub const LBRACE: u8 = 123;
pub const PIPE: u8 = 124;
pub const RBRACE: u8 = 125;
pub const TILDE: u8 = 126;

/// Whether two byte strings are equal, the second given as text.
pub fn sameText(bytes: &Vec<u8>, text: &str) -> (r: bool)
    ensures
        r == (bytes@ == text.spec_bytes()),
{
    let t = text.as_bytes();
    if bytes.len() != t.len() {
        return false;
    }
    let mut i: usize = 0;
    while i < bytes.len()
        invariant
            i <= bytes.len(),
            bytes.len() == t.len(),
            t@ == text.spec_bytes(),
            bytes@.subrange(0, i as int) == t@.subrange(0, i as int),
        decreases bytes.len() - i,
    {
        if bytes[i] != t[i] {
            return false;
        }
        i += 1;
        assert(bytes@.subrange(0, i as int) =~= bytes@.subrange(0, i - 1).push(bytes@[i - 1]));
        assert(t@.subrange(0, i as int) =~= t@.subrange(0, i - 1).push(t@[i - 1]));
    }
    assert(bytes@ =~= bytes@.subrange(0, bytes.len() as int));
    assert(t@ =~= t@.subrange(0, t.len() as int));
    true
}

/// The bytes from the comment marker at `i` up to the end of its line are
/// skipped: the first index after `i` that holds a newline, or `len`.
pub open spec fn commentEnd(buf: Seq<u8>, i: int) -> int
    decreases buf.len() - i,
{
    if i < 0 || i >= buf.len() {
        i
    } else if buf[i] == NEWLINE {
        i
    } else {
        commentEnd(buf, i + 1)
    }
}

/// Skips a line comment: moves `index` from the comment marker to the newline
/// that ends the line, or to the end of the buffer.
pub fn deleteComment(buffer: &[u8], index: &mut usize, bufferLength: &usize)
    requires
        *old(index) < *bufferLength <= buffer@.len(),
    ensures
        *final(index) == commentEnd(buffer@.take(*bufferLength as int), *old(index) + 1),
        *old(index) < *final(index) <= *bufferLength,
{
    let ghost buf = buffer@.take(*bufferLength as int);
    let mut i: usize = *index + 1;
    while i < *bufferLength && buffer[i] != NEWLINE
        invariant
            *old(index) < i <= *bufferLength <= buffer@.len(),
            buf == buffer@.take(*bufferLength as int),
            commentEnd(buf, i as int) == commentEnd(buf, *old(index) + 1),
        decreases *bufferLength - i,
    {
        i += 1;
    }
    *index = i;
}

/// The bytes that are operators or punctuation of the language.
pub open spec fn singleChar(c: u8) -> bool {
    c == PLUS || c == MINUS || c == STAR || c == SLASH || c == EQUAL || c == PERCENT || c == CARET
        || c == GREATER || c == LESS || c == QUESTION || c == BANG || c == AMPERSAND || c == PIPE || c
        == LPAREN || c == RPAREN || c == LBRACE || c == RBRACE || c == LBRACKET || c == RBRACKET || c == COLON
        || c == COMMA || c == DOT || c == TILDE
}

/// Whether the byte is one of `+ - * / = % ^ > < ? ! & | ( ) { } [ ] : , . ~`.
pub fn isSingleChar(c: &u8) -> (r: bool)
    ensures
        r == singleChar(*c),
{
    let c: u8 = *c;
    c == PLUS || c == MINUS || c == STAR || c == SLASH || c == EQUAL || c == PERCENT || c == CARET
        || c == GREATER || c == LESS || c == QUESTION || c == BANG || c == AMPERSAND || c == PIPE || c
        == LPAREN || c == RPAREN || c == LBRACE || c == RBRACE || c == LBRACKET || c == RBRACKET || c == COLON
        || c == COMMA || c == DOT || c == TILDE
}

/// The decimal digits `0` to `9`.
pub open spec fn digit(c: u8) -> bool {
    ZERO <= c <= NINE
}

/// Whether the byte is a decimal digit.
pub fn isDigit(c: &u8) -> (r: bool)
    ensures
        r == digit(*c),
{
    *c >= ZERO && *c <= NINE
}

/// The letters `a` to `z` and `A` to `Z`.
pub open spec fn letter(c: u8) -> bool {
    (LOWER_A <= c <= LOWER_Z) || (UPPER_A <= c <= UPPER_Z)
}

/// Whether the byte is a letter.
pub fn isLetter(c: &u8) -> (r: bool)
    ensures
        r == letter(*c),
{
    (*c >= LOWER_A && *c <= LOWER_Z) || (*c >= UPPER_A && *c <= UPPER_Z)
}

/// Whether a numeric literal begins at `start`: a digit, or a minus sign with
/// a digit right behind it.
pub open spec fn numberStarts(buf: Seq<u8>, start: int) -> bool {
    0 <= start < buf.len() && (digit(buf[start]) || (buf[start] == MINUS && start + 1 < buf.len()
        && digit(buf[start + 1])))
}

/// Where a numeric scan stopped and what it saw on the way.
pub struct NumberScan {
    pub end: int,
    pub dot: bool,
    pub rational: bool,
}

/// A dot can belong to a number only if the number does not itself follow a
/// dot.
pub open spec fn dotAllowed(buf: Seq<u8>, start: int) -> bool {
    start <= 0 || buf[start - 1] != DOT
}

/// The numeric scan from position `i` on: digits are taken; one `.` with a
/// digit behind it turns the number into a float; `//` with a digit behind it
/// turns it into a rational, after which a dot ends the scan.
pub open spec fn scanNumber(buf: Seq<u8>, start: int, i: int, dot: bool, rational: bool) -> NumberScan
    decreases buf.len() - i,
{
    if i < 0 || i >= buf.len() {
        NumberScan { end: i, dot, rational }
    } else if digit(buf[i]) {
        scanNumber(buf, start, i + 1, dot, rational)
    } else if buf[i] == DOT && !dot && i + 1 < buf.len() && digit(buf[i + 1]) && dotAllowed(
        buf,
        start,
    ) {
        if rational {
            NumberScan { end: i, dot, rational }
        } else {
            scanNumber(buf, start, i + 1, true, rational)
        }
    } else if buf[i] == SLASH && i + 1 < buf.len() && buf[i + 1] == SLASH && !dot && i + 2
        < buf.len() && digit(buf[i + 2]) {
        scanNumber(buf, start, i + 2, dot, true)
    } else {
        NumberScan { end: i, dot, rational }
    }
}

/// The kind of a numeric literal, from what the scan saw.
pub open spec fn numberKind(rational: bool, dot: bool, negative: bool) -> TokenType {
    if rational {
        TokenType::Rational
    } else if dot && negative {
        TokenType::Float
    } else if dot {
        TokenType::UFloat
    } else if negative {
        TokenType::Int
    } else {
        TokenType::UInt
    }
}

/// The scan of the numeric literal that begins at `start`.
pub open spec fn numberScan(buf: Seq<u8>, start: int) -> NumberScan {
    scanNumber(buf, start, if buf[start] == MINUS { start + 2 } else { start + 1 }, false, false)
}

/// The token of the numeric literal that begins at `start`: its payload is the
/// scanned bytes as they stand.
pub open spec fn numberToken(buf: Seq<u8>, start: int) -> TokenView {
    let scan = numberScan(buf, start);
    TokenView::literal(
        numberKind(scan.rational, scan.dot, buf[start] == MINUS),
        buf.subrange(start, scan.end),
    )
}

pub proof fn lemma_scanNumber_bounds(buf: Seq<u8>, start: int, i: int, dot: bool, rational: bool)
    requires
        0 <= i <= buf.len(),
    ensures
        i <= scanNumber(buf, start, i, dot, rational).end <= buf.len(),
    decreases buf.len() - i,
{
    if i < buf.len() {
        if digit(buf[i]) {
            lemma_scanNumber_bounds(buf, start, i + 1, dot, rational);
        } else if buf[i] == DOT && !dot && i + 1 < buf.len() && digit(buf[i + 1]) && dotAllowed(
            buf,
            start,
        ) {
            if !rational {
                lemma_scanNumber_bounds(buf, start, i + 1, true, rational);
            }
        } else if buf[i] == SLASH && i + 1 < buf.len() && buf[i + 1] == SLASH && !dot && i + 2
            < buf.len() && digit(buf[i + 2]) {
            lemma_scanNumber_bounds(buf, start, i + 2, dot, true);
        }
    }
}

/// Whether the bytes from `from` up to `to` are all digits.
pub open spec fn allDigits(s: Seq<u8>, from: int, to: int) -> bool {
    forall|k: int| from <= k < to ==> digit(#[trigger] s[k])
}

/// Whether `s` is a numeric literal with a sign or without, whose digits begin
/// at `first` and whose mark (a dot, or two slashes) stands at `mark`, with
/// digits on both sides of it. Without a mark, `mark` is the length of `s`.
pub open spec fn literalShape(s: Seq<u8>, first: int, mark: int, width: int) -> bool {
    &&& (first == 0 || (first == 1 && s[0] == MINUS))
    &&& first < mark
    &&& mark + width <= s.len()
    &&& (width == 0 ==> mark == s.len())
    &&& (width > 0 ==> mark + width < s.len())
    &&& allDigits(s, first, mark)
    &&& allDigits(s, mark + width, s.len() as int)
}

/// Whether `s` is a numeric literal of the given kind: digits for `UInt`; a
/// minus sign and digits for `Int`; digits, a dot and digits for `UFloat`, with
/// a minus sign before them for `Float`; digits, two slashes and digits, with or
/// without a minus sign, for `Rational`.
pub open spec fn numericLiteral(s: Seq<u8>, kind: TokenType) -> bool {
    match kind {
        TokenType::UInt => literalShape(s, 0, s.len() as int, 0),
        TokenType::Int => literalShape(s, 1, s.len() as int, 0),
        TokenType::UFloat => exists|mark: int|
            #[trigger] literalShape(s, 0, mark, 1) && s[mark] == DOT,
        TokenType::Float => exists|mark: int|
            #[trigger] literalShape(s, 1, mark, 1) && s[mark] == DOT,
        TokenType::Rational => exists|first: int, mark: int|
            #[trigger] literalShape(s, first, mark, 2) && s[mark] == SLASH && s[mark + 1] == SLASH,
        _ => false,
    }
}

proof fn lemma_scanNumber_digits(
    buf: Seq<u8>,
    start: int,
    i: int,
    j: int,
    dot: bool,
    rational: bool,
)
    requires
        0 <= i <= j <= buf.len(),
        allDigits(buf, i, j),
    ensures
        scanNumber(buf, start, i, dot, rational) == scanNumber(buf, start, j, dot, rational),
    decreases j - i,
{
    if i < j {
        assert(digit(buf[i]));
        lemma_scanNumber_digits(buf, start, i + 1, j, dot, rational);
    }
}

proof fn lemma_literal_scan(s: Seq<u8>, first: int, mark: int, width: int)
    requires
        literalShape(s, first, mark, width),
        width == 0 || (width == 1 && s[mark] == DOT) || (width == 2 && s[mark] == SLASH && s[mark
            + 1] == SLASH),
    ensures
        numberStarts(s, 0),
        numberScan(s, 0) == (NumberScan { end: s.len() as int, dot: width == 1, rational: width == 2 }),
        (s[0] == MINUS) == (first == 1),
{
    assert(digit(s[first]));
    let begin = if s[0] == MINUS { 2int } else { 1int };
    lemma_scanNumber_digits(s, 0, begin, mark, false, false);
    if width == 0 {
    } else {
        assert(digit(s[mark + width]));
        lemma_scanNumber_digits(s, 0, mark + width, s.len() as int, width == 1, width == 2);
    }
}

/// Lexing a numeric literal gives it back: for every numeric literal `s` of a
/// kind, the scan at the start of `s` takes all of `s`, and the token has that
/// kind and `s` itself as its payload.
pub proof fn lemma_number_roundtrip(s: Seq<u8>, kind: TokenType)
    requires
        numericLiteral(s, kind),
    ensures
        numberStarts(s, 0),
        numberScan(s, 0).end == s.len(),
        numberToken(s, 0) == TokenView::literal(kind, s),
{
    match kind {
        TokenType::UInt => {
            lemma_literal_scan(s, 0, s.len() as int, 0);
        },
        TokenType::Int => {
            lemma_literal_scan(s, 1, s.len() as int, 0);
        },
        TokenType::UFloat => {
            let mark = choose|mark: int| #[trigger] literalShape(s, 0, mark, 1) && s[mark] == DOT;
            lemma_literal_scan(s, 0, mark, 1);
        },
        TokenType::Float => {
            let mark = choose|mark: int| #[trigger] literalShape(s, 1, mark, 1) && s[mark] == DOT;
            lemma_literal_scan(s, 1, mark, 1);
        },
        TokenType::Rational => {
            let (first, mark) = choose|first: int, mark: int|
                #[trigger] literalShape(s, first, mark, 2) && s[mark] == SLASH && s[mark + 1]
                    == SLASH;
            lemma_literal_scan(s, first, mark, 2);
        },
        _ => {},
    }
    assert(s.subrange(0, s.len() as int) =~= s);
}

/// Whether the bytes from `a` up to `b` hold a dot.
pub open spec fn dotIn(buf: Seq<u8>, a: int, b: int) -> bool {
    exists|k: int| a <= k < b && #[trigger] buf[k] == DOT
}

/// Whether the bytes from `a` up to `b` hold two slashes, one behind the
/// other.
pub open spec fn slashesIn(buf: Seq<u8>, a: int, b: int) -> bool {
    exists|k: int| a <= k && k + 1 < b && #[trigger] buf[k] == SLASH && buf[k + 1] == SLASH
}

proof fn lemma_scan_marks(buf: Seq<u8>, start: int, i: int, dot: bool, rational: bool)
    requires
        0 <= i <= buf.len(),
    ensures
        i <= scanNumber(buf, start, i, dot, rational).end <= buf.len(),
        scanNumber(buf, start, i, dot, rational).dot == (dot || dotIn(
            buf,
            i,
            scanNumber(buf, start, i, dot, rational).end,
        )),
        scanNumber(buf, start, i, dot, rational).rational == (rational || slashesIn(
            buf,
            i,
            scanNumber(buf, start, i, dot, rational).end,
        )),
    decreases buf.len() - i,
{
    let r = scanNumber(buf, start, i, dot, rational);
    if i < buf.len() {
        if digit(buf[i]) {
            lemma_scan_marks(buf, start, i + 1, dot, rational);
            if dotIn(buf, i + 1, r.end) {
                let k = choose|k: int| i + 1 <= k < r.end && #[trigger] buf[k] == DOT;
                assert(i <= k < r.end && buf[k] == DOT);
            }
            if slashesIn(buf, i + 1, r.end) {
                let k = choose|k: int|
                    i + 1 <= k && k + 1 < r.end && #[trigger] buf[k] == SLASH && buf[k + 1]
                        == SLASH;
                assert(i <= k && k + 1 < r.end && buf[k] == SLASH && buf[k + 1] == SLASH);
            }
            if dotIn(buf, i, r.end) {
                let k = choose|k: int| i <= k < r.end && #[trigger] buf[k] == DOT;
                assert(i + 1 <= k < r.end && buf[k] == DOT);
            }
            if slashesIn(buf, i, r.end) {
                let k = choose|k: int|
                    i <= k && k + 1 < r.end && #[trigger] buf[k] == SLASH && buf[k + 1] == SLASH;
                assert(i + 1 <= k && k + 1 < r.end && buf[k] == SLASH && buf[k + 1] == SLASH);
            }
        } else if buf[i] == DOT && !dot && i + 1 < buf.len() && digit(buf[i + 1]) && dotAllowed(
            buf,
            start,
        ) {
            if !rational {
                lemma_scan_marks(buf, start, i + 1, true, rational);
                assert(i <= i < r.end && buf[i] == DOT);
                if slashesIn(buf, i + 1, r.end) {
                    let k = choose|k: int|
                        i + 1 <= k && k + 1 < r.end && #[trigger] buf[k] == SLASH && buf[k + 1]
                            == SLASH;
                    assert(i <= k && k + 1 < r.end && buf[k] == SLASH && buf[k + 1] == SLASH);
                }
                if slashesIn(buf, i, r.end) {
                    let k = choose|k: int|
                        i <= k && k + 1 < r.end && #[trigger] buf[k] == SLASH && buf[k + 1]
                            == SLASH;
                    assert(i + 1 <= k && k + 1 < r.end && buf[k] == SLASH && buf[k + 1]
                        == SLASH);
                }
            }
        } else if buf[i] == SLASH && i + 1 < buf.len() && buf[i + 1] == SLASH && !dot && i + 2
            < buf.len() && digit(buf[i + 2]) {
            lemma_scan_marks(buf, start, i + 2, dot, true);
            assert(i <= i && i + 1 < r.end && buf[i] == SLASH && buf[i + 1] == SLASH);
            if dotIn(buf, i + 2, r.end) {
                let k = choose|k: int| i + 2 <= k < r.end && #[trigger] buf[k] == DOT;
                assert(i <= k < r.end && buf[k] == DOT);
            }
            if dotIn(buf, i, r.end) {
                let k = choose|k: int| i <= k < r.end && #[trigger] buf[k] == DOT;
                assert(i + 2 <= k < r.end && buf[k] == DOT);
            }
        }
    }
}

/// The kind of a numeric literal goes by its text, wherever in a buffer the
/// literal begins: it is a `Rational` where the text holds two slashes; else
/// a `Float` where it holds a dot and begins with a minus sign, a `UFloat`
/// where it holds a dot and no minus sign; else an `Int` where it begins with
/// a minus sign; else a `UInt`. No other kind is given, and the text is what
/// was scanned, byte for byte.
pub proof fn lemma_number_kind(buf: Seq<u8>, start: int)
    requires
        numberStarts(buf, start),
    ensures
        start < numberScan(buf, start).end <= buf.len(),
        numberToken(buf, start).data == Some(buf.subrange(start, numberScan(buf, start).end)),
        numberToken(buf, start).tokens.len() == 0,
        numberToken(buf, start).dataType == TokenType::UInt || numberToken(buf, start).dataType
            == TokenType::Int || numberToken(buf, start).dataType == TokenType::UFloat
            || numberToken(buf, start).dataType == TokenType::Float || numberToken(
            buf,
            start,
        ).dataType == TokenType::Rational,
        numberToken(buf, start).dataType == numberKind(
            slashesIn(buf.subrange(start, numberScan(buf, start).end), 0, numberScan(buf, start).end - start),
            dotIn(buf.subrange(start, numberScan(buf, start).end), 0, numberScan(buf, start).end - start),
            buf.subrange(start, numberScan(buf, start).end)[0] == MINUS,
        ),
{
    let first = if buf[start] == MINUS { start + 2 } else { start + 1 };
    let r = numberScan(buf, start);
    lemma_scan_marks(buf, start, first, false, false);
    let text = buf.subrange(start, r.end);
    let n = r.end - start;
    assert(forall|k: int| start <= k < first ==> buf[k] != DOT && buf[k] != SLASH);
    if dotIn(buf, first, r.end) {
        let k = choose|k: int| first <= k < r.end && #[trigger] buf[k] == DOT;
        assert(0 <= k - start < n && text[k - start] == DOT);
    }
    if dotIn(text, 0, n) {
        let k = choose|k: int| 0 <= k < n && #[trigger] text[k] == DOT;
        assert(buf[start + k] == DOT);
        assert(first <= start + k < r.end && buf[start + k] == DOT);
    }
    if slashesIn(buf, first, r.end) {
        let k = choose|k: int|
            first <= k && k + 1 < r.end && #[trigger] buf[k] == SLASH && buf[k + 1] == SLASH;
        assert(0 <= k - start && k - start + 1 < n && text[k - start] == SLASH && text[k - start
            + 1] == SLASH);
    }
    if slashesIn(text, 0, n) {
        let k = choose|k: int|
            0 <= k && k + 1 < n && #[trigger] text[k] == SLASH && text[k + 1] == SLASH;
        assert(buf[start + k] == SLASH && buf[start + k + 1] == SLASH);
        assert(first <= start + k && start + k + 1 < r.end && buf[start + k] == SLASH && buf[start
            + k + 1] == SLASH);
    }
}

/// Reads the numeric literal that begins at `index` and moves `index` behind
/// it.
pub fn getNumber(buffer: &[u8], index: &mut usize, bufferLength: &usize) -> (token: Token)
    requires
        *bufferLength <= buffer@.len(),
        numberStarts(buffer@.take(*bufferLength as int), *old(index) as int),
    ensures
        token@ == numberToken(buffer@.take(*bufferLength as int), *old(index) as int),
        *final(index) == numberScan(buffer@.take(*bufferLength as int), *old(index) as int).end,
        *old(index) < *final(index) <= *bufferLength,
{
    let ghost buf = buffer@.take(*bufferLength as int);
    let start: usize = *index;
    let length: usize = *bufferLength;
    let negative: bool = buffer[start] == MINUS;
    let mut result: Vec<u8> = Vec::new();
    result.push(buffer[start]);
    let mut i: usize = start + 1;
    if negative {
        result.push(buffer[i]);
        i += 1;
    }
    let mut dot: bool = false;
    let mut rational: bool = false;
    assert(result@ =~= buf.subrange(start as int, i as int));
    let dotOk: bool = start == 0 || buffer[start - 1] != DOT;
    let mut done: bool = false;
    while i < length && !done
        invariant
            start < i <= length <= buffer@.len(),
            buf == buffer@.take(length as int),
            dotOk == dotAllowed(buf, start as int),
            result@ == buf.subrange(start as int, i as int),
            scanNumber(buf, start as int, i as int, dot, rational) == numberScan(
                buf,
                start as int,
            ),
            done ==> scanNumber(buf, start as int, i as int, dot, rational) == (NumberScan {
                end: i as int,
                dot,
                rational,
            }),
        decreases length - i + if done { 0int } else { 1int },
    {
        let byte1: u8 = buffer[i];
        if isDigit(&byte1) {
            result.push(byte1);
            i += 1;
        } else if byte1 == DOT && !dot && i + 1 < length && isDigit(&buffer[i + 1]) && dotOk {
            if rational {
                done = true;
            } else {
                dot = true;
                result.push(byte1);
                i += 1;
            }
        } else if byte1 == SLASH && i + 1 < length && buffer[i + 1] == SLASH && !dot && i + 2
            < length && isDigit(&buffer[i + 2]) {
            rational = true;
            result.push(SLASH);
            result.push(SLASH);
            i += 2;
        } else {
            done = true;
        }
        assert(result@ =~= buf.subrange(start as int, i as int));
    }
    *index = i;
    let kind = if rational {
        TokenType::Rational
    } else if dot && negative {
        TokenType::Float
    } else if dot {
        TokenType::UFloat
    } else if negative {
        TokenType::Int
    } else {
        TokenType::UInt
    };
    Token::new(kind, result)
}

/// Whether a word scan takes the byte: letters and dots always; digits and
/// square brackets once the word is a link.
pub open spec fn wordByte(c: u8, link: bool) -> bool {
    letter(c) || c == DOT || (link && (digit(c) || c == LBRACKET || c == RBRACKET))
}

/// Where a word scan stopped and whether it saw a dot.
pub struct WordScan {
    pub end: int,
    pub link: bool,
}

/// The word scan from position `i` on. A dot makes the word a link.
pub open spec fn scanWord(buf: Seq<u8>, i: int, link: bool) -> WordScan
    decreases buf.len() - i,
{
    if i < 0 || i >= buf.len() {
        WordScan { end: i, link }
    } else if wordByte(buf[i], link) {
        scanWord(buf, i + 1, link || buf[i] == DOT)
    } else {
        WordScan { end: i, link }
    }
}

/// The token of a plain word: the two truth values, the bare names of the
/// primitive kinds, or else an identifier.
pub open spec fn reservedWord(text: Seq<u8>) -> TokenView {
    if text == "true".spec_bytes() {
        TokenView::literal(TokenType::Bool, "1".spec_bytes())
    } else if text == "false".spec_bytes() {
        TokenView::literal(TokenType::Bool, "0".spec_bytes())
    } else if text == "UInt".spec_bytes() {
        TokenView::empty(TokenType::UInt)
    } else if text == "Int".spec_bytes() {
        TokenView::empty(TokenType::Int)
    } else if text == "UFloat".spec_bytes() {
        TokenView::empty(TokenType::UFloat)
    } else if text == "Float".spec_bytes() {
        TokenView::empty(TokenType::Float)
    } else if text == "Rational".spec_bytes() {
        TokenView::empty(TokenType::Rational)
    } else if text == "Bool".spec_bytes() {
        TokenView::empty(TokenType::Bool)
    } else if text == "Char".spec_bytes() {
        TokenView::empty(TokenType::Char)
    } else if text == "String".spec_bytes() {
        TokenView::empty(TokenType::String)
    } else if text == "RawString".spec_bytes() {
        TokenView::empty(TokenType::RawString)
    } else {
        TokenView::literal(TokenType::Word, text)
    }
}

/// The scan of the word that begins at `start`.
pub open spec fn wordScan(buf: Seq<u8>, start: int) -> WordScan {
    scanWord(buf, start + 1, false)
}

/// The token of the word that begins at `start`.
pub open spec fn wordToken(buf: Seq<u8>, start: int) -> TokenView {
    let scan = wordScan(buf, start);
    let text = buf.subrange(start, scan.end);
    if scan.link {
        TokenView::literal(TokenType::Link, text)
    } else {
        reservedWord(text)
    }
}

/// Reads the word that begins at `index` and moves `index` behind it.
pub fn getWord(buffer: &[u8], index: &mut usize, bufferLength: &usize) -> (token: Token)
    requires
        *old(index) < *bufferLength <= buffer@.len(),
    ensures
        token@ == wordToken(buffer@.take(*bufferLength as int), *old(index) as int),
        *final(index) == wordScan(buffer@.take(*bufferLength as int), *old(index) as int).end,
        *old(index) < *final(index) <= *bufferLength,
{
    let ghost buf = buffer@.take(*bufferLength as int);
    let start: usize = *index;
    let length: usize = *bufferLength;
    let mut result: Vec<u8> = Vec::new();
    result.push(buffer[start]);
    let mut i: usize = start + 1;
    let mut isLink: bool = false;
    let mut done: bool = false;
    assert(result@ =~= buf.subrange(start as int, i as int));
    while i < length && !done
        invariant
            start < i <= length <= buffer@.len(),
            buf == buffer@.take(length as int),
            result@ == buf.subrange(start as int, i as int),
            scanWord(buf, i as int, isLink) == wordScan(buf, start as int),
            done ==> scanWord(buf, i as int, isLink) == (WordScan { end: i as int, link: isLink }),
        decreases length - i + if done { 0int } else { 1int },
    {
        let byte1: u8 = buffer[i];
        if isLetter(&byte1) || byte1 == DOT || (isLink && (isDigit(&byte1) || byte1 == LBRACKET
            || byte1 == RBRACKET)) {
            result.push(byte1);
            i += 1;
            if byte1 == DOT {
                isLink = true;
            }
        } else {
            done = true;
        }
        assert(result@ =~= buf.subrange(start as int, i as int));
    }
    *index = i;
    if isLink {
        Token::new(TokenType::Link, result)
    } else if sameText(&result, "true") {
        Token::fromStr(TokenType::Bool, "1")
    } else if sameText(&result, "false") {
        Token::fromStr(TokenType::Bool, "0")
    } else if sameText(&result, "UInt") {
        Token::newEmpty(TokenType::UInt)
    } else if sameText(&result, "Int") {
        Token::newEmpty(TokenType::Int)
    } else if sameText(&result, "UFloat") {
        Token::newEmpty(TokenType::UFloat)
    } else if sameText(&result, "Float") {
        Token::newEmpty(TokenType::Float)
    } else if sameText(&result, "Rational") {
        Token::newEmpty(TokenType::Rational)
    } else if sameText(&result, "Bool") {
        Token::newEmpty(TokenType::Bool)
    } else if sameText(&result, "Char") {
        Token::newEmpty(TokenType::Char)
    } else if sameText(&result, "String") {
        Token::newEmpty(TokenType::String)
    } else if sameText(&result, "RawString") {
        Token::newEmpty(TokenType::RawString)
    } else {
        Token::new(TokenType::Word, result)
    }
}

/// How many backslashes stand in a row right before position `i`, the first
/// byte of the buffer not counted.
pub open spec fn backslashRun(buf: Seq<u8>, i: int) -> nat
    decreases i,
{
    if 2 <= i <= buf.len() && buf[i - 1] == BACKSLASH {
        1 + backslashRun(buf, i - 1)
    } else {
        0
    }
}

/// Where a quoted scan for `quote` stops, from position `i` on: at a newline,
/// at the first `quote` with an even number of backslashes before it, or at the
/// end of the buffer.
pub open spec fn quoteClose(buf: Seq<u8>, quote: u8, i: int) -> int
    decreases buf.len() - i,
{
    if i < 0 || i >= buf.len() {
        i
    } else if buf[i] == NEWLINE {
        i
    } else if buf[i] == quote && backslashRun(buf, i) % 2 == 0 {
        i
    } else {
        quoteClose(buf, quote, i + 1)
    }
}

/// Whether the quoted scan that begins at `start` runs into the end of its
/// line.
pub open spec fn quoteBroken(buf: Seq<u8>, start: int) -> bool {
    let close = quoteClose(buf, buf[start], start + 1);
    close < buf.len() && buf[close] == NEWLINE
}

/// The index behind the quoted literal that begins at `start`: behind the
/// closing quote, or at the newline or the end of the buffer that cut it off.
pub open spec fn quoteEnd(buf: Seq<u8>, start: int) -> int {
    let close = quoteClose(buf, buf[start], start + 1);
    if close < buf.len() && buf[close] != NEWLINE {
        close + 1
    } else {
        close
    }
}

/// The token of the quoted literal that begins at `start`. The payload is what
/// stands between the quotes, byte for byte. A literal cut off by a newline has
/// no value, nor has a `'` literal that does not hold exactly one byte.
pub open spec fn quoteToken(buf: Seq<u8>, start: int) -> TokenView {
    let close = quoteClose(buf, buf[start], start + 1);
    let text = buf.subrange(start + 1, close);
    if quoteBroken(buf, start) {
        TokenView::none()
    } else if buf[start] == SINGLE_QUOTE {
        if text.len() == 1 {
            TokenView::literal(TokenType::Char, text)
        } else {
            TokenView::none()
        }
    } else if buf[start] == DOUBLE_QUOTE {
        TokenView::literal(TokenType::String, text)
    } else if buf[start] == BACKTICK {
        TokenView::literal(TokenType::RawString, text)
    } else {
        TokenView::none()
    }
}

pub proof fn lemma_quoteClose_bounds(buf: Seq<u8>, quote: u8, i: int)
    requires
        0 <= i <= buf.len(),
    ensures
        i <= quoteClose(buf, quote, i) <= buf.len(),
    decreases buf.len() - i,
{
    if i < buf.len() && buf[i] != NEWLINE && !(buf[i] == quote && backslashRun(buf, i) % 2 == 0) {
        lemma_quoteClose_bounds(buf, quote, i + 1);
    }
}

/// Counts the backslashes that stand in a row right before position `i`.
fn countBackslashes(buffer: &[u8], i: usize) -> (count: usize)
    requires
        1 <= i <= buffer@.len(),
    ensures
        count == backslashRun(buffer@, i as int),
{
    let mut count: usize = 0;
    let mut j: usize = i - 1;
    while j > 0 && buffer[j] == BACKSLASH
        invariant
            j < i <= buffer@.len(),
            count + j + 1 == i,
            count + backslashRun(buffer@, j + 1) == backslashRun(buffer@, i as int),
        decreases j,
    {
        count += 1;
        j -= 1;
    }
    count
}

/// Reads the quoted literal that begins at `index` and moves `index` behind it.
pub fn getQuotes(buffer: &[u8], index: &mut usize) -> (token: Token)
    requires
        *old(index) < buffer@.len(),
    ensures
        token@ == quoteToken(buffer@, *old(index) as int),
        *final(index) == quoteEnd(buffer@, *old(index) as int),
        *old(index) < *final(index) <= buffer@.len(),
{
    let start: usize = *index;
    let byte1: u8 = buffer[start];
    let length: usize = buffer.len();
    let mut result: Vec<u8> = Vec::new();
    let mut i: usize = start + 1;
    let mut done: bool = false;
    assert(result@ =~= buffer@.subrange(start + 1, i as int));
    while i < length && !done
        invariant
            start < i <= length == buffer@.len(),
            result@ == buffer@.subrange(start + 1, i as int),
            quoteClose(buffer@, byte1, i as int) == quoteClose(buffer@, byte1, start + 1),
            done ==> quoteClose(buffer@, byte1, i as int) == i,
        decreases length - i + if done { 0int } else { 1int },
    {
        let byte2: u8 = buffer[i];
        if byte2 == NEWLINE {
            done = true;
        } else if byte2 == byte1 && countBackslashes(buffer, i) % 2 == 0 {
            done = true;
        } else {
            result.push(byte2);
            i += 1;
        }
        assert(result@ =~= buffer@.subrange(start + 1, i as int));
    }
    if i < length && buffer[i] == NEWLINE {
        *index = i;
        return Token::newEmpty(TokenType::Nothing);
    }
    if i < length {
        *index = i + 1;
    } else {
        *index = i;
    }
    if byte1 == SINGLE_QUOTE {
        if result.len() == 1 {
            Token::new(TokenType::Char, result)
        } else {
            Token::newEmpty(TokenType::Nothing)
        }
    } else if byte1 == DOUBLE_QUOTE {
        Token::new(TokenType::String, result)
    } else if byte1 == BACKTICK {
        Token::new(TokenType::RawString, result)
    } else {
        Token::newEmpty(TokenType::Nothing)
    }
}

/// The kind of the operator or punctuation mark that begins with byte `c` and
/// is followed by byte `n` (0 at the end of the buffer).
pub open spec fn operatorKind(c: u8, n: u8) -> TokenType {
    if c == PLUS {
        if n == EQUAL {
            TokenType::PlusEquals
        } else if n == PLUS {
            TokenType::UnaryPlus
        } else {
            TokenType::Plus
        }
    } else if c == MINUS {
        if n == EQUAL {
            TokenType::MinusEquals
        } else if n == MINUS {
            TokenType::UnaryMinus
        } else if n == GREATER {
            TokenType::Pointer
        } else {
            TokenType::Minus
        }
    } else if c == STAR {
        if n == EQUAL {
            TokenType::MultiplyEquals
        } else if n == STAR {
            TokenType::UnaryMultiply
        } else {
            TokenType::Multiply
        }
    } else if c == SLASH {
        if n == EQUAL {
            TokenType::DivideEquals
        } else if n == SLASH {
            TokenType::UnaryDivide
        } else {
            TokenType::Divide
        }
    } else if c == PERCENT {
        TokenType::Modulo
    } else if c == CARET {
        if n == EQUAL || n == CARET {
            TokenType::Exponent
        } else {
            TokenType::Disjoint
        }
    } else if c == GREATER {
        if n == EQUAL {
            TokenType::GreaterThanOrEquals
        } else {
            TokenType::GreaterThan
        }
    } else if c == LESS {
        if n == EQUAL {
            TokenType::LessThanOrEquals
        } else {
            TokenType::LessThan
        }
    } else if c == BANG {
        if n == EQUAL {
            TokenType::NotEquals
        } else {
            TokenType::Exclusion
        }
    } else if c == TILDE {
        if n == TILDE {
            TokenType::DoubleTilde
        } else {
            TokenType::Tilde
        }
    } else if c == AMPERSAND {
        TokenType::Joint
    } else if c == PIPE {
        TokenType::Inclusion
    } else if c == EQUAL {
        TokenType::Equals
    } else if c == LPAREN {
        TokenType::CircleBracketBegin
    } else if c == RPAREN {
        TokenType::CircleBracketEnd
    } else if c == LBRACE {
        TokenType::FigureBracketBegin
    } else if c == RBRACE {
        TokenType::FigureBracketEnd
    } else if c == LBRACKET {
        TokenType::SquareBracketBegin
    } else if c == RBRACKET {
        TokenType::SquareBracketEnd
    } else if c == SEMICOLON {
        TokenType::Endline
    } else if c == COLON {
        TokenType::Colon
    } else if c == COMMA {
        TokenType::Comma
    } else if c == DOT {
        TokenType::Dot
    } else if c == QUESTION {
        TokenType::Question
    } else {
        TokenType::Nothing
    }
}

/// Whether the operator that begins with `c` also takes the byte `n` behind
/// it.
pub open spec fn operatorIsDouble(c: u8, n: u8) -> bool {
    ||| (c == PLUS && (n == EQUAL || n == PLUS))
    ||| (c == MINUS && (n == EQUAL || n == MINUS || n == GREATER))
    ||| (c == STAR && (n == EQUAL || n == STAR))
    ||| (c == SLASH && (n == EQUAL || n == SLASH))
    ||| (c == PERCENT && (n == EQUAL || n == PERCENT))
    ||| (c == CARET && (n == EQUAL || n == CARET))
    ||| (c == GREATER && n == EQUAL)
    ||| (c == LESS && n == EQUAL)
    ||| (c == BANG && n == EQUAL)
    ||| (c == TILDE && n == TILDE)
}

/// How many bytes the operator that begins with `c` takes: none where `c`
/// begins no operator.
pub open spec fn operatorLength(c: u8, n: u8) -> int {
    if operatorKind(c, n) == TokenType::Nothing {
        0
    } else if operatorIsDouble(c, n) {
        2
    } else {
        1
    }
}

/// The byte behind position `i`, or 0 at the end of the buffer.
pub open spec fn nextByte(buf: Seq<u8>, i: int) -> u8 {
    if 0 <= i + 1 < buf.len() {
        buf[i + 1]
    } else {
        0
    }
}

/// The operator token that begins at `start`.
pub open spec fn operatorToken(buf: Seq<u8>, start: int) -> TokenView {
    TokenView::empty(operatorKind(buf[start], nextByte(buf, start)))
}

/// The index behind the operator that begins at `start`.
pub open spec fn operatorEnd(buf: Seq<u8>, start: int) -> int {
    start + operatorLength(buf[start], nextByte(buf, start))
}

/// The kind of the operator made of `c` and, where it takes two bytes, `n`.
fn operatorOf(c: u8, n: u8) -> (kind: TokenType)
    ensures
        kind == operatorKind(c, n),
{
    if c == PLUS {
        if n == EQUAL {
            TokenType::PlusEquals
        } else if n == PLUS {
            TokenType::UnaryPlus
        } else {
            TokenType::Plus
        }
    } else if c == MINUS {
        if n == EQUAL {
            TokenType::MinusEquals
        } else if n == MINUS {
            TokenType::UnaryMinus
        } else if n == GREATER {
            TokenType::Pointer
        } else {
            TokenType::Minus
        }
    } else if c == STAR {
        if n == EQUAL {
            TokenType::MultiplyEquals
        } else if n == STAR {
            TokenType::UnaryMultiply
        } else {
            TokenType::Multiply
        }
    } else if c == SLASH {
        if n == EQUAL {
            TokenType::DivideEquals
        } else if n == SLASH {
            TokenType::UnaryDivide
        } else {
            TokenType::Divide
        }
    } else if c == PERCENT {
        TokenType::Modulo
    } else if c == CARET {
        if n == EQUAL || n == CARET {
            TokenType::Exponent
        } else {
            TokenType::Disjoint
        }
    } else if c == GREATER {
        if n == EQUAL {
            TokenType::GreaterThanOrEquals
        } else {
            TokenType::GreaterThan
        }
    } else if c == LESS {
        if n == EQUAL {
            TokenType::LessThanOrEquals
        } else {
            TokenType::LessThan
        }
    } else if c == BANG {
        if n == EQUAL {
            TokenType::NotEquals
        } else {
            TokenType::Exclusion
        }
    } else if c == TILDE {
        if n == TILDE {
            TokenType::DoubleTilde
        } else {
            TokenType::Tilde
        }
    } else if c == AMPERSAND {
        TokenType::Joint
    } else if c == PIPE {
        TokenType::Inclusion
    } else if c == EQUAL {
        TokenType::Equals
    } else if c == LPAREN {
        TokenType::CircleBracketBegin
    } else if c == RPAREN {
        TokenType::CircleBracketEnd
    } else if c == LBRACE {
        TokenType::FigureBracketBegin
    } else if c == RBRACE {
        TokenType::FigureBracketEnd
    } else if c == LBRACKET {
        TokenType::SquareBracketBegin
    } else if c == RBRACKET {
        TokenType::SquareBracketEnd
    } else if c == SEMICOLON {
        TokenType::Endline
    } else if c == COLON {
        TokenType::Colon
    } else if c == COMMA {
        TokenType::Comma
    } else if c == DOT {
        TokenType::Dot
    } else if c == QUESTION {
        TokenType::Question
    } else {
        TokenType::Nothing
    }
}

/// Reads the operator or punctuation mark that begins at `index` and moves
/// `index` behind it. Where no operator begins there, the token has no kind and
/// `index` stays.
pub fn getOperator(buffer: &[u8], index: &mut usize, bufferLength: &usize) -> (token: Token)
    requires
        *old(index) < *bufferLength <= buffer@.len(),
    ensures
        token@ == operatorToken(buffer@.take(*bufferLength as int), *old(index) as int),
        *final(index) == operatorEnd(buffer@.take(*bufferLength as int), *old(index) as int),
        *old(index) <= *final(index) <= *bufferLength,
        token@.dataType != TokenType::Nothing ==> *old(index) < *final(index),
{
    let start: usize = *index;
    let c: u8 = buffer[start];
    let n: u8 = if start + 1 < *bufferLength {
        buffer[start + 1]
    } else {
        0
    };
    let kind = operatorOf(c, n);
    let double: bool = (c == PLUS && (n == EQUAL || n == PLUS)) || (c == MINUS && (n == EQUAL || n
        == MINUS || n == GREATER)) || (c == STAR && (n == EQUAL || n == STAR)) || (c == SLASH && (n
        == EQUAL || n == SLASH)) || (c == PERCENT && (n == EQUAL || n == PERCENT)) || (c == CARET
        && (n == EQUAL || n == CARET)) || (c == GREATER && n == EQUAL) || (c == LESS && n == EQUAL)
        || (c == BANG && n == EQUAL) || (c == TILDE && n == TILDE);
    if kind == TokenType::Nothing {
    } else if double {
        *index = start + 2;
    } else {
        *index = start + 1;
    }
    Token::newEmpty(kind)
}

pub proof fn lemma_commentEnd_bounds(buf: Seq<u8>, i: int)
    requires
        0 <= i <= buf.len(),
    ensures
        i <= commentEnd(buf, i) <= buf.len(),
    decreases buf.len() - i,
{
    if i < buf.len() && buf[i] != NEWLINE {
        lemma_commentEnd_bounds(buf, i + 1);
    }
}

pub proof fn lemma_scanWord_bounds(buf: Seq<u8>, i: int, link: bool)
    requires
        0 <= i <= buf.len(),
    ensures
        i <= scanWord(buf, i, link).end <= buf.len(),
    decreases buf.len() - i,
{
    if i < buf.len() && wordByte(buf[i], link) {
        lemma_scanWord_bounds(buf, i + 1, link || buf[i] == DOT);
    }
}

/// Whether the byte opens a quoted literal.
pub open spec fn quoteByte(c: u8) -> bool {
    c == SINGLE_QUOTE || c == DOUBLE_QUOTE || c == BACKTICK
}

/// The kind a quoted literal takes when the identifier `f` stands before it.
pub open spec fn formattedKind(kind: TokenType) -> TokenType {
    match kind {
        TokenType::RawString => TokenType::FormattedRawString,
        TokenType::String => TokenType::FormattedString,
        TokenType::Char => TokenType::FormattedChar,
        other => other,
    }
}

/// Whether the token is the bare identifier `f`.
pub open spec fn formatMark(token: TokenView) -> bool {
    token.dataType == TokenType::Word && token.data == Some("f".spec_bytes())
}

/// The tokens of a line after a quoted literal was read: behind the identifier
/// `f` the literal takes its formatted kind and the place of the identifier;
/// anywhere else it is added at the end.
pub open spec fn withQuote(tokens: Seq<TokenView>, quote: TokenView) -> Seq<TokenView> {
    if tokens.len() > 0 && formatMark(tokens.last()) {
        tokens.update(
            tokens.len() - 1,
            TokenView { dataType: formattedKind(quote.dataType), ..quote },
        )
    } else {
        tokens.push(quote)
    }
}

/// The line that a newline or a semicolon ends: its tokens with round brackets
/// nested, then square brackets.
pub open spec fn finishedLine(tokens: Seq<TokenView>, indent: nat) -> LineView {
    LineView {
        tokens: bracketNested(
            bracketNested(tokens, TokenType::CircleBracketBegin, TokenType::CircleBracketEnd),
            TokenType::SquareBracketBegin,
            TokenType::SquareBracketEnd,
        ),
        indent,
        lines: Seq::empty(),
    }
}

/// The flat lines of a buffer, from position `i` on. `indent` counts the
/// spaces at the start of the current line while `readIndent` holds; `tokens`
/// are the tokens of the current line so far; `lines` are the finished lines.
///
/// Spaces at the start of a line are its depth. A newline or a semicolon
/// finishes the line. `#` opens a comment up to the end of the line, which
/// leaves a comment mark. Then numbers, words, quoted literals and operators
/// are read, in this order of precedence. A quoted literal that fails leaves
/// no token, and the scan goes on behind it: at the newline that cut it off,
/// which still ends the line, or behind its closing quote. A byte that means
/// nothing is skipped. What follows the last line end is not part of any
/// line.
pub open spec fn lexFrom(
    buf: Seq<u8>,
    i: int,
    indent: nat,
    readIndent: bool,
    tokens: Seq<TokenView>,
    lines: Seq<LineView>,
) -> Seq<LineView>
    decreases buf.len() - i,
{
    if i < 0 || i >= buf.len() {
        lines
    } else if buf[i] == SPACE && readIndent {
        lexFrom(buf, i + 1, indent + 1, true, tokens, lines)
    } else if buf[i] == NEWLINE || buf[i] == SEMICOLON {
        lexFrom(buf, i + 1, 0, true, Seq::empty(), lines.push(finishedLine(tokens, indent)))
    } else if buf[i] == HASH {
        proof {
            lemma_commentEnd_bounds(buf, i + 1);
        }
        lexFrom(
            buf,
            commentEnd(buf, i + 1),
            indent,
            false,
            tokens.push(TokenView::empty(TokenType::Comment)),
            lines,
        )
    } else if numberStarts(buf, i) {
        proof {
            lemma_scanNumber_bounds(buf, i, i + 1, false, false);
            if i + 2 <= buf.len() {
                lemma_scanNumber_bounds(buf, i, i + 2, false, false);
            }
        }
        lexFrom(buf, numberScan(buf, i).end, indent, false, tokens.push(numberToken(buf, i)), lines)
    } else if letter(buf[i]) {
        proof {
            lemma_scanWord_bounds(buf, i + 1, false);
        }
        lexFrom(buf, wordScan(buf, i).end, indent, false, tokens.push(wordToken(buf, i)), lines)
    } else if quoteByte(buf[i]) {
        proof {
            lemma_quoteClose_bounds(buf, buf[i], i + 1);
        }
        if quoteToken(buf, i).dataType != TokenType::Nothing {
            lexFrom(buf, quoteEnd(buf, i), indent, false, withQuote(tokens, quoteToken(buf, i)), lines)
        } else {
            lexFrom(buf, quoteEnd(buf, i), indent, false, tokens, lines)
        }
    } else if singleChar(buf[i]) && operatorKind(buf[i], nextByte(buf, i)) != TokenType::Nothing {
        lexFrom(buf, operatorEnd(buf, i), indent, false, tokens.push(operatorToken(buf, i)), lines)
    } else {
        lexFrom(buf, i + 1, indent, false, tokens, lines)
    }
}

/// The buffer with a newline added at its end where it does not end in one.
pub open spec fn withNewline(buf: Seq<u8>) -> Seq<u8> {
    if buf.len() > 0 && buf.last() != NEWLINE {
        buf.push(NEWLINE)
    } else {
        buf
    }
}

/// The flat lines of a buffer.
pub open spec fn lexed(buf: Seq<u8>) -> Seq<LineView> {
    lexFrom(withNewline(buf), 0, 0, true, Seq::empty(), Seq::empty())
}

/// The line tree of a buffer: its flat lines nested by indentation, without
/// comments.
pub open spec fn lineTree(buf: Seq<u8>) -> Seq<LineView> {
    cleanedFrom(lineNested(lexed(buf)), 0)
}

/// Adds a quoted literal to the tokens of a line.
fn pushQuote(lineTokens: &mut Vec<Token>, token: Token)
    ensures
        tokensView(final(lineTokens)@) == withQuote(tokensView(old(lineTokens)@), token@),
{
    let mut token = token;
    let count: usize = lineTokens.len();
    let marked: bool = count > 0 && lineTokens[count - 1].dataType == TokenType::Word && match &lineTokens[count - 1].data {
        Some(d) => sameText(d, "f"),
        None => false,
    };
    if marked {
        let kind = match token.dataType {
            TokenType::RawString => TokenType::FormattedRawString,
            TokenType::String => TokenType::FormattedString,
            TokenType::Char => TokenType::FormattedChar,
            other => other,
        };
        token.setDataType(kind);
        proof {
            lemma_tokensView_update(lineTokens@, count - 1, token);
        }
        lineTokens[count - 1] = token;
    } else {
        proof {
            lemma_tokensView_push(lineTokens@, token);
        }
        lineTokens.push(token);
    }
}

/// Reads a buffer into its tree of lines: the tokens of each line with round
/// and square brackets nested, the lines nested by indentation, the comments
/// removed.
pub fn readTokens(buffer: Vec<u8>) -> (linesLinks: Vec<Line>)
    ensures
        linesView(linesLinks@) == lineTree(buffer@),
{
    let mut buffer = buffer;
    if buffer.len() > 0 && buffer[buffer.len() - 1] != NEWLINE {
        buffer.push(NEWLINE);
    }
    let ghost buf = buffer@;
    let bufferLength: usize = buffer.len();
    let mut index: usize = 0;
    let mut lineIndent: usize = 0;
    let mut lineTokens: Vec<Token> = Vec::new();
    let mut linesLinks: Vec<Line> = Vec::new();
    let mut readLineIndent: bool = true;
    assert(buf.take(bufferLength as int) =~= buf);
    assert(tokensView(lineTokens@) =~= Seq::empty());
    assert(linesView(linesLinks@) =~= Seq::empty());
    while index < bufferLength
        invariant
            index <= bufferLength == buffer@.len(),
            buf == buffer@,
            buf.take(bufferLength as int) == buf,
            lineIndent <= index,
            flat(linesView(linesLinks@)),
            lexFrom(
                buf,
                index as int,
                lineIndent as nat,
                readLineIndent,
                tokensView(lineTokens@),
                linesView(linesLinks@),
            ) == lexFrom(buf, 0, 0, true, Seq::empty(), Seq::empty()),
        decreases bufferLength - index,
    {
        let byte: u8 = buffer[index];
        if byte == SPACE && readLineIndent {
            index += 1;
            lineIndent += 1;
        } else if byte == NEWLINE || byte == SEMICOLON {
            bracketNesting(
                &mut lineTokens,
                &TokenType::CircleBracketBegin,
                &TokenType::CircleBracketEnd,
            );
            bracketNesting(
                &mut lineTokens,
                &TokenType::SquareBracketBegin,
                &TokenType::SquareBracketEnd,
            );
            let mut tokens: Vec<Token> = Vec::new();
            std::mem::swap(&mut tokens, &mut lineTokens);
            let line = Line { tokens, indent: lineIndent, lines: Vec::new() };
            proof {
                lemma_nested_lines(line);
                assert(line@.lines =~= Seq::empty());
                lemma_linesView_push(linesLinks@, line);
                assert(tokensView(lineTokens@) =~= Seq::empty());
            }
            linesLinks.push(line);
            lineIndent = 0;
            readLineIndent = true;
            index += 1;
        } else if byte == HASH {
            readLineIndent = false;
            deleteComment(buffer.as_slice(), &mut index, &bufferLength);
            let token = Token::newEmpty(TokenType::Comment);
            proof {
                lemma_tokensView_push(lineTokens@, token);
            }
            lineTokens.push(token);
        } else if isDigit(&byte) || (byte == MINUS && index + 1 < bufferLength && isDigit(
            &buffer[index + 1],
        )) {
            readLineIndent = false;
            let token = getNumber(buffer.as_slice(), &mut index, &bufferLength);
            proof {
                lemma_tokensView_push(lineTokens@, token);
            }
            lineTokens.push(token);
        } else if isLetter(&byte) {
            readLineIndent = false;
            let token = getWord(buffer.as_slice(), &mut index, &bufferLength);
            proof {
                lemma_tokensView_push(lineTokens@, token);
            }
            lineTokens.push(token);
        } else if byte == SINGLE_QUOTE || byte == DOUBLE_QUOTE || byte == BACKTICK {
            readLineIndent = false;
            let token = getQuotes(buffer.as_slice(), &mut index);
            if token.dataType != TokenType::Nothing {
                pushQuote(&mut lineTokens, token);
            }
        } else if isSingleChar(&byte) {
            readLineIndent = false;
            let token = getOperator(buffer.as_slice(), &mut index, &bufferLength);
            if token.dataType == TokenType::Nothing {
                index += 1;
            } else {
                proof {
                    lemma_tokensView_push(lineTokens@, token);
                }
                lineTokens.push(token);
            }
        } else {
            readLineIndent = false;
            index += 1;
        }
    }
    lineNesting(&mut linesLinks);
    deleteNestedComment(&mut linesLinks, 0);
    linesLinks
}

} // verus!
