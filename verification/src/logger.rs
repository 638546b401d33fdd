//! Styled text: a small markup for bold and coloured terminal output, its
//! rendering into escape sequences, and the lines of the diagnostic log.
use vstd::prelude::*;
use vstd::string::*;
use crate::value::{decimalText};
use crate::semantics::whitespace;
use crate::tokenizer::sameText;

verus! {

/// One piece of styled text: a byte of text or a change of style.
#[derive(Clone, Copy, Debug, PartialEq, Eq, Structural)]
pub enum Piece {
    Byte(u8),
    Bold,
    NoBold,
    /// Back to no style at all.
    Reset,
    ForegroundReset,
    BackgroundReset,
    Foreground(u8, u8, u8),
    Background(u8, u8, u8),
}

/// The value of a hexadecimal digit.
pub open spec fn hexValue(c: u8) -> Option<u8> {
    if 48 <= c <= 57 {
        Some((c - 48) as u8)
    } else if 97 <= c <= 102 {
        Some((c - 87) as u8)
    } else if 65 <= c <= 70 {
        Some((c - 55) as u8)
    } else {
        None
    }
}

/// The number that two hexadecimal digits stand for.
pub open spec fn hexPair(a: u8, b: u8) -> Option<u8> {
    match (hexValue(a), hexValue(b)) {
        (Some(x), Some(y)) => Some((x * 16 + y) as u8),
        _ => None,
    }
}

/// The colour that six hexadecimal digits stand for: red, green and blue.
pub open spec fn hexColor(hex: Seq<u8>) -> Option<(u8, u8, u8)> {
    if hex.len() == 6 {
        match (hexPair(hex[0], hex[1]), hexPair(hex[2], hex[3]), hexPair(hex[4], hex[5])) {
            (Some(r), Some(g), Some(b)) => Some((r, g, b)),
            _ => None,
        }
    } else {
        None
    }
}

/// The colour that the text stands for, or black.
pub open spec fn colorOrBlack(hex: Seq<u8>) -> (u8, u8, u8) {
    match hexColor(hex) {
        Some(c) => c,
        None => (0u8, 0u8, 0u8),
    }
}

/// The first position from `i` on that holds a closing round bracket, or
/// the length of the text.
pub open spec fn colorEnd(text: Seq<u8>, i: int) -> int
    decreases text.len() - i,
{
    if i < 0 || i >= text.len() || text[i] == 41 {
        i
    } else {
        colorEnd(text, i + 1)
    }
}

pub proof fn lemma_colorEnd_bounds(text: Seq<u8>, i: int)
    requires
        0 <= i <= text.len(),
    ensures
        i <= colorEnd(text, i) <= text.len(),
    decreases text.len() - i,
{
    if i < text.len() && text[i] != 41 {
        lemma_colorEnd_bounds(text, i + 1);
    }
}

/// Where the colour of the mark at position `i` begins: behind the five
/// bytes of the mark, or at the end of the text.
pub open spec fn colorStart(text: Seq<u8>, i: int) -> int {
    if i + 5 <= text.len() {
        i + 5
    } else {
        text.len() as int
    }
}

/// The colour of the mark at position `i`.
pub open spec fn markColor(text: Seq<u8>, i: int) -> (u8, u8, u8) {
    colorOrBlack(text.subrange(colorStart(text, i), colorEnd(text, colorStart(text, i))))
}

/// The position behind the colour mark at position `i`: behind its closing
/// bracket.
pub open spec fn markEnd(text: Seq<u8>, i: int) -> int {
    let end = colorEnd(text, colorStart(text, i));
    if end < text.len() {
        end + 1
    } else {
        end
    }
}

/// Whether a mark begins at position `i`: a backslash that no backslash
/// stands before and that is not the last byte.
pub open spec fn markAt(text: Seq<u8>, i: int) -> bool {
    0 <= i && i + 1 < text.len() && text[i] == 92 && (i == 0 || text[i - 1] != 92)
}

/// The pieces of a marked-up text, from position `i` on.
///
/// `\n` is a newline; `\b` is bold; `\fg(#rrggbb)` and `\bg(#rrggbb)` set the
/// foreground and the background colour, black where the digits are no
/// colour; `\cb`, `\cfg` and `\cbg` end bold, foreground and background;
/// `\c` ends all styles. A backslash before `f` or `cf` that begins no mark is
/// dropped; before any other byte it stands for itself. Every other byte is
/// text.
pub open spec fn pieces(text: Seq<u8>, i: int) -> Seq<Piece>
    decreases text.len() - i,
{
    if i < 0 || i >= text.len() {
        Seq::empty()
    } else if markAt(text, i) {
        let n = text[i + 1];
        let third = i + 2 < text.len();
        let fourth = i + 3 < text.len();
        if n == 110 {
            seq![Piece::Byte(10)] + pieces(text, i + 2)
        } else if n == 98 {
            if third && text[i + 2] == 103 {
                proof {
                    lemma_colorEnd_bounds(text, colorStart(text, i));
                }
                let c = markColor(text, i);
                seq![Piece::Background(c.0, c.1, c.2)] + pieces(text, markEnd(text, i))
            } else {
                seq![Piece::Bold] + pieces(text, i + 2)
            }
        } else if n == 102 {
            if third && text[i + 2] == 103 {
                proof {
                    lemma_colorEnd_bounds(text, colorStart(text, i));
                }
                let c = markColor(text, i);
                seq![Piece::Foreground(c.0, c.1, c.2)] + pieces(text, markEnd(text, i))
            } else {
                pieces(text, i + 1)
            }
        } else if n == 99 {
            if third && text[i + 2] == 98 {
                if fourth && text[i + 3] == 103 {
                    seq![Piece::BackgroundReset] + pieces(text, i + 4)
                } else {
                    seq![Piece::NoBold] + pieces(text, i + 3)
                }
            } else if third && text[i + 2] == 102 {
                if fourth && text[i + 3] == 103 {
                    seq![Piece::ForegroundReset] + pieces(text, i + 4)
                } else {
                    pieces(text, i + 1)
                }
            } else {
                seq![Piece::Reset] + pieces(text, i + 2)
            }
        } else {
            seq![Piece::Byte(92)] + pieces(text, i + 1)
        }
    } else {
        seq![Piece::Byte(text[i])] + pieces(text, i + 1)
    }
}

/// The escape sequence of a true colour: `base` is `38;2;` for the
/// foreground and `48;2;` for the background.
pub open spec fn colorCode(base: Seq<u8>, r: u8, g: u8, b: u8) -> Seq<u8> {
    seq![27u8, 91u8] + base + decimalText(r as nat) + seq![59u8] + decimalText(g as nat) + seq![
        59u8,
    ] + decimalText(b as nat) + seq![109u8]
}

/// The bytes `38;2;`.
pub open spec fn foregroundBase() -> Seq<u8> {
    seq![51u8, 56u8, 59u8, 50u8, 59u8]
}

/// The bytes `48;2;`.
pub open spec fn backgroundBase() -> Seq<u8> {
    seq![52u8, 56u8, 59u8, 50u8, 59u8]
}

/// The bytes that a piece is rendered to. A colour is rendered to its escape
/// sequence where `shown` holds, and to nothing where colours are switched
/// off.
pub open spec fn pieceBytes(piece: Piece, shown: bool) -> Seq<u8> {
    match piece {
        Piece::Byte(c) => seq![c],
        Piece::Bold => seq![27u8, 91u8, 49u8, 109u8],
        Piece::NoBold => seq![27u8, 91u8, 50u8, 49u8, 109u8],
        Piece::Reset => seq![27u8, 91u8, 109u8],
        Piece::ForegroundReset => seq![27u8, 91u8, 51u8, 57u8, 109u8],
        Piece::BackgroundReset => seq![27u8, 91u8, 52u8, 57u8, 109u8],
        Piece::Foreground(r, g, b) => if shown {
            colorCode(foregroundBase(), r, g, b)
        } else {
            Seq::empty()
        },
        Piece::Background(r, g, b) => if shown {
            colorCode(backgroundBase(), r, g, b)
        } else {
            Seq::empty()
        },
    }
}

/// The first `n` pieces rendered one behind the other.
pub open spec fn renderedTo(all: Seq<Piece>, shown: Seq<bool>, n: int) -> Seq<u8>
    decreases n,
{
    if n <= 0 {
        Seq::empty()
    } else {
        renderedTo(all, shown, n - 1) + pieceBytes(all[n - 1], shown[n - 1])
    }
}

/// Whether `out` is a rendering of the pieces: each piece rendered in its
/// place, each colour either shown or not.
pub open spec fn shows(all: Seq<Piece>, out: Seq<u8>) -> bool {
    exists|shown: Seq<bool>| shown.len() == all.len() && out == renderedTo(all, shown, all.len() as int)
}

proof fn lemma_renderedTo_prefix(all: Seq<Piece>, shown: Seq<bool>, more: bool, n: int)
    requires
        0 <= n <= shown.len(),
    ensures
        renderedTo(all, shown.push(more), n) == renderedTo(all, shown, n),
    decreases n,
{
    if n > 0 {
        lemma_renderedTo_prefix(all, shown, more, n - 1);
    }
}

/// The escape sequence of `termion::style::Bold`, as its `Display` writes
/// it: the contract claims the four bytes `ESC [ 1 m`.
#[verifier::external_body]
fn boldCode() -> (r: Vec<u8>)
    ensures
        r@ == pieceBytes(Piece::Bold, true),
{
    format!("{}", termion::style::Bold).into_bytes()
}

/// The escape sequence of `termion::style::NoBold`, as its `Display` writes
/// it: the contract claims the bytes `ESC [ 2 1 m`.
#[verifier::external_body]
fn noBoldCode() -> (r: Vec<u8>)
    ensures
        r@ == pieceBytes(Piece::NoBold, true),
{
    format!("{}", termion::style::NoBold).into_bytes()
}

/// The escape sequence of `termion::style::Reset`, as its `Display` writes
/// it: the contract claims the bytes `ESC [ m`.
#[verifier::external_body]
fn resetCode() -> (r: Vec<u8>)
    ensures
        r@ == pieceBytes(Piece::Reset, true),
{
    format!("{}", termion::style::Reset).into_bytes()
}

/// The escape sequence of `termion::color::Fg` of `termion::color::Reset`,
/// as its `Display` writes it: the contract claims the bytes `ESC [ 3 9 m`.
#[verifier::external_body]
fn foregroundResetCode() -> (r: Vec<u8>)
    ensures
        r@ == pieceBytes(Piece::ForegroundReset, true),
{
    format!("{}", termion::color::Fg(termion::color::Reset)).into_bytes()
}

/// The escape sequence of `termion::color::Bg` of `termion::color::Reset`,
/// as its `Display` writes it: the contract claims the bytes `ESC [ 4 9 m`.
#[verifier::external_body]
fn backgroundResetCode() -> (r: Vec<u8>)
    ensures
        r@ == pieceBytes(Piece::BackgroundReset, true),
{
    format!("{}", termion::color::Bg(termion::color::Reset)).into_bytes()
}

/// What the `Display` of `termion::color::Fg` of a `termion::color::Rgb`
/// writes. With the variable `NO_COLOR` set in the environment it writes
/// nothing, else `ESC [ 3 8 ; 2 ;` and the three numbers in decimal, with `;`
/// between them and `m` behind them; the contract claims that it is one of the
/// two.
#[verifier::external_body]
fn foregroundCode(r: u8, g: u8, b: u8) -> (code: Vec<u8>)
    ensures
        code@ == pieceBytes(Piece::Foreground(r, g, b), true) || code@ == pieceBytes(
            Piece::Foreground(r, g, b),
            false,
        ),
{
    format!("{}", termion::color::Fg(termion::color::Rgb(r, g, b))).into_bytes()
}

/// What the `Display` of `termion::color::Bg` of a `termion::color::Rgb`
/// writes. With the variable `NO_COLOR` set in the environment it writes
/// nothing, else `ESC [ 4 8 ; 2 ;` and the three numbers in decimal, with `;`
/// between them and `m` behind them; the contract claims that it is one of the
/// two.
#[verifier::external_body]
fn backgroundCode(r: u8, g: u8, b: u8) -> (code: Vec<u8>)
    ensures
        code@ == pieceBytes(Piece::Background(r, g, b), true) || code@ == pieceBytes(
            Piece::Background(r, g, b),
            false,
        ),
{
    format!("{}", termion::color::Bg(termion::color::Rgb(r, g, b))).into_bytes()
}

/// The value of a hexadecimal digit.
fn hexDigit(c: u8) -> (r: Option<u8>)
    ensures
        r == hexValue(c),
{
    if 48 <= c && c <= 57 {
        Some(c - 48)
    } else if 97 <= c && c <= 102 {
        Some(c - 87)
    } else if 65 <= c && c <= 70 {
        Some(c - 55)
    } else {
        None
    }
}

/// The number that two hexadecimal digits stand for.
fn hexByte(a: u8, b: u8) -> (r: Option<u8>)
    ensures
        r == hexPair(a, b),
{
    match (hexDigit(a), hexDigit(b)) {
        (Some(x), Some(y)) => Some(x * 16 + y),
        _ => None,
    }
}

/// Reads a colour from six hexadecimal digits.
pub fn hexToTermionColor(hex: &[u8]) -> (r: Option<(u8, u8, u8)>)
    ensures
        r == hexColor(hex@),
{
    if hex.len() != 6 {
        return None;
    }
    match (hexByte(hex[0], hex[1]), hexByte(hex[2], hex[3]), hexByte(hex[4], hex[5])) {
        (Some(r), Some(g), Some(b)) => Some((r, g, b)),
        _ => None,
    }
}

/// Reads the colour of the mark at position `i` and gives it with the
/// position behind the mark.
fn readColor(text: &[u8], i: usize) -> (r: ((u8, u8, u8), usize))
    requires
        i < text@.len(),
    ensures
        r.0 == markColor(text@, i as int),
        r.1 == markEnd(text@, i as int),
        i < r.1 <= text@.len(),
{
    let length: usize = text.len();
    let start: usize = if length - i >= 5 {
        i + 5
    } else {
        length
    };
    let mut end: usize = start;
    let mut hex: Vec<u8> = Vec::new();
    assert(hex@ =~= text@.subrange(start as int, end as int));
    while end < length && text[end] != 41
        invariant
            start <= end <= length == text@.len(),
            hex@ == text@.subrange(start as int, end as int),
            colorEnd(text@, end as int) == colorEnd(text@, start as int),
        decreases length - end,
    {
        hex.push(text[end]);
        end += 1;
        assert(hex@ =~= text@.subrange(start as int, end as int));
    }
    let color = match hexToTermionColor(hex.as_slice()) {
        Some(c) => c,
        None => (0u8, 0u8, 0u8),
    };
    if end < length {
        (color, end + 1)
    } else {
        (color, end)
    }
}

/// Reads a marked-up text into its pieces.
pub fn formatPieces(string: &[u8]) -> (r: Vec<Piece>)
    ensures
        r@ == pieces(string@, 0),
{
    let length: usize = string.len();
    let mut out: Vec<Piece> = Vec::new();
    let mut i: usize = 0;
    assert(out@ + pieces(string@, 0) =~= pieces(string@, 0));
    while i < length
        invariant
            i <= length == string@.len(),
            out@ + pieces(string@, i as int) == pieces(string@, 0),
        decreases length - i,
    {
        let ghost before = out@;
        let ghost at = i as int;
        if string[i] == 92 && length - i > 1 && (i == 0 || string[i - 1] != 92) {
            let n: u8 = string[i + 1];
            let third: bool = length - i > 2;
            let fourth: bool = length - i > 3;
            if n == 110 {
                out.push(Piece::Byte(10));
                i += 2;
            } else if n == 98 {
                if third && string[i + 2] == 103 {
                    let found = readColor(string, i);
                    out.push(Piece::Background(found.0.0, found.0.1, found.0.2));
                    i = found.1;
                } else {
                    out.push(Piece::Bold);
                    i += 2;
                }
            } else if n == 102 {
                if third && string[i + 2] == 103 {
                    let found = readColor(string, i);
                    out.push(Piece::Foreground(found.0.0, found.0.1, found.0.2));
                    i = found.1;
                } else {
                    i += 1;
                }
            } else if n == 99 {
                if third && string[i + 2] == 98 {
                    if fourth && string[i + 3] == 103 {
                        out.push(Piece::BackgroundReset);
                        i += 4;
                    } else {
                        out.push(Piece::NoBold);
                        i += 3;
                    }
                } else if third && string[i + 2] == 102 {
                    if fourth && string[i + 3] == 103 {
                        out.push(Piece::ForegroundReset);
                        i += 4;
                    } else {
                        i += 1;
                    }
                } else {
                    out.push(Piece::Reset);
                    i += 2;
                }
            } else {
                out.push(Piece::Byte(92));
                i += 1;
            }
        } else {
            out.push(Piece::Byte(string[i]));
            i += 1;
        }
        assert(out@ + pieces(string@, i as int) =~= before + pieces(string@, at));
    }
    assert(out@ + Seq::<Piece>::empty() =~= out@);
    out
}

/// Renders styled text into bytes for a terminal.
pub fn renderPieces(all: &Vec<Piece>) -> (out: Vec<u8>)
    ensures
        shows(all@, out@),
{
    let mut out: Vec<u8> = Vec::new();
    let ghost mut shown: Seq<bool> = Seq::empty();
    let mut i: usize = 0;
    while i < all.len()
        invariant
            i <= all.len(),
            shown.len() == i,
            out@ == renderedTo(all@, shown, i as int),
        decreases all.len() - i,
    {
        let ghost before = out@;
        let ghost seen = shown;
        let mut code: Vec<u8> = match all[i] {
            Piece::Byte(c) => {
                let mut one: Vec<u8> = Vec::new();
                one.push(c);
                assert(one@ =~= seq![c]);
                one
            },
            Piece::Bold => boldCode(),
            Piece::NoBold => noBoldCode(),
            Piece::Reset => resetCode(),
            Piece::ForegroundReset => foregroundResetCode(),
            Piece::BackgroundReset => backgroundResetCode(),
            Piece::Foreground(r, g, b) => foregroundCode(r, g, b),
            Piece::Background(r, g, b) => backgroundCode(r, g, b),
        };
        proof {
            let how: bool = code@ == pieceBytes(all@[i as int], true);
            shown = seen.push(how);
            lemma_renderedTo_prefix(all@, seen, how, i as int);
            assert(code@ == pieceBytes(all@[i as int], how));
        }
        out.append(&mut code);
        i += 1;
    }
    out
}

/// Formats a marked-up text for a terminal: reads it into its pieces and
/// renders them.
pub fn formatString(string: &[u8]) -> (out: Vec<u8>)
    ensures
        shows(pieces(string@, 0), out@),
{
    renderPieces(&formatPieces(string))
}

/// Adds a text at the end of a byte string.
pub fn appendText(out: &mut Vec<u8>, text: &str)
    ensures
        final(out)@ == old(out)@ + text.spec_bytes(),
{
    let mut bytes = text.as_bytes_vec();
    out.append(&mut bytes);
}

/// Adds bytes at the end of a byte string.
pub fn appendBytes(out: &mut Vec<u8>, bytes: &[u8])
    ensures
        final(out)@ == old(out)@ + bytes@,
{
    let mut i: usize = 0;
    assert(out@ =~= old(out)@ + bytes@.take(0));
    while i < bytes.len()
        invariant
            i <= bytes.len(),
            out@ == old(out)@ + bytes@.take(i as int),
        decreases bytes.len() - i,
    {
        out.push(bytes[i]);
        i += 1;
        assert(out@ =~= old(out)@ + bytes@.take(i as int));
    }
    assert(bytes@.take(bytes.len() as int) =~= bytes@);
}

/// The number of bytes of white space at the start of a text.
pub open spec fn leadingSpace(text: Seq<u8>, i: int) -> int
    decreases text.len() - i,
{
    if 0 <= i < text.len() && whitespace(text[i]) {
        leadingSpace(text, i + 1)
    } else {
        i
    }
}

/// Divides a text behind the white space at its start.
pub fn divideWhitespace(input: &[u8]) -> (r: (Vec<u8>, Vec<u8>))
    ensures
        0 <= leadingSpace(input@, 0) <= input@.len(),
        r.0@ == input@.take(leadingSpace(input@, 0)),
        r.1@ == input@.skip(leadingSpace(input@, 0)),
{
    let mut i: usize = 0;
    let mut head: Vec<u8> = Vec::new();
    assert(head@ =~= input@.take(0));
    while i < input.len() && (input[i] == 32 || (9 <= input[i] && input[i] <= 13))
        invariant
            i <= input.len(),
            head@ == input@.take(i as int),
            leadingSpace(input@, i as int) == leadingSpace(input@, 0),
        decreases input.len() - i,
    {
        head.push(input[i]);
        i += 1;
        assert(head@ =~= input@.take(i as int));
    }
    let mut tail: Vec<u8> = Vec::new();
    let mut k: usize = i;
    assert(tail@ =~= input@.subrange(i as int, k as int));
    while k < input.len()
        invariant
            i <= k <= input.len(),
            tail@ == input@.subrange(i as int, k as int),
        decreases input.len() - k,
    {
        tail.push(input[k]);
        k += 1;
        assert(tail@ =~= input@.subrange(i as int, k as int));
    }
    assert(input@.subrange(i as int, input.len() as int) =~= input@.skip(i as int));
    (head, tail)
}

/// The markup of a separator line of the log.
pub open spec fn separatorMarkup(text: Seq<u8>) -> Seq<u8> {
    " \\fg(#55af96)\\bx \\fg(#0095B6)".spec_bytes() + text + "\\c\n".spec_bytes()
}

/// A separator line of the log, rendered for a terminal.
pub fn logSeparator(text: &[u8]) -> (out: Vec<u8>)
    ensures
        shows(pieces(separatorMarkup(text@), 0), out@),
{
    let mut markup: Vec<u8> = Vec::new();
    appendText(&mut markup, " \\fg(#55af96)\\bx \\fg(#0095B6)");
    appendBytes(&mut markup, text);
    appendText(&mut markup, "\\c\n");
    assert(markup@ =~= separatorMarkup(text@));
    formatString(markup.as_slice())
}

/// The parts of a text between the occurrences of a separator, from
/// position `i` on. `current` is the part being gathered, `done` the finished
/// parts.
pub open spec fn splitOn(
    text: Seq<u8>,
    separator: Seq<u8>,
    i: int,
    current: Seq<u8>,
    done: Seq<Seq<u8>>,
) -> Seq<Seq<u8>>
    decreases text.len() - i,
{
    if i < 0 || i >= text.len() {
        done.push(current)
    } else if separator.len() > 0 && i + separator.len() <= text.len() && text.subrange(
        i,
        i + separator.len(),
    ) == separator {
        splitOn(text, separator, i + separator.len(), Seq::empty(), done.push(current))
    } else {
        splitOn(text, separator, i + 1, current.push(text[i]), done)
    }
}

/// The values of a sequence of texts, one by one.
pub open spec fn partsView(parts: Seq<Vec<u8>>) -> Seq<Seq<u8>> {
    Seq::new(parts.len(), |i: int| parts[i]@)
}

/// Whether the separator stands at position `i` of the text.
fn standsAt(text: &[u8], separator: &[u8], i: usize) -> (r: bool)
    requires
        i < text@.len(),
    ensures
        r == (separator@.len() > 0 && i + separator@.len() <= text@.len() && text@.subrange(
            i as int,
            i + separator@.len(),
        ) == separator@),
{
    let n: usize = separator.len();
    if n == 0 || text.len() - i < n {
        return false;
    }
    let mut k: usize = 0;
    while k < n
        invariant
            k <= n == separator@.len(),
            i + n <= text@.len() <= usize::MAX,
            text@.subrange(i as int, i + k) == separator@.take(k as int),
        decreases n - k,
    {
        if text[i + k] != separator[k] {
            assert(text@.subrange(i as int, i + n)[k as int] != separator@[k as int]);
            return false;
        }
        k += 1;
        assert(text@.subrange(i as int, i + k) =~= text@.subrange(i as int, i + k - 1).push(
            text@[i + k - 1],
        ));
        assert(separator@.take(k as int) =~= separator@.take(k - 1).push(separator@[k - 1]));
    }
    assert(separator@.take(n as int) =~= separator@);
    true
}

/// Splits a text at each occurrence of a separator.
pub fn splitBytes(text: &[u8], separator: &[u8]) -> (parts: Vec<Vec<u8>>)
    ensures
        partsView(parts@) == splitOn(text@, separator@, 0, Seq::empty(), Seq::empty()),
        parts@.len() >= 1,
{
    let mut parts: Vec<Vec<u8>> = Vec::new();
    let mut current: Vec<u8> = Vec::new();
    let mut i: usize = 0;
    assert(partsView(parts@) =~= Seq::empty());
    while i < text.len()
        invariant
            i <= text.len(),
            splitOn(text@, separator@, i as int, current@, partsView(parts@)) == splitOn(
                text@,
                separator@,
                0,
                Seq::empty(),
                Seq::empty(),
            ),
        decreases text.len() - i,
    {
        if standsAt(text, separator, i) {
            let mut part: Vec<u8> = Vec::new();
            std::mem::swap(&mut part, &mut current);
            let ghost before = partsView(parts@);
            parts.push(part);
            assert(partsView(parts@) =~= before.push(part@));
            assert(current@ =~= Seq::empty());
            i += separator.len();
        } else {
            current.push(text[i]);
            i += 1;
        }
    }
    let ghost before = partsView(parts@);
    parts.push(current);
    assert(partsView(parts@) =~= before.push(current@));
    parts
}

/// A text between two fixed texts.
pub fn between(head: &str, text: &[u8], tail: &str) -> (r: Vec<u8>)
    ensures
        r@ == head.spec_bytes() + text@ + tail.spec_bytes(),
{
    let mut r: Vec<u8> = Vec::new();
    appendText(&mut r, head);
    appendBytes(&mut r, text);
    appendText(&mut r, tail);
    assert(r@ =~= head.spec_bytes() + text@ + tail.spec_bytes());
    r
}

/// The pieces of a text that holds no markup: its bytes.
pub open spec fn plainPieces(text: Seq<u8>) -> Seq<Piece> {
    Seq::new(text.len(), |i: int| Piece::Byte(text[i]))
}

/// The pieces of the parts from part `k` on, each with the given markup
/// before and behind it.
pub open spec fn wrappedParts(parts: Seq<Seq<u8>>, k: int, head: Seq<u8>, tail: Seq<u8>) -> Seq<Piece>
    decreases parts.len() - k,
{
    if k < 0 || k >= parts.len() {
        Seq::empty()
    } else {
        pieces(head + parts[k] + tail, 0) + wrappedParts(parts, k + 1, head, tail)
    }
}

/// The pieces of the parts from part `k` on, each behind the pieces of the
/// given markup.
pub open spec fn joinedParts(parts: Seq<Seq<u8>>, k: int, mark: Seq<u8>) -> Seq<Piece>
    decreases parts.len() - k,
{
    if k < 0 || k >= parts.len() {
        Seq::empty()
    } else {
        pieces(mark, 0) + pieces(parts[k], 0) + joinedParts(parts, k + 1, mark)
    }
}

/// The bytes of the parts from part `k` on, as pieces.
pub open spec fn plainParts(parts: Seq<Seq<u8>>, k: int) -> Seq<Piece>
    decreases parts.len() - k,
{
    if k < 0 || k >= parts.len() {
        Seq::empty()
    } else {
        plainPieces(parts[k]) + plainParts(parts, k + 1)
    }
}

/// The pieces of a line of the log, by its kind.
///
/// `syntax` is the word that opens a syntax error. `parserBegin` and
/// `parserInfo` colour the text behind its indentation. `parserToken` shows
/// the text up to the first `|` as it is and each further part in grey.
/// `ok`, `err`, `warn`, `warn-input` and `note` put their sign before the
/// text; an `ok` text that begins with `+` or `x` opens or closes a group.
/// `path` shows the parts between `->` with arrows between them. `line`
/// shows the text up to the first `|` as a margin and the rest as it is. Any
/// other kind shows the text in the colour of the log.
pub open spec fn logPieces(kind: Seq<u8>, text: Seq<u8>) -> Seq<Piece> {
    if kind == "syntax".spec_bytes() {
        pieces("\\fg(#e91a34)\\bSyntax \\c".spec_bytes(), 0)
    } else if kind == "parserBegin".spec_bytes() {
        pieces(
            text.take(leadingSpace(text, 0)) + "\\bg(#29352f)\\fg(#b5df90)\\b".spec_bytes()
                + text.skip(leadingSpace(text, 0)) + "\\c\n".spec_bytes(),
            0,
        )
    } else if kind == "parserInfo".spec_bytes() {
        pieces(
            text.take(leadingSpace(text, 0)) + "\\bg(#29352f)\\fg(#d9d9d9)\\b".spec_bytes()
                + text.skip(leadingSpace(text, 0)) + "\\c\n".spec_bytes(),
            0,
        )
    } else if kind == "parserToken".spec_bytes() {
        let parts = splitOn(text, "|".spec_bytes(), 0, Seq::empty(), Seq::empty());
        pieces(parts[0], 0) + wrappedParts(
            parts,
            1,
            "\\b\\fg(#d9d9d9)".spec_bytes(),
            "\\c".spec_bytes(),
        ) + seq![Piece::Byte(10)]
    } else if kind == "ok".spec_bytes() {
        if text.len() > 0 && text[0] == 43 {
            pieces(
                "   \\fg(#1ae96b)\\bO\\cfg \\fg(#f0f8ff)┳\\cb\\cfg \\fg(#f0f8ff)\\b".spec_bytes()
                    + text.skip(1) + "\\c\n".spec_bytes(),
                0,
            )
        } else if text.len() > 0 && text[0] == 120 {
            pieces(
                "   \\fg(#1ae96b)\\bX\\cfg \\fg(#f0f8ff)┻\\cb\\cfg \\fg(#f0f8ff)\\b".spec_bytes()
                    + text.skip(1) + "\\c\n".spec_bytes(),
                0,
            )
        } else {
            pieces(
                "   \\fg(#1ae96b)\\b+\\cb\\cfg \\fg(#f0f8ff)\\b".spec_bytes() + text
                    + "\\c\n".spec_bytes(),
                0,
            )
        }
    } else if kind == "err".spec_bytes() {
        pieces(
            "   \\fg(#e91a34)\\b-\\cb\\cfg \\fg(#f0f8ff)\\b".spec_bytes() + text
                + "\\c\n".spec_bytes(),
            0,
        )
    } else if kind == "warn".spec_bytes() {
        pieces(
            "   \\fg(#e98e1a)\\b?\\cb\\cfg \\fg(#f0f8ff)\\b".spec_bytes() + text
                + "\\c\n".spec_bytes(),
            0,
        )
    } else if kind == "warn-input".spec_bytes() {
        pieces(
            "   \\fg(#e98e1a)\\b?\\cb\\cfg \\fg(#f0f8ff)\\b".spec_bytes() + text
                + "\\c".spec_bytes(),
            0,
        )
    } else if kind == "note".spec_bytes() {
        pieces(
            "  \\fg(#f0f8ff)\\bNote:\\c \\fg(#f0f8ff)".spec_bytes() + text + "\\c\n".spec_bytes(),
            0,
        )
    } else if kind == "path".spec_bytes() {
        let parts = splitOn(text, "->".spec_bytes(), 0, Seq::empty(), Seq::empty());
        pieces("\\fg(#f0f8ff)\\b->\\c \\fg(#f0f8ff)".spec_bytes(), 0) + pieces(parts[0], 0)
            + joinedParts(parts, 1, "\\fg(#f0f8ff)\\b->\\c".spec_bytes()) + pieces(
            "\\c\n".spec_bytes(),
            0,
        )
    } else if kind == "line".spec_bytes() {
        let parts = splitOn(text, "|".spec_bytes(), 0, Seq::empty(), Seq::empty());
        pieces("  \\fg(#f0f8ff)\\b".spec_bytes() + parts[0] + " | \\c".spec_bytes(), 0)
            + plainParts(parts, 1) + seq![Piece::Byte(10)]
    } else {
        pieces("\\fg(#f0f8ff)".spec_bytes() + text + "\\c\n".spec_bytes(), 0)
    }
}

/// The pieces of a markup made of a text between two fixed texts.
fn markupPieces(head: &str, text: &[u8], tail: &str) -> (r: Vec<Piece>)
    ensures
        r@ == pieces(head.spec_bytes() + text@ + tail.spec_bytes(), 0),
{
    formatPieces(between(head, text, tail).as_slice())
}

/// The pieces of the parts from part 1 on, each between two fixed texts.
fn wrapParts(parts: &Vec<Vec<u8>>, head: &str, tail: &str) -> (r: Vec<Piece>)
    ensures
        r@ == wrappedParts(partsView(parts@), 1, head.spec_bytes(), tail.spec_bytes()),
{
    let ghost all = partsView(parts@);
    let mut out: Vec<Piece> = Vec::new();
    let mut k: usize = 1;
    assert(out@ + wrappedParts(all, 1, head.spec_bytes(), tail.spec_bytes()) =~= wrappedParts(
        all,
        1,
        head.spec_bytes(),
        tail.spec_bytes(),
    ));
    while k < parts.len()
        invariant
            1 <= k,
            all == partsView(parts@),
            out@ + wrappedParts(all, k as int, head.spec_bytes(), tail.spec_bytes())
                == wrappedParts(all, 1, head.spec_bytes(), tail.spec_bytes()),
        decreases parts.len() - k,
    {
        let ghost before = out@;
        let mut more = markupPieces(head, parts[k].as_slice(), tail);
        out.append(&mut more);
        k += 1;
        assert(out@ + wrappedParts(all, k as int, head.spec_bytes(), tail.spec_bytes()) =~= before
            + wrappedParts(all, k - 1, head.spec_bytes(), tail.spec_bytes()));
    }
    assert(out@ + Seq::<Piece>::empty() =~= out@);
    out
}

/// The bytes of the parts from part 1 on, as pieces.
fn plainFrom(parts: &Vec<Vec<u8>>) -> (r: Vec<Piece>)
    ensures
        r@ == plainParts(partsView(parts@), 1),
{
    let ghost all = partsView(parts@);
    let mut out: Vec<Piece> = Vec::new();
    let mut k: usize = 1;
    assert(out@ + plainParts(all, 1) =~= plainParts(all, 1));
    while k < parts.len()
        invariant
            1 <= k,
            all == partsView(parts@),
            out@ + plainParts(all, k as int) == plainParts(all, 1),
        decreases parts.len() - k,
    {
        let ghost before = out@;
        let mut i: usize = 0;
        let width: usize = parts[k].len();
        assert(out@ =~= before + plainPieces(parts@[k as int]@).take(0));
        while i < width
            invariant
                k < parts.len(),
                i <= width == parts@[k as int]@.len(),
                out@ == before + plainPieces(parts@[k as int]@).take(i as int),
            decreases width - i,
        {
            out.push(Piece::Byte(parts[k][i]));
            i += 1;
            assert(out@ =~= before + plainPieces(parts@[k as int]@).take(i as int));
        }
        assert(plainPieces(parts@[k as int]@).take(width as int) =~= plainPieces(
            parts@[k as int]@,
        ));
        k += 1;
        assert(out@ + plainParts(all, k as int) =~= before + plainParts(all, k - 1));
    }
    assert(out@ + Seq::<Piece>::empty() =~= out@);
    out
}

/// The bytes of a text from position 1 on.
fn behindFirst(text: &[u8]) -> (r: Vec<u8>)
    requires
        text@.len() > 0,
    ensures
        r@ == text@.skip(1),
{
    let mut r: Vec<u8> = Vec::new();
    let mut i: usize = 1;
    assert(r@ =~= text@.subrange(1, 1));
    while i < text.len()
        invariant
            1 <= i <= text.len(),
            r@ == text@.subrange(1, i as int),
        decreases text.len() - i,
    {
        r.push(text[i]);
        i += 1;
        assert(r@ =~= text@.subrange(1, i as int));
    }
    assert(text@.subrange(1, text.len() as int) =~= text@.skip(1));
    r
}

/// The styled pieces of a line of the log.
pub fn logLine(textType: &str, text: &[u8]) -> (r: Vec<Piece>)
    ensures
        r@ == logPieces(textType.spec_bytes(), text@),
{
    let kind = textType.as_bytes_vec();
    if sameText(&kind, "syntax") {
        formatPieces("\\fg(#e91a34)\\bSyntax \\c".as_bytes_vec().as_slice())
    } else if sameText(&kind, "parserBegin") {
        let parts = divideWhitespace(text);
        let mut markup = parts.0;
        appendText(&mut markup, "\\bg(#29352f)\\fg(#b5df90)\\b");
        appendBytes(&mut markup, parts.1.as_slice());
        appendText(&mut markup, "\\c\n");
        formatPieces(markup.as_slice())
    } else if sameText(&kind, "parserInfo") {
        let parts = divideWhitespace(text);
        let mut markup = parts.0;
        appendText(&mut markup, "\\bg(#29352f)\\fg(#d9d9d9)\\b");
        appendBytes(&mut markup, parts.1.as_slice());
        appendText(&mut markup, "\\c\n");
        formatPieces(markup.as_slice())
    } else if sameText(&kind, "parserToken") {
        let bar = "|".as_bytes_vec();
        let parts = splitBytes(text, bar.as_slice());
        let mut out = formatPieces(parts[0].as_slice());
        let mut more = wrapParts(&parts, "\\b\\fg(#d9d9d9)", "\\c");
        out.append(&mut more);
        out.push(Piece::Byte(10));
        out
    } else if sameText(&kind, "ok") {
        if text.len() > 0 && text[0] == 43 {
            markupPieces(
                "   \\fg(#1ae96b)\\bO\\cfg \\fg(#f0f8ff)┳\\cb\\cfg \\fg(#f0f8ff)\\b",
                behindFirst(text).as_slice(),
                "\\c\n",
            )
        } else if text.len() > 0 && text[0] == 120 {
            markupPieces(
                "   \\fg(#1ae96b)\\bX\\cfg \\fg(#f0f8ff)┻\\cb\\cfg \\fg(#f0f8ff)\\b",
                behindFirst(text).as_slice(),
                "\\c\n",
            )
        } else {
            markupPieces("   \\fg(#1ae96b)\\b+\\cb\\cfg \\fg(#f0f8ff)\\b", text, "\\c\n")
        }
    } else if sameText(&kind, "err") {
        markupPieces("   \\fg(#e91a34)\\b-\\cb\\cfg \\fg(#f0f8ff)\\b", text, "\\c\n")
    } else if sameText(&kind, "warn") {
        markupPieces("   \\fg(#e98e1a)\\b?\\cb\\cfg \\fg(#f0f8ff)\\b", text, "\\c\n")
    } else if sameText(&kind, "warn-input") {
        markupPieces("   \\fg(#e98e1a)\\b?\\cb\\cfg \\fg(#f0f8ff)\\b", text, "\\c")
    } else if sameText(&kind, "note") {
        markupPieces("  \\fg(#f0f8ff)\\bNote:\\c \\fg(#f0f8ff)", text, "\\c\n")
    } else if sameText(&kind, "path") {
        let arrow = "->".as_bytes_vec();
        let parts = splitBytes(text, arrow.as_slice());
        let mut out = formatPieces(
            "\\fg(#f0f8ff)\\b->\\c \\fg(#f0f8ff)".as_bytes_vec().as_slice(),
        );
        let mut first = formatPieces(parts[0].as_slice());
        out.append(&mut first);
        let mut more = joinParts(&parts, "\\fg(#f0f8ff)\\b->\\c");
        out.append(&mut more);
        let mut tail = formatPieces("\\c\n".as_bytes_vec().as_slice());
        out.append(&mut tail);
        out
    } else if sameText(&kind, "line") {
        let bar = "|".as_bytes_vec();
        let parts = splitBytes(text, bar.as_slice());
        let mut out = markupPieces("  \\fg(#f0f8ff)\\b", parts[0].as_slice(), " | \\c");
        let mut more = plainFrom(&parts);
        out.append(&mut more);
        out.push(Piece::Byte(10));
        out
    } else {
        markupPieces("\\fg(#f0f8ff)", text, "\\c\n")
    }
}

/// The pieces of the parts from part 1 on, each behind the pieces of a
/// fixed markup.
fn joinParts(parts: &Vec<Vec<u8>>, mark: &str) -> (r: Vec<Piece>)
    ensures
        r@ == joinedParts(partsView(parts@), 1, mark.spec_bytes()),
{
    let ghost all = partsView(parts@);
    let mut out: Vec<Piece> = Vec::new();
    let mut k: usize = 1;
    assert(out@ + joinedParts(all, 1, mark.spec_bytes()) =~= joinedParts(
        all,
        1,
        mark.spec_bytes(),
    ));
    while k < parts.len()
        invariant
            1 <= k,
            all == partsView(parts@),
            out@ + joinedParts(all, k as int, mark.spec_bytes()) == joinedParts(
                all,
                1,
                mark.spec_bytes(),
            ),
        decreases parts.len() - k,
    {
        let ghost before = out@;
        let mut between = formatPieces(mark.as_bytes_vec().as_slice());
        out.append(&mut between);
        let mut more = formatPieces(parts[k].as_slice());
        out.append(&mut more);
        k += 1;
        assert(out@ + joinedParts(all, k as int, mark.spec_bytes()) =~= before + joinedParts(
            all,
            k - 1,
            mark.spec_bytes(),
        ));
    }
    assert(out@ + Seq::<Piece>::empty() =~= out@);
    out
}

/// A line of the log, rendered for a terminal.
pub fn log(textType: &str, text: &[u8]) -> (out: Vec<u8>)
    ensures
        shows(logPieces(textType.spec_bytes(), text@), out@),
{
    renderPieces(&logLine(textType, text))
}

/// The words of a text, from position `i` on: the runs of bytes between
/// white space. `current` is the word being gathered, `done` the finished
/// words.
pub open spec fn wordsOf(text: Seq<u8>, i: int, current: Seq<u8>, done: Seq<Seq<u8>>) -> Seq<
    Seq<u8>,
>
    decreases text.len() - i,
{
    if i < 0 || i >= text.len() {
        if current.len() > 0 {
            done.push(current)
        } else {
            done
        }
    } else if whitespace(text[i]) {
        if current.len() > 0 {
            wordsOf(text, i + 1, Seq::empty(), done.push(current))
        } else {
            wordsOf(text, i + 1, Seq::empty(), done)
        }
    } else {
        wordsOf(text, i + 1, current.push(text[i]), done)
    }
}

/// Splits a command line into its words: the program and its arguments.
pub fn commandWords(command: &[u8]) -> (words: Vec<Vec<u8>>)
    ensures
        partsView(words@) == wordsOf(command@, 0, Seq::empty(), Seq::empty()),
{
    let mut words: Vec<Vec<u8>> = Vec::new();
    let mut current: Vec<u8> = Vec::new();
    let mut i: usize = 0;
    assert(partsView(words@) =~= Seq::empty());
    while i < command.len()
        invariant
            i <= command.len(),
            wordsOf(command@, i as int, current@, partsView(words@)) == wordsOf(
                command@,
                0,
                Seq::empty(),
                Seq::empty(),
            ),
        decreases command.len() - i,
    {
        let c: u8 = command[i];
        if c == 32 || (9 <= c && c <= 13) {
            if current.len() > 0 {
                let mut word: Vec<u8> = Vec::new();
                std::mem::swap(&mut word, &mut current);
                let ghost before = partsView(words@);
                words.push(word);
                assert(partsView(words@) =~= before.push(word@));
            }
            assert(current@ =~= Seq::empty());
        } else {
            current.push(c);
        }
        i += 1;
    }
    if current.len() > 0 {
        let ghost before = partsView(words@);
        words.push(current);
        assert(partsView(words@) =~= before.push(current@));
    }
    words
}

} // verus!
