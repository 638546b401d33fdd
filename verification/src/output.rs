//! The dump of a tree of lines and tokens as lines of the diagnostic log.
use vstd::prelude::*;
use vstd::string::*;
use crate::token::{Token, TokenType, TokenView, tokensView, lemma_nested_view};
use crate::line::{Line, LineView, linesView, lemma_nested_lines};
use crate::logger::{
    Piece, pieces, logPieces, shows, appendText, appendBytes, formatPieces, logLine, renderPieces,
};
use crate::semantics::kindName;
use crate::rewrite::typeName;
use crate::value::{decimalText, decimalBytes};

verus! {

/// A run of `n` spaces.
pub open spec fn spaces(n: nat) -> Seq<u8> {
    Seq::new(n, |i: int| 32u8)
}

/// The mark that stands before a token in the dump: `X` before the last
/// token of its sequence, a bar before any other.
pub open spec fn tokenMark(last: bool) -> Seq<u8> {
    if last {
        "X".spec_bytes()
    } else {
        "┃".spec_bytes()
    }
}

/// The markup that opens the payload of a token in the dump: the quote of
/// its kind, for a kind of text.
pub open spec fn quoteOpen(kind: TokenType) -> Seq<u8> {
    match kind {
        TokenType::Char | TokenType::FormattedChar => "\\fg(#f0f8ff)\\b'\\c".spec_bytes(),
        TokenType::String | TokenType::FormattedString => "\\fg(#f0f8ff)\\b\"\\c".spec_bytes(),
        TokenType::RawString | TokenType::FormattedRawString => "\\fg(#f0f8ff)\\b`\\c".spec_bytes(),
        _ => Seq::empty(),
    }
}

/// The markup that closes the payload of a token in the dump.
pub open spec fn quoteClose(kind: TokenType) -> Seq<u8> {
    match kind {
        TokenType::Char | TokenType::FormattedChar => "\\c\\fg(#f0f8ff)\\b'\\c".spec_bytes(),
        TokenType::String | TokenType::FormattedString => "\\c\\fg(#f0f8ff)\\b\"\\c".spec_bytes(),
        TokenType::RawString | TokenType::FormattedRawString => "\\c\\fg(#f0f8ff)\\b`\\c".spec_bytes(),
        _ => Seq::empty(),
    }
}

/// The start of the line of a token in the dump: the margin of its line, its
/// mark in bold and the margin of its nesting.
pub open spec fn tokenStart(last: bool, margin: Seq<u8>, inner: Seq<u8>) -> Seq<u8> {
    margin + "\\b".spec_bytes() + tokenMark(last) + "\\c".spec_bytes() + inner
}

/// The line of one token in the dump: a token with a payload shows it, in
/// the quotes of its kind, and the name of its kind behind it in grey; a token
/// without payload shows the name of its kind.
pub open spec fn tokenLine(token: TokenView, last: bool, margin: Seq<u8>, inner: Seq<u8>) -> Seq<
    Piece,
> {
    match token.data {
        Some(data) => logPieces(
            "parserToken".spec_bytes(),
            tokenStart(last, margin, inner) + quoteOpen(token.dataType) + data + quoteClose(
                token.dataType,
            ) + "  |".spec_bytes() + kindName(token.dataType),
        ),
        None => pieces(
            tokenStart(last, margin, inner) + kindName(token.dataType) + "\n".spec_bytes(),
            0,
        ),
    }
}

/// The dump of a sequence of tokens from position `i` on: the line of each
/// token, followed by the dump of its nested tokens, two spaces deeper.
pub open spec fn tokensDump(tokens: Seq<TokenView>, i: int, margin: Seq<u8>, inner: Seq<u8>) -> Seq<
    Piece,
>
    decreases tokens, tokens.len() - i,
{
    if i < 0 || i >= tokens.len() {
        Seq::empty()
    } else {
        tokenLine(tokens[i], i == tokens.len() - 1, margin, inner) + tokensDump(
            tokens[i].tokens,
            0,
            margin,
            inner + "  ".spec_bytes(),
        ) + tokensDump(tokens, i + 1, margin, inner)
    }
}

/// The head of a line in the dump: its number behind its margin.
pub open spec fn lineHead(i: int, margin: Seq<u8>) -> Seq<Piece> {
    logPieces("parserBegin".spec_bytes(), margin + " ".spec_bytes() + decimalText(i as nat))
}

/// The dump of a sequence of lines from position `i` on: the number of each
/// line; then that it is a separator, or its tokens; then, where it has
/// nested lines, their dump, two spaces deeper.
pub open spec fn linesDump(lines: Seq<LineView>, i: int, margin: Seq<u8>) -> Seq<Piece>
    decreases lines, lines.len() - i,
{
    if i < 0 || i >= lines.len() {
        Seq::empty()
    } else {
        lineDump(lines[i], i, margin) + linesDump(lines, i + 1, margin)
    }
}

/// A run of `n` spaces and, after them, `more` further spaces.
fn indentation(n: usize, twice: bool, more: usize) -> (r: Vec<u8>)
    ensures
        r@ == spaces((if twice { n * 2 } else { n as int } + more) as nat),
{
    let mut r: Vec<u8> = Vec::new();
    let mut k: usize = 0;
    assert(r@ =~= spaces(0));
    while k < n
        invariant
            k <= n,
            r@ == spaces((if twice { k * 2 } else { k as int }) as nat),
        decreases n - k,
    {
        r.push(32);
        if twice {
            r.push(32);
        }
        k += 1;
        assert(r@ =~= spaces((if twice { k * 2 } else { k as int }) as nat));
    }
    let ghost width = if twice { n * 2 } else { n as int };
    let mut j: usize = 0;
    while j < more
        invariant
            j <= more,
            width == if twice { n * 2 } else { n as int },
            r@ == spaces((width + j) as nat),
        decreases more - j,
    {
        r.push(32);
        j += 1;
        assert(r@ =~= spaces((width + j) as nat));
    }
    r
}

/// A text with a fixed text behind it.
fn followed(text: &Vec<u8>, tail: &str) -> (r: Vec<u8>)
    ensures
        r@ == text@ + tail.spec_bytes(),
{
    let mut r: Vec<u8> = Vec::new();
    appendBytes(&mut r, text.as_slice());
    appendText(&mut r, tail);
    assert(r@ =~= text@ + tail.spec_bytes());
    r
}

/// The line of one token in the dump.
fn dumpToken(token: &Token, last: bool, margin: &Vec<u8>, inner: &Vec<u8>) -> (r: Vec<Piece>)
    ensures
        r@ == tokenLine(token@, last, margin@, inner@),
{
    let mut markup: Vec<u8> = Vec::new();
    appendBytes(&mut markup, margin.as_slice());
    appendText(&mut markup, "\\b");
    if last {
        appendText(&mut markup, "X");
    } else {
        appendText(&mut markup, "┃");
    }
    appendText(&mut markup, "\\c");
    appendBytes(&mut markup, inner.as_slice());
    assert(markup@ =~= tokenStart(last, margin@, inner@));
    let kind: TokenType = token.dataType;
    match &token.data {
        Some(data) => {
            match kind {
                TokenType::Char | TokenType::FormattedChar => {
                    appendText(&mut markup, "\\fg(#f0f8ff)\\b'\\c");
                    appendBytes(&mut markup, data.as_slice());
                    appendText(&mut markup, "\\c\\fg(#f0f8ff)\\b'\\c");
                },
                TokenType::String | TokenType::FormattedString => {
                    appendText(&mut markup, "\\fg(#f0f8ff)\\b\"\\c");
                    appendBytes(&mut markup, data.as_slice());
                    appendText(&mut markup, "\\c\\fg(#f0f8ff)\\b\"\\c");
                },
                TokenType::RawString | TokenType::FormattedRawString => {
                    appendText(&mut markup, "\\fg(#f0f8ff)\\b`\\c");
                    appendBytes(&mut markup, data.as_slice());
                    appendText(&mut markup, "\\c\\fg(#f0f8ff)\\b`\\c");
                },
                _ => {
                    appendBytes(&mut markup, data.as_slice());
                },
            }
            appendText(&mut markup, "  |");
            appendBytes(&mut markup, typeName(kind).as_slice());
            assert(markup@ =~= tokenStart(last, margin@, inner@) + quoteOpen(kind) + data@
                + quoteClose(kind) + "  |".spec_bytes() + kindName(kind));
            logLine("parserToken", markup.as_slice())
        },
        None => {
            appendBytes(&mut markup, typeName(kind).as_slice());
            appendText(&mut markup, "\n");
            assert(markup@ =~= tokenStart(last, margin@, inner@) + kindName(kind)
                + "\n".spec_bytes());
            formatPieces(markup.as_slice())
        },
    }
}

/// The dump of a sequence of tokens.
pub fn dumpTokens(tokens: &Vec<Token>, margin: &Vec<u8>, inner: &Vec<u8>) -> (r: Vec<Piece>)
    ensures
        r@ == tokensDump(tokensView(tokens@), 0, margin@, inner@),
    decreases tokens,
{
    let ghost all = tokensView(tokens@);
    let mut out: Vec<Piece> = Vec::new();
    let mut i: usize = 0;
    assert(out@ + tokensDump(all, 0, margin@, inner@) =~= tokensDump(all, 0, margin@, inner@));
    while i < tokens.len()
        invariant
            i <= tokens.len(),
            all == tokensView(tokens@),
            out@ + tokensDump(all, i as int, margin@, inner@) == tokensDump(
                all,
                0,
                margin@,
                inner@,
            ),
        decreases tokens.len() - i,
    {
        let ghost before = out@;
        proof {
            lemma_nested_view(tokens@[i as int]);
        }
        let mut own = dumpToken(&tokens[i], i == tokens.len() - 1, margin, inner);
        out.append(&mut own);
        let deeper = followed(inner, "  ");
        let mut nested = dumpTokens(&tokens[i].tokens, margin, &deeper);
        out.append(&mut nested);
        i += 1;
        assert(out@ + tokensDump(all, i as int, margin@, inner@) =~= before + tokensDump(
            all,
            i - 1,
            margin@,
            inner@,
        ));
    }
    assert(out@ + Seq::<Piece>::empty() =~= out@);
    out
}

/// The dump of one line: its head, its tokens or that it is a separator, and
/// the dump of its nested lines.
pub open spec fn lineDump(line: LineView, i: int, margin: Seq<u8>) -> Seq<Piece>
    decreases line, 0nat,
{
    lineHead(i, margin) + (if line.tokens.len() == 0 {
        pieces(margin + " \\b┗ \\fg(#90df91)Separator\\c\n".spec_bytes(), 0)
    } else {
        pieces(margin + " \\b┣ \\fg(#90df91)Tokens\\c\n".spec_bytes(), 0) + tokensDump(
            line.tokens,
            0,
            margin + " ".spec_bytes(),
            "   ".spec_bytes(),
        )
    }) + (if line.lines.len() > 0 {
        pieces(margin + " \\b┗ \\fg(#90df91)Lines\\c\n".spec_bytes(), 0) + linesDump(
            line.lines,
            0,
            margin + "  ".spec_bytes(),
        )
    } else {
        Seq::empty()
    })
}

/// The head, the tokens and the nested lines of one line in the dump.
#[verifier::spinoff_prover]
fn dumpLine(line: &Line, i: usize, margin: &Vec<u8>) -> (r: Vec<Piece>)
    ensures
        r@ == lineDump(line@, i as int, margin@),
    decreases line,
{
    proof {
        lemma_nested_lines(*line);
    }
    let mut head = followed(margin, " ");
    let mut number = decimalBytes(i as u64);
    head.append(&mut number);
    assert(head@ =~= margin@ + " ".spec_bytes() + decimalText(i as nat));
    let mut out = logLine("parserBegin", head.as_slice());
    let ghost first = out@;
    if line.tokens.len() == 0 {
        let mut mark = formatPieces(
            followed(margin, " \\b┗ \\fg(#90df91)Separator\\c\n").as_slice(),
        );
        out.append(&mut mark);
    } else {
        let mut mark = formatPieces(
            followed(margin, " \\b┣ \\fg(#90df91)Tokens\\c\n").as_slice(),
        );
        out.append(&mut mark);
        let inner = "   ".as_bytes_vec();
        let deeper = followed(margin, " ");
        let mut tokens = dumpTokens(&line.tokens, &deeper, &inner);
        out.append(&mut tokens);
    }
    let ghost second = out@;
    if line.lines.len() > 0 {
        let mut mark = formatPieces(
            followed(margin, " \\b┗ \\fg(#90df91)Lines\\c\n").as_slice(),
        );
        out.append(&mut mark);
        let deeper = followed(margin, "  ");
        let mut nested = dumpLines(&line.lines, &deeper);
        out.append(&mut nested);
    }
    assert(out@ =~= lineDump(line@, i as int, margin@));
    out
}

/// The dump of a sequence of lines.
pub fn dumpLines(lines: &Vec<Line>, margin: &Vec<u8>) -> (r: Vec<Piece>)
    ensures
        r@ == linesDump(linesView(lines@), 0, margin@),
    decreases lines,
{
    let ghost all = linesView(lines@);
    let mut out: Vec<Piece> = Vec::new();
    let mut i: usize = 0;
    assert(out@ + linesDump(all, 0, margin@) =~= linesDump(all, 0, margin@));
    while i < lines.len()
        invariant
            i <= lines.len(),
            all == linesView(lines@),
            out@ + linesDump(all, i as int, margin@) == linesDump(all, 0, margin@),
        decreases lines.len() - i,
    {
        let ghost before = out@;
        let mut own = dumpLine(&lines[i], i, margin);
        out.append(&mut own);
        i += 1;
        assert(out@ + linesDump(all, i as int, margin@) =~= before + linesDump(
            all,
            i - 1,
            margin@,
        ));
    }
    assert(out@ + Seq::<Piece>::empty() =~= out@);
    out
}

/// Dumps a sequence of tokens, with their kinds and their nesting, as lines
/// of the log, rendered for a terminal. The margin of the line is
/// `lineIndent * 2 + 1` spaces and that of the nesting `indent * 2 + 1`.
pub fn outputTokens(tokens: &Vec<Token>, lineIndent: &usize, indent: &usize) -> (out: Vec<u8>)
    ensures
        shows(
            tokensDump(
                tokensView(tokens@),
                0,
                spaces((*lineIndent * 2 + 1) as nat),
                spaces((*indent * 2 + 1) as nat),
            ),
            out@,
        ),
{
    let margin = indentation(*lineIndent, true, 1);
    let inner = indentation(*indent, true, 1);
    renderPieces(&dumpTokens(tokens, &margin, &inner))
}

/// Dumps a tree of lines, each with its number, its tokens and its nested
/// lines, as lines of the log, rendered for a terminal. The margin is
/// `indent * 2` spaces.
pub fn outputLines(linesLinks: &Vec<Line>, indent: &usize) -> (out: Vec<u8>)
    ensures
        shows(linesDump(linesView(linesLinks@), 0, spaces((*indent * 2) as nat)), out@),
{
    let margin = indentation(*indent, true, 0);
    renderPieces(&dumpLines(linesLinks, &margin))
}

} // verus!
