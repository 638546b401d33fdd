//! Lines: one statement's worth of tokens together with the block of lines
//! that indentation nests below it.
use vstd::prelude::*;
use crate::token::{Token, TokenView, tokensView, copyTokens};

verus! {

/// One statement: its tokens, its indentation depth and its nested block.
/// A line without tokens and without nested lines is a separator.
#[derive(Debug, PartialEq, Eq)]
pub struct Line {
    pub tokens: Vec<Token>,
    pub indent: usize,
    pub lines: Vec<Line>,
}

/// The mathematical value of a [`Line`].
pub struct LineView {
    pub tokens: Seq<TokenView>,
    pub indent: nat,
    pub lines: Seq<LineView>,
}

impl LineView {
    /// A line without tokens and without nested lines.
    pub open spec fn separator() -> LineView {
        LineView { tokens: Seq::empty(), indent: 0, lines: Seq::empty() }
    }

    /// Whether the line has neither tokens nor nested lines.
    pub open spec fn isSeparator(self) -> bool {
        self.tokens.len() == 0 && self.lines.len() == 0
    }
}

/// The value of a line: the values of its tokens, its depth and the values of
/// its nested lines.
pub open spec fn lineView(line: Line) -> LineView
    decreases line,
{
    LineView {
        tokens: tokensView(line.tokens@),
        indent: line.indent as nat,
        lines: Seq::new(
            line.lines.len() as nat,
            |i: int|
                if 0 <= i < line.lines.len() {
                    lineView(line.lines[i])
                } else {
                    LineView::separator()
                },
        ),
    }
}

impl View for Line {
    type V = LineView;

    open spec fn view(&self) -> LineView {
        lineView(*self)
    }
}

/// The values of a sequence of lines, one by one.
pub open spec fn linesView(lines: Seq<Line>) -> Seq<LineView> {
    Seq::new(lines.len(), |i: int| lines[i]@)
}

/// The nested lines of a line's value are the values of its nested lines.
pub proof fn lemma_nested_lines(line: Line)
    ensures
        line@.lines == linesView(line.lines@),
{
    assert(line@.lines =~= linesView(line.lines@));
}

pub proof fn lemma_linesView_push(lines: Seq<Line>, line: Line)
    ensures
        linesView(lines.push(line)) == linesView(lines).push(line@),
{
    assert(linesView(lines.push(line)) =~= linesView(lines).push(line@));
}

/// A deep copy of a sequence of lines.
pub fn copyLines(lines: &Vec<Line>) -> (r: Vec<Line>)
    ensures
        linesView(r@) == linesView(lines@),
        r@.len() == lines@.len(),
    decreases lines,
{
    let mut r: Vec<Line> = Vec::new();
    let mut i: usize = 0;
    while i < lines.len()
        invariant
            i <= lines.len(),
            r@.len() == i,
            linesView(r@) == linesView(lines@).subrange(0, i as int),
        decreases lines.len() - i,
    {
        let l = lines[i].copy();
        proof {
            lemma_linesView_push(r@, l);
        }
        r.push(l);
        i += 1;
        assert(linesView(r@) =~= linesView(lines@).subrange(0, i as int));
    }
    assert(linesView(lines@).subrange(0, lines.len() as int) =~= linesView(lines@));
    r
}

impl Line {
    /// A line at depth 0 that holds the given tokens and no nested lines.
    pub fn new(tokens: Vec<Token>) -> (r: Line)
        ensures
            r@ == (LineView { tokens: tokensView(tokens@), indent: 0, lines: Seq::empty() }),
    {
        let r = Line { tokens, indent: 0, lines: Vec::new() };
        assert(r@.lines =~= Seq::empty());
        r
    }

    /// A separator: a line without tokens and without nested lines.
    pub fn newEmpty() -> (r: Line)
        ensures
            r@ == LineView::separator(),
    {
        let r = Line { tokens: Vec::new(), indent: 0, lines: Vec::new() };
        assert(r@.lines =~= Seq::empty());
        assert(r@.tokens =~= Seq::empty());
        r
    }

    /// A deep copy of the line.
    pub fn copy(&self) -> (r: Line)
        ensures
            r@ == self@,
        decreases self,
    {
        let lines = copyLines(&self.lines);
        let tokens = copyTokens(&self.tokens);
        let r = Line { tokens, indent: self.indent, lines };
        proof {
            lemma_nested_lines(r);
            lemma_nested_lines(*self);
        }
        r
    }
}

} // verus!
