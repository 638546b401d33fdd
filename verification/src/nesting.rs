//! Structural nesting: brackets within a line, lines by indentation, and the
//! removal of comments from the nested tree.
use vstd::prelude::*;
use crate::token::{
    Token, TokenType, TokenView, tokensView, lemma_nested_view, lemma_tokensView_push,
};
use crate::line::{Line, LineView, linesView, lemma_nested_lines, lemma_linesView_push};

verus! {

/// The token `parent` with `child` added behind its nested tokens.
pub open spec fn withChild(parent: TokenView, child: TokenView) -> TokenView {
    TokenView { tokens: parent.tokens.push(child), ..parent }
}

/// Nesting of one bracket family over a flat sequence, from position `i` on.
/// `stack` holds the brackets that are open, outermost first, each with what
/// it has gathered so far; `out` holds the finished top level.
///
/// An opening bracket goes onto the stack. A closing bracket finishes the
/// innermost open one, which goes into the bracket around it, or to the top
/// level if there is none; with no bracket open, the closing bracket is
/// dropped. Any other token goes into the innermost open bracket, or to the top
/// level. At the end the brackets still open stay at the top level with what
/// they gathered.
pub open spec fn nestFrom(
    input: Seq<TokenView>,
    i: int,
    stack: Seq<TokenView>,
    out: Seq<TokenView>,
    begin: TokenType,
    end: TokenType,
) -> Seq<TokenView>
    decreases input.len() - i,
{
    if i < 0 || i >= input.len() {
        out + stack
    } else {
        let t = input[i];
        if t.dataType == begin {
            nestFrom(input, i + 1, stack.push(t), out, begin, end)
        } else if t.dataType == end {
            if stack.len() == 0 {
                nestFrom(input, i + 1, stack, out, begin, end)
            } else if stack.len() == 1 {
                nestFrom(input, i + 1, Seq::empty(), out.push(stack[0]), begin, end)
            } else {
                let rest = stack.drop_last();
                nestFrom(
                    input,
                    i + 1,
                    rest.update(rest.len() - 1, withChild(rest.last(), stack.last())),
                    out,
                    begin,
                    end,
                )
            }
        } else if stack.len() == 0 {
            nestFrom(input, i + 1, stack, out.push(t), begin, end)
        } else {
            nestFrom(
                input,
                i + 1,
                stack.update(stack.len() - 1, withChild(stack.last(), t)),
                out,
                begin,
                end,
            )
        }
    }
}

/// One level of tokens with the pairs of one bracket family nested.
pub open spec fn blockNested(tokens: Seq<TokenView>, begin: TokenType, end: TokenType) -> Seq<
    TokenView,
> {
    nestFrom(tokens, 0, Seq::empty(), Seq::empty(), begin, end)
}

/// A token with one bracket family nested in everything below it.
pub open spec fn nestedToken(token: TokenView, begin: TokenType, end: TokenType) -> TokenView
    decreases token,
{
    TokenView { tokens: blockNested(nestedTokens(token.tokens, begin, end), begin, end), ..token }
}

/// Each token of a sequence with one bracket family nested in everything below
/// it.
pub open spec fn nestedTokens(tokens: Seq<TokenView>, begin: TokenType, end: TokenType) -> Seq<
    TokenView,
>
    decreases tokens,
{
    Seq::new(
        tokens.len(),
        |i: int|
            if 0 <= i < tokens.len() {
                nestedToken(tokens[i], begin, end)
            } else {
                TokenView::none()
            },
    )
}

/// A sequence of tokens with one bracket family nested, inner levels first.
pub open spec fn bracketNested(tokens: Seq<TokenView>, begin: TokenType, end: TokenType) -> Seq<
    TokenView,
> {
    blockNested(nestedTokens(tokens, begin, end), begin, end)
}

/// Takes the token at position `i` out of the vector and leaves an empty token
/// in its place.
fn takeToken(tokens: &mut Vec<Token>, i: usize) -> (token: Token)
    requires
        i < old(tokens).len(),
    ensures
        token == old(tokens)@[i as int],
        final(tokens)@.len() == old(tokens)@.len(),
        forall|j: int| 0 <= j < old(tokens)@.len() && j != i ==> final(tokens)@[j] == old(tokens)@[j],
{
    let mut token = Token::newEmpty(TokenType::Nothing);
    std::mem::swap(&mut tokens[i], &mut token);
    token
}

/// Adds `child` behind the nested tokens of `parent`.
fn pushChild(parent: &mut Token, child: Token)
    ensures
        final(parent)@ == withChild(old(parent)@, child@),
{
    proof {
        lemma_nested_view(*parent);
        lemma_tokensView_push(parent.tokens@, child);
    }
    parent.tokens.push(child);
    proof {
        lemma_nested_view(*parent);
    }
}

/// Nests the pairs of one bracket family on one level of tokens: what stands
/// between an opening bracket and its match becomes the nested tokens of the
/// opening bracket, and the closing bracket goes away.
pub fn blockNesting(tokens: &mut Vec<Token>, beginType: &TokenType, endType: &TokenType)
    ensures
        tokensView(final(tokens)@) == blockNested(tokensView(old(tokens)@), *beginType, *endType),
{
    let ghost orig = tokensView(tokens@);
    let mut input: Vec<Token> = Vec::new();
    std::mem::swap(tokens, &mut input);
    let mut stack: Vec<Token> = Vec::new();
    let mut i: usize = 0;
    assert(tokensView(tokens@) =~= Seq::empty());
    assert(tokensView(stack@) =~= Seq::empty());
    while i < input.len()
        invariant
            i <= input.len(),
            input@.len() == orig.len(),
            forall|j: int| i <= j < input@.len() ==> (#[trigger] input@[j])@ == orig[j],
            nestFrom(orig, i as int, tokensView(stack@), tokensView(tokens@), *beginType, *endType)
                == blockNested(orig, *beginType, *endType),
        decreases input.len() - i,
    {
        let t = takeToken(&mut input, i);
        assert(t@ == orig[i as int]);
        if t.dataType == *beginType {
            proof {
                lemma_tokensView_push(stack@, t);
            }
            stack.push(t);
        } else if t.dataType == *endType {
            if stack.len() == 0 {
            } else if stack.len() == 1 {
                let closed = stack.pop().unwrap();
                proof {
                    lemma_tokensView_push(tokens@, closed);
                    assert(tokensView(stack@) =~= Seq::empty());
                }
                tokens.push(closed);
            } else {
                let ghost before = tokensView(stack@);
                let closed = stack.pop().unwrap();
                let n: usize = stack.len();
                assert(tokensView(stack@) =~= before.drop_last());
                let ghost rest = tokensView(stack@);
                pushChild(&mut stack[n - 1], closed);
                assert(tokensView(stack@) =~= rest.update(
                    rest.len() - 1,
                    withChild(rest.last(), before.last()),
                ));
            }
        } else if stack.len() == 0 {
            proof {
                lemma_tokensView_push(tokens@, t);
            }
            tokens.push(t);
        } else {
            let n: usize = stack.len();
            let ghost before = tokensView(stack@);
            pushChild(&mut stack[n - 1], t);
            assert(tokensView(stack@) =~= before.update(
                before.len() - 1,
                withChild(before.last(), orig[i as int]),
            ));
        }
        i += 1;
    }
    let ghost out = tokensView(tokens@);
    let ghost open = tokensView(stack@);
    tokens.append(&mut stack);
    assert(tokensView(tokens@) =~= out + open);
}

/// Nests the pairs of one bracket family in a sequence of tokens and in
/// everything already nested below it, inner levels first.
pub fn bracketNesting(tokens: &mut Vec<Token>, beginType: &TokenType, endType: &TokenType)
    ensures
        tokensView(final(tokens)@) == bracketNested(
            tokensView(old(tokens)@),
            *beginType,
            *endType,
        ),
    decreases *old(tokens),
{
    let ghost orig = tokensView(tokens@);
    let mut i: usize = 0;
    while i < tokens.len()
        invariant
            i <= tokens.len(),
            tokens@.len() == orig.len(),
            tokens@.len() == old(tokens)@.len(),
            forall|j: int| i <= j < tokens@.len() ==> #[trigger] tokens@[j] == old(tokens)@[j],
            forall|j: int| i <= j < tokens@.len() ==> (#[trigger] tokens@[j])@ == orig[j],
            forall|j: int|
                0 <= j < i ==> (#[trigger] tokens@[j])@ == nestedToken(
                    orig[j],
                    *beginType,
                    *endType,
                ),
        decreases tokens.len() - i,
    {
        proof {
            lemma_nested_view(tokens@[i as int]);
        }
        bracketNesting(&mut tokens[i].tokens, beginType, endType);
        proof {
            lemma_nested_view(tokens@[i as int]);
        }
        i += 1;
    }
    assert(tokensView(tokens@) =~= nestedTokens(orig, *beginType, *endType));
    blockNesting(tokens, beginType, endType);
}

/// The end of the run of lines that begins at position `i` and lies deeper
/// than `depth`: the first position from `i` on whose line is not deeper.
pub open spec fn runEnd(lines: Seq<LineView>, i: int, depth: nat) -> int
    decreases lines.len() - i,
{
    if 0 <= i < lines.len() && lines[i].indent > depth {
        runEnd(lines, i + 1, depth)
    } else {
        i
    }
}

pub proof fn lemma_runEnd_bounds(lines: Seq<LineView>, i: int, depth: nat)
    requires
        0 <= i <= lines.len(),
    ensures
        i <= runEnd(lines, i, depth) <= lines.len(),
    decreases lines.len() - i,
{
    if i < lines.len() && lines[i].indent > depth {
        lemma_runEnd_bounds(lines, i + 1, depth);
    }
}

/// Whether no line of the sequence has nested lines.
pub open spec fn flat(lines: Seq<LineView>) -> bool {
    forall|i: int| 0 <= i < lines.len() ==> (#[trigger] lines[i]).lines.len() == 0
}

/// The indentation tree of a flat sequence of lines: the lines that follow a
/// line directly and lie deeper than it, up to the first line that does not,
/// are its nested lines, themselves nested in the same way.
pub open spec fn lineNested(lines: Seq<LineView>) -> Seq<LineView>
    decreases lines.len(),
{
    if lines.len() == 0 {
        Seq::empty()
    } else {
        let end = runEnd(lines, 1, lines[0].indent);
        proof {
            lemma_runEnd_bounds(lines, 1, lines[0].indent);
        }
        seq![LineView { lines: lineNested(lines.subrange(1, end)), ..lines[0] }] + lineNested(
            lines.subrange(end, lines.len() as int),
        )
    }
}

/// Whether every line nested below `line`, at any level, lies deeper than
/// the line it is nested in.
pub open spec fn deeperBelow(line: LineView) -> bool
    decreases line,
{
    forall|k: int|
        0 <= k < line.lines.len() ==> (#[trigger] line.lines[k]).indent > line.indent
            && deeperBelow(line.lines[k])
}

/// Whether every line of the sequence lies deeper than `depth`.
pub open spec fn allDeeper(lines: Seq<LineView>, depth: nat) -> bool {
    forall|k: int| 0 <= k < lines.len() ==> (#[trigger] lines[k]).indent > depth
}

proof fn lemma_runEnd_deeper(lines: Seq<LineView>, i: int, depth: nat, k: int)
    requires
        0 <= i <= k < runEnd(lines, i, depth),
        i <= lines.len(),
    ensures
        k < lines.len(),
        lines[k].indent > depth,
    decreases lines.len() - i,
{
    if i < lines.len() && lines[i].indent > depth {
        if k > i {
            lemma_runEnd_deeper(lines, i + 1, depth, k);
        }
    }
}

proof fn lemma_lineNested_tops(lines: Seq<LineView>, depth: nat)
    requires
        allDeeper(lines, depth),
    ensures
        allDeeper(lineNested(lines), depth),
    decreases lines.len(),
{
    if lines.len() > 0 {
        let end = runEnd(lines, 1, lines[0].indent);
        lemma_runEnd_bounds(lines, 1, lines[0].indent);
        let rest = lines.subrange(end, lines.len() as int);
        assert(allDeeper(rest, depth)) by {
            assert forall|k: int| 0 <= k < rest.len() implies (#[trigger] rest[k]).indent
                > depth by {
                assert(rest[k] == lines[end + k]);
            }
        }
        lemma_lineNested_tops(rest, depth);
        let first = seq![LineView { lines: lineNested(lines.subrange(1, end)), ..lines[0] }];
        assert forall|k: int| 0 <= k < lineNested(lines).len() implies (#[trigger] lineNested(
            lines,
        )[k]).indent > depth by {
            if k == 0 {
                assert(lineNested(lines)[0] == first[0]);
            } else {
                assert(lineNested(lines)[k] == lineNested(rest)[k - 1]);
            }
        }
    }
}

/// In the indentation tree of a flat sequence of lines, every nested line
/// lies deeper than the line it is nested in.
pub proof fn lemma_nested_lines_lie_deeper(lines: Seq<LineView>, i: int)
    requires
        flat(lines),
        0 <= i < lineNested(lines).len(),
    ensures
        deeperBelow(lineNested(lines)[i]),
    decreases lines.len(),
{
    let end = runEnd(lines, 1, lines[0].indent);
    lemma_runEnd_bounds(lines, 1, lines[0].indent);
    let run = lines.subrange(1, end);
    let rest = lines.subrange(end, lines.len() as int);
    let first = seq![LineView { lines: lineNested(run), ..lines[0] }];
    assert(flat(run)) by {
        assert forall|k: int| 0 <= k < run.len() implies (#[trigger] run[k]).lines.len() == 0 by {
            assert(run[k] == lines[1 + k]);
        }
    }
    assert(flat(rest)) by {
        assert forall|k: int| 0 <= k < rest.len() implies (#[trigger] rest[k]).lines.len()
            == 0 by {
            assert(rest[k] == lines[end + k]);
        }
    }
    if i == 0 {
        assert(lineNested(lines)[0] == first[0]);
        assert(allDeeper(run, lines[0].indent)) by {
            assert forall|k: int| 0 <= k < run.len() implies (#[trigger] run[k]).indent
                > lines[0].indent by {
                lemma_runEnd_deeper(lines, 1, lines[0].indent, 1 + k);
                assert(run[k] == lines[1 + k]);
            }
        }
        lemma_lineNested_tops(run, lines[0].indent);
        assert forall|k: int| 0 <= k < first[0].lines.len() implies (#[trigger] first[0].lines[k]).indent
            > first[0].indent && deeperBelow(first[0].lines[k]) by {
            lemma_nested_lines_lie_deeper(run, k);
        }
    } else {
        assert(lineNested(lines)[i] == lineNested(rest)[i - 1]);
        lemma_nested_lines_lie_deeper(rest, i - 1);
    }
}

/// Takes the line at position `i` out of the vector and leaves a separator in
/// its place.
fn takeLine(lines: &mut Vec<Line>, i: usize) -> (line: Line)
    requires
        i < old(lines).len(),
    ensures
        line == old(lines)@[i as int],
        final(lines)@.len() == old(lines)@.len(),
        forall|j: int| 0 <= j < old(lines)@.len() && j != i ==> final(lines)@[j] == old(lines)@[j],
{
    let mut line = Line::newEmpty();
    std::mem::swap(&mut lines[i], &mut line);
    line
}

/// Nests a flat sequence of lines by indentation: a line becomes the parent of
/// the run of deeper lines that follows it.
pub fn lineNesting(linesLinks: &mut Vec<Line>)
    requires
        flat(linesView(old(linesLinks)@)),
    ensures
        linesView(final(linesLinks)@) == lineNested(linesView(old(linesLinks)@)),
    decreases old(linesLinks).len(),
{
    let ghost orig = linesView(linesLinks@);
    let mut input: Vec<Line> = Vec::new();
    std::mem::swap(linesLinks, &mut input);
    let length: usize = input.len();
    let mut index: usize = 0;
    assert(linesView(linesLinks@) =~= Seq::empty());
    assert(orig.skip(0) =~= orig);
    while index < length
        invariant
            index <= length == input@.len() == orig.len(),
            length == old(linesLinks)@.len(),
            flat(orig),
            forall|j: int| index <= j < length ==> (#[trigger] input@[j])@ == orig[j],
            linesView(linesLinks@) + lineNested(orig.skip(index as int)) == lineNested(orig),
        decreases length - index,
    {
        let ghost tail = orig.skip(index as int);
        let first: usize = index;
        let mut head = takeLine(&mut input, index);
        index += 1;
        let mut run: Vec<Line> = Vec::new();
        assert(linesView(run@) =~= tail.subrange(1, 1));
        while index < length && input[index].indent > head.indent
            invariant
                first < index <= length == input@.len() == orig.len(),
                run@.len() == index - first - 1,
                tail == orig.skip(first as int),
                head@ == orig[first as int],
                forall|j: int| index <= j < length ==> (#[trigger] input@[j])@ == orig[j],
                linesView(run@) == tail.subrange(1, index - first),
                runEnd(tail, index - first, head@.indent) == runEnd(tail, 1, head@.indent),
            decreases length - index,
        {
            let line = takeLine(&mut input, index);
            proof {
                lemma_linesView_push(run@, line);
            }
            run.push(line);
            index += 1;
            assert(linesView(run@) =~= tail.subrange(1, index - first));
        }
        proof {
            assert forall|k: int| 0 <= k < linesView(run@).len() implies (#[trigger] linesView(
                run@,
            )[k]).lines.len() == 0 by {
                assert(linesView(run@)[k] == orig[first + 1 + k]);
            }
            assert(tail.subrange(index - first, tail.len() as int) =~= orig.skip(index as int));
        }
        lineNesting(&mut run);
        let ghost before = linesView(linesLinks@);
        head.lines = run;
        proof {
            lemma_nested_lines(head);
            lemma_linesView_push(linesLinks@, head);
        }
        linesLinks.push(head);
        assert(linesView(linesLinks@) + lineNested(orig.skip(index as int)) =~= before
            + lineNested(tail));
    }
    assert(linesView(linesLinks@) + Seq::<LineView>::empty() =~= linesView(linesLinks@));
}

/// Whether the last token of the line is a comment mark.
pub open spec fn endsWithComment(line: LineView) -> bool {
    line.tokens.len() > 0 && line.tokens.last().dataType == TokenType::Comment
}

/// The tokens of a line without the comment mark at their end.
pub open spec fn withoutComment(line: LineView) -> Seq<TokenView> {
    if endsWithComment(line) {
        line.tokens.drop_last()
    } else {
        line.tokens
    }
}

/// A line without its comment, or nothing where the line goes away.
///
/// A line that consists of a comment and has a nested block goes away with
/// the block; one without a block is left as a separator. Any other line
/// loses the comment at its end, if it has one, and keeps its nested lines,
/// which are cleaned in turn.
pub open spec fn strippedLine(line: LineView) -> Option<LineView>
    decreases line,
{
    if endsWithComment(line) && line.tokens.len() == 1 {
        if line.lines.len() > 0 {
            None
        } else {
            Some(LineView { tokens: Seq::empty(), ..line })
        }
    } else {
        Some(
            LineView {
                tokens: withoutComment(line),
                lines: collapsed(kept(strippedLines(line.lines), 0), 0),
                ..line
            },
        )
    }
}

/// Each line of a sequence without its comment.
pub open spec fn strippedLines(lines: Seq<LineView>) -> Seq<Option<LineView>>
    decreases lines,
{
    Seq::new(
        lines.len(),
        |i: int|
            if 0 <= i < lines.len() {
                strippedLine(lines[i])
            } else {
                None
            },
    )
}

/// The lines that stayed, from position `i` on, in their order.
pub open spec fn kept(lines: Seq<Option<LineView>>, i: int) -> Seq<LineView>
    decreases lines.len() - i,
{
    if i < 0 || i >= lines.len() {
        Seq::empty()
    } else {
        match lines[i] {
            Some(line) => seq![line] + kept(lines, i + 1),
            None => kept(lines, i + 1),
        }
    }
}

/// Whether the line at position `i` is a separator that stands before a line
/// without tokens.
pub open spec fn repeatedSeparator(lines: Seq<LineView>, i: int) -> bool {
    0 <= i && i + 1 < lines.len() && lines[i].isSeparator() && lines[i + 1].tokens.len() == 0
}

/// The lines from position `i` on without the separators that stand before a
/// line without tokens, so that of a run of separators only the last stays.
pub open spec fn collapsed(lines: Seq<LineView>, i: int) -> Seq<LineView>
    decreases lines.len() - i,
{
    if i < 0 || i >= lines.len() {
        Seq::empty()
    } else if repeatedSeparator(lines, i) {
        collapsed(lines, i + 1)
    } else {
        seq![lines[i]] + collapsed(lines, i + 1)
    }
}

/// A sequence of lines without its comments, cleaned through all nested
/// blocks, with runs of separators collapsed.
pub open spec fn cleanedLines(lines: Seq<LineView>) -> Seq<LineView> {
    collapsed(kept(strippedLines(lines), 0), 0)
}

/// The lines before position `index` as they are, followed by the cleaned
/// lines from `index` on.
pub open spec fn cleanedFrom(lines: Seq<LineView>, index: int) -> Seq<LineView> {
    if 0 <= index < lines.len() {
        lines.take(index) + cleanedLines(lines.skip(index))
    } else {
        lines
    }
}

/// Removes the comment marks from the lines at position `index` and after,
/// through all nested blocks, together with the lines that held nothing but a
/// comment above a block, and collapses runs of separators.
pub fn deleteNestedComment(linesLinks: &mut Vec<Line>, index: usize)
    ensures
        linesView(final(linesLinks)@) == cleanedFrom(linesView(old(linesLinks)@), index as int),
    decreases *old(linesLinks),
{
    if index >= linesLinks.len() {
        return ;
    }
    let ghost orig = linesView(linesLinks@);
    let ghost tail = orig.skip(index as int);
    let ghost marks = strippedLines(tail);
    let mut input: Vec<Line> = Vec::new();
    std::mem::swap(linesLinks, &mut input);
    let length: usize = input.len();
    let mut i: usize = 0;
    assert(linesView(linesLinks@) =~= orig.take(0));
    while i < index
        invariant
            i <= index < length == input@.len() == orig.len(),
            input@.len() == old(linesLinks)@.len(),
            forall|j: int| i <= j < length ==> #[trigger] input@[j] == old(linesLinks)@[j],
            linesView(linesLinks@) == orig.take(i as int),
            orig == linesView(old(linesLinks)@),
        decreases index - i,
    {
        let line = takeLine(&mut input, i);
        proof {
            lemma_linesView_push(linesLinks@, line);
        }
        linesLinks.push(line);
        i += 1;
        assert(linesView(linesLinks@) =~= orig.take(i as int));
    }
    let mut stripped: Vec<Line> = Vec::new();
    assert(linesView(stripped@) =~= Seq::empty());
    assert(linesView(stripped@) + kept(marks, 0) =~= kept(marks, 0));
    while i < length
        invariant
            index <= i <= length == input@.len() == orig.len(),
            input@.len() == old(linesLinks)@.len(),
            forall|j: int| i <= j < length ==> #[trigger] input@[j] == old(linesLinks)@[j],
            orig == linesView(old(linesLinks)@),
            tail == orig.skip(index as int),
            marks == strippedLines(tail),
            linesView(stripped@) + kept(marks, i - index) == kept(marks, 0),
        decreases length - i,
    {
        let mut line = takeLine(&mut input, i);
        assert(line@ == tail[i - index]);
        assert(marks[i - index] == strippedLine(line@));
        let ghost before = linesView(stripped@);
        let count: usize = line.tokens.len();
        let commented: bool = count > 0 && line.tokens[count - 1].dataType == TokenType::Comment;
        assert(commented == endsWithComment(line@));
        if commented && count == 1 {
            if line.lines.len() > 0 {
                proof {
                    lemma_nested_lines(line);
                }
            } else {
                proof {
                    lemma_nested_lines(line);
                }
                line.tokens.pop();
                proof {
                    lemma_nested_lines(line);
                    assert(line@.tokens =~= Seq::empty());
                    lemma_linesView_push(stripped@, line);
                }
                stripped.push(line);
            }
        } else {
            let ghost tokensBefore = line@.tokens;
            proof {
                lemma_nested_lines(line);
            }
            if commented {
                line.tokens.pop();
            }
            deleteNestedComment(&mut line.lines, 0);
            proof {
                lemma_nested_lines(line);
                if commented {
                    assert(line@.tokens =~= tokensBefore.drop_last());
                } else {
                    assert(line@.tokens =~= tokensBefore);
                }
                lemma_cleanedFrom_start(tail[i - index].lines);
                lemma_linesView_push(stripped@, line);
            }
            stripped.push(line);
        }
        i += 1;
        assert(linesView(stripped@) + kept(marks, i - index) =~= before + kept(marks, i - index - 1));
    }
    assert(linesView(stripped@) =~= kept(marks, 0));
    let ghost whole = linesView(stripped@);
    let ghost front = linesView(linesLinks@);
    let total: usize = stripped.len();
    let mut k: usize = 0;
    assert(front + collapsed(whole, 0) == cleanedFrom(orig, index as int));
    while k < total
        invariant
            k <= total == stripped@.len() == whole.len(),
            forall|j: int| k <= j < total ==> (#[trigger] stripped@[j])@ == whole[j],
            linesView(linesLinks@) + collapsed(whole, k as int) == front + collapsed(whole, 0),
        decreases total - k,
    {
        let ghost before = linesView(linesLinks@);
        let repeated: bool = stripped[k].tokens.len() == 0 && stripped[k].lines.len() == 0 && k + 1
            < total && stripped[k + 1].tokens.len() == 0;
        proof {
            lemma_nested_lines(stripped@[k as int]);
            if k + 1 < total {
                lemma_nested_lines(stripped@[k + 1]);
            }
        }
        assert(repeated == repeatedSeparator(whole, k as int));
        if !repeated {
            let line = takeLine(&mut stripped, k);
            proof {
                lemma_linesView_push(linesLinks@, line);
            }
            linesLinks.push(line);
        }
        k += 1;
        assert(linesView(linesLinks@) + collapsed(whole, k as int) =~= before + collapsed(
            whole,
            k - 1,
        ));
    }
    assert(linesView(linesLinks@) + Seq::<LineView>::empty() =~= linesView(linesLinks@));
}

proof fn lemma_cleanedFrom_start(lines: Seq<LineView>)
    ensures
        cleanedFrom(lines, 0) == cleanedLines(lines),
{
    if lines.len() > 0 {
        assert(lines.take(0) + cleanedLines(lines.skip(0)) =~= cleanedLines(lines)) by {
            assert(lines.skip(0) =~= lines);
        }
    } else {
        assert(strippedLines(lines) =~= Seq::empty());
        assert(cleanedLines(lines) =~= lines);
    }
}

} // verus!
