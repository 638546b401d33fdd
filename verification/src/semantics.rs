//! The meaning of programs: what evaluating a token sequence and running a
//! body do to a session, as functions on mathematical values.
use vstd::prelude::*;
use vstd::string::*;
use crate::token::{TokenType, TokenView};
use crate::line::LineView;
use crate::structure::{
    EffectView, RtsView, StructureMut, StructureType, StructureView, plainLine, encloses, keeps,
    lemma_added_keeps, lemma_parameters_keep, lemma_attached_member, lemma_resolution_stays,
};
use crate::value::{calculated, decimalText, integerValue};
use crate::tokenizer::{lineTree, NEWLINE, DOT, LBRACKET, RBRACKET, LBRACE, RBRACE};

verus! {

/// A session and the token that an evaluation gave.
pub struct Outcome {
    pub state: RtsView,
    pub token: TokenView,
}

/// A session and the tokens that a rewrite pass left.
pub struct Rewrite {
    pub state: RtsView,
    pub tokens: Seq<TokenView>,
}

/// A session and the text that an interpolation gave.
pub struct Interpolation {
    pub state: RtsView,
    pub text: Seq<u8>,
}

/// A session and whether a line was recognised.
pub struct Handled {
    pub state: RtsView,
    pub handled: bool,
}

/// The three tiers of binary operators, in the order in which they are
/// reduced.
#[derive(Clone, Copy, Debug, PartialEq, Eq, Structural)]
pub enum Tier {
    Comparison,
    Multiplicative,
    Additive,
}

/// The name of a kind, as the `type` call gives it.
pub open spec fn kindName(kind: TokenType) -> Seq<u8> {
    match kind {
        TokenType::Nothing => "None".spec_bytes(),
        TokenType::UInt => "UInt".spec_bytes(),
        TokenType::Int => "Int".spec_bytes(),
        TokenType::UFloat => "UFloat".spec_bytes(),
        TokenType::Float => "Float".spec_bytes(),
        TokenType::Rational => "Rational".spec_bytes(),
        TokenType::Complex => "Complex".spec_bytes(),
        TokenType::Bool => "Bool".spec_bytes(),
        TokenType::Char => "Char".spec_bytes(),
        TokenType::String => "String".spec_bytes(),
        TokenType::RawString => "RawString".spec_bytes(),
        TokenType::FormattedChar => "FormattedChar".spec_bytes(),
        TokenType::FormattedString => "FormattedString".spec_bytes(),
        TokenType::FormattedRawString => "FormattedRawString".spec_bytes(),
        TokenType::Word => "Word".spec_bytes(),
        TokenType::Link => "Link".spec_bytes(),
        TokenType::CircleBracketBegin => "CircleBracketBegin".spec_bytes(),
        TokenType::CircleBracketEnd => "CircleBracketEnd".spec_bytes(),
        TokenType::SquareBracketBegin => "SquareBracketBegin".spec_bytes(),
        TokenType::SquareBracketEnd => "SquareBracketEnd".spec_bytes(),
        TokenType::FigureBracketBegin => "FigureBracketBegin".spec_bytes(),
        TokenType::FigureBracketEnd => "FigureBracketEnd".spec_bytes(),
        TokenType::Plus => "Plus".spec_bytes(),
        TokenType::Minus => "Minus".spec_bytes(),
        TokenType::Multiply => "Multiply".spec_bytes(),
        TokenType::Divide => "Divide".spec_bytes(),
        TokenType::Modulo => "Modulo".spec_bytes(),
        TokenType::Exponent => "Exponent".spec_bytes(),
        TokenType::Equals => "Equals".spec_bytes(),
        TokenType::NotEquals => "NotEquals".spec_bytes(),
        TokenType::GreaterThan => "GreaterThan".spec_bytes(),
        TokenType::LessThan => "LessThan".spec_bytes(),
        TokenType::GreaterThanOrEquals => "GreaterThanOrEquals".spec_bytes(),
        TokenType::LessThanOrEquals => "LessThanOrEquals".spec_bytes(),
        TokenType::UnaryPlus => "UnaryPlus".spec_bytes(),
        TokenType::PlusEquals => "PlusEquals".spec_bytes(),
        TokenType::UnaryMinus => "UnaryMinus".spec_bytes(),
        TokenType::MinusEquals => "MinusEquals".spec_bytes(),
        TokenType::UnaryMultiply => "UnaryMultiply".spec_bytes(),
        TokenType::MultiplyEquals => "MultiplyEquals".spec_bytes(),
        TokenType::UnaryDivide => "UnaryDivide".spec_bytes(),
        TokenType::DivideEquals => "DivideEquals".spec_bytes(),
        TokenType::UnaryModulo => "UnaryModulo".spec_bytes(),
        TokenType::ModuloEquals => "ModuloEquals".spec_bytes(),
        TokenType::UnaryExponent => "UnaryExponent".spec_bytes(),
        TokenType::ExponentEquals => "ExponentEquals".spec_bytes(),
        TokenType::Pointer => "Pointer".spec_bytes(),
        TokenType::Tilde => "Tilde".spec_bytes(),
        TokenType::DoubleTilde => "DoubleTilde".spec_bytes(),
        TokenType::Inclusion => "Inclusion".spec_bytes(),
        TokenType::Joint => "Joint".spec_bytes(),
        TokenType::Disjoint => "Disjoint".spec_bytes(),
        TokenType::Exclusion => "Exclusion".spec_bytes(),
        TokenType::Endline => "Endline".spec_bytes(),
        TokenType::Colon => "Colon".spec_bytes(),
        TokenType::Comma => "Comma".spec_bytes(),
        TokenType::Dot => "Dot".spec_bytes(),
        TokenType::Question => "Question".spec_bytes(),
        TokenType::Comment => "Comment".spec_bytes(),
    }
}

/// The literal value of a token: its kind and payload, without nested tokens.
pub open spec fn literalOf(token: TokenView) -> TokenView {
    TokenView { tokens: Seq::empty(), ..token }
}

/// The payload of a token, or the empty text where it has none.
pub open spec fn payload(token: TokenView) -> Seq<u8> {
    match token.data {
        Some(d) => d,
        None => Seq::empty(),
    }
}

/// The natural number that the payload of a token stands for, if it stands
/// for one that fits an index.
pub open spec fn indexOf(token: TokenView) -> Option<usize> {
    match token.data {
        Some(d) => match integerValue(d) {
            Some(v) => if 0 <= v <= usize::MAX {
                Some(v as usize)
            } else {
                None
            },
            None => None,
        },
        None => None,
    }
}

/// The number that the payload of a token stands for, or 0.
pub open spec fn numberOr0(token: TokenView) -> int {
    match token.data {
        Some(d) => match integerValue(d) {
            Some(v) => v,
            None => 0,
        },
        None => 0,
    }
}

/// Whether the operator belongs to the tier.
pub open spec fn inTier(op: TokenType, tier: Tier) -> bool {
    match tier {
        Tier::Comparison => op == TokenType::Inclusion || op == TokenType::Joint || op
            == TokenType::Equals || op == TokenType::NotEquals || op == TokenType::GreaterThan
            || op == TokenType::LessThan || op == TokenType::GreaterThanOrEquals || op
            == TokenType::LessThanOrEquals,
        Tier::Multiplicative => op == TokenType::Multiply || op == TokenType::Divide,
        Tier::Additive => op == TokenType::Plus || op == TokenType::Minus,
    }
}

/// One tier of binary operators reduced from left to right, from position `i`
/// on: an operator of the tier between two tokens is replaced, with both, by
/// the result of the operation. In the additive tier a negative number right
/// behind a value is added to it.
pub open spec fn reduced(tokens: Seq<TokenView>, i: int, tier: Tier) -> Seq<TokenView>
    decreases tokens.len() - i,
{
    if i < 1 || i >= tokens.len() {
        tokens
    } else if i + 1 < tokens.len() && inTier(tokens[i].dataType, tier) {
        reduced(
            tokens.update(i - 1, calculated(tokens[i].dataType, tokens[i - 1], tokens[i + 1])).remove(
                i,
            ).remove(i),
            i,
            tier,
        )
    } else if tier == Tier::Additive && (tokens[i].dataType == TokenType::Int || tokens[i].dataType
        == TokenType::Float) {
        reduced(
            tokens.update(i - 1, calculated(TokenType::Plus, tokens[i - 1], tokens[i])).remove(i),
            i,
            tier,
        )
    } else {
        reduced(tokens, i + 1, tier)
    }
}

/// The three tiers reduced in their order.
pub open spec fn reducedAll(tokens: Seq<TokenView>) -> Seq<TokenView> {
    reduced(
        reduced(reduced(tokens, 1, Tier::Comparison), 1, Tier::Multiplicative),
        1,
        Tier::Additive,
    )
}

/// The first token of a sequence, or no value for the empty sequence.
pub open spec fn firstOr(tokens: Seq<TokenView>) -> TokenView {
    if tokens.len() > 0 {
        tokens[0]
    } else {
        TokenView::none()
    }
}

/// The groups between the commas of a token sequence, from position `i` on,
/// empty groups left out. `current` is the group being gathered, `done` the
/// finished groups.
pub open spec fn splitArguments(
    tokens: Seq<TokenView>,
    i: int,
    current: Seq<TokenView>,
    done: Seq<Seq<TokenView>>,
) -> Seq<Seq<TokenView>>
    decreases tokens.len() - i,
{
    if i < 0 || i >= tokens.len() {
        if current.len() > 0 {
            done.push(current)
        } else {
            done
        }
    } else if tokens[i].dataType == TokenType::Comma {
        if current.len() > 0 {
            splitArguments(tokens, i + 1, Seq::empty(), done.push(current))
        } else {
            splitArguments(tokens, i + 1, Seq::empty(), done)
        }
    } else {
        splitArguments(tokens, i + 1, current.push(tokens[i]), done)
    }
}

/// The names of the parameters in a parameter list, from position `i` on: the
/// identifiers that stand first or right behind a comma.
pub open spec fn parameterNames(tokens: Seq<TokenView>, i: int, done: Seq<Seq<u8>>) -> Seq<Seq<u8>>
    decreases tokens.len() - i,
{
    if i < 0 || i >= tokens.len() {
        done
    } else if tokens[i].dataType == TokenType::Word && tokens[i].data.is_some() && (i == 0
        || tokens[i - 1].dataType == TokenType::Comma) {
        parameterNames(tokens, i + 1, done.push(tokens[i].data.unwrap()))
    } else {
        parameterNames(tokens, i + 1, done)
    }
}

/// Whether the byte is white space.
pub open spec fn whitespace(c: u8) -> bool {
    c == 32 || (9 <= c <= 13)
}

/// The text without the white space at its end.
pub open spec fn trimmedEnd(text: Seq<u8>) -> Seq<u8>
    decreases text.len(),
{
    if text.len() > 0 && whitespace(text.last()) {
        trimmedEnd(text.drop_last())
    } else {
        text
    }
}

/// Whether the kind is that of an assignment: `=`, the compound operators and
/// the increment and decrement forms.
pub open spec fn mathOperator(kind: TokenType) -> bool {
    kind == TokenType::Equals || kind == TokenType::UnaryPlus || kind == TokenType::PlusEquals
        || kind == TokenType::UnaryMinus || kind == TokenType::MinusEquals || kind
        == TokenType::UnaryMultiply || kind == TokenType::MultiplyEquals || kind
        == TokenType::UnaryDivide || kind == TokenType::DivideEquals || kind
        == TokenType::UnaryModulo || kind == TokenType::ModuloEquals || kind
        == TokenType::UnaryExponent || kind == TokenType::ExponentEquals
}

/// The position of the first assignment operator of a line, from position `i`
/// on.
pub open spec fn operatorPosition(tokens: Seq<TokenView>, i: int) -> Option<int>
    decreases tokens.len() - i,
{
    if i < 0 || i >= tokens.len() {
        None
    } else if mathOperator(tokens[i].dataType) {
        Some(i)
    } else {
        operatorPosition(tokens, i + 1)
    }
}

/// The binary operator that a compound assignment applies.
pub open spec fn compoundOperator(op: TokenType) -> Option<TokenType> {
    match op {
        TokenType::PlusEquals => Some(TokenType::Plus),
        TokenType::MinusEquals => Some(TokenType::Minus),
        TokenType::MultiplyEquals => Some(TokenType::Multiply),
        TokenType::DivideEquals => Some(TokenType::Divide),
        TokenType::ModuloEquals => Some(TokenType::Modulo),
        _ => None,
    }
}

/// The binary operator that an increment or decrement applies with 1.
pub open spec fn stepOperator(op: TokenType) -> Option<TokenType> {
    match op {
        TokenType::UnaryPlus => Some(TokenType::Plus),
        TokenType::UnaryMinus => Some(TokenType::Minus),
        _ => None,
    }
}

/// The declared type that a kind names in an annotation.
pub open spec fn annotatedType(kind: TokenType) -> Option<StructureType> {
    match kind {
        TokenType::UInt => Some(StructureType::UInt),
        TokenType::Int => Some(StructureType::Int),
        TokenType::UFloat => Some(StructureType::UFloat),
        TokenType::Float => Some(StructureType::Float),
        TokenType::Rational => Some(StructureType::Rational),
        TokenType::Bool => Some(StructureType::Bool),
        TokenType::Char => Some(StructureType::Char),
        TokenType::String => Some(StructureType::String),
        TokenType::RawString => Some(StructureType::RawString),
        _ => None,
    }
}

/// Whether the target of an assignment carries a mutability mark behind its
/// name.
pub open spec fn marked(left: Seq<TokenView>) -> bool {
    left.len() > 1 && (left[1].dataType == TokenType::Tilde || left[1].dataType
        == TokenType::DoubleTilde)
}

/// The mutability that the target of an assignment declares.
pub open spec fn declaredMut(left: Seq<TokenView>) -> StructureMut {
    if marked(left) {
        StructureMut::Variable
    } else {
        StructureMut::Constant
    }
}

/// The type that the target of an assignment declares: the kind behind a
/// colon that follows the name and the mutability mark.
pub open spec fn declaredType(left: Seq<TokenView>) -> StructureType {
    let at: int = if marked(left) {
        2
    } else {
        1
    };
    if at + 1 < left.len() && left[at].dataType == TokenType::Colon {
        match annotatedType(left[at + 1].dataType) {
            Some(t) => t,
            None => StructureType::Unset,
        }
    } else {
        StructureType::Unset
    }
}

/// The result kind that a declaration line names behind `->`, which follows
/// the name or the parameter list.
pub open spec fn declaredResult(tokens: Seq<TokenView>) -> Option<TokenType> {
    let at: int = if tokens.len() > 1 && tokens[1].dataType == TokenType::CircleBracketBegin {
        2
    } else {
        1
    };
    if at + 1 < tokens.len() && tokens[at].dataType == TokenType::Pointer && tokens[at
        + 1].dataType != TokenType::Nothing {
        Some(tokens[at + 1].dataType)
    } else {
        None
    }
}

/// The lines from position `i` on that begin with the question mark, one
/// behind the other.
pub open spec fn conditionGroup(lines: Seq<LineView>, i: int) -> Seq<LineView>
    decreases lines.len() - i,
{
    if 0 <= i < lines.len() && lines[i].tokens.len() > 0 && lines[i].tokens[0].dataType
        == TokenType::Question {
        seq![lines[i]] + conditionGroup(lines, i + 1)
    } else {
        Seq::empty()
    }
}

/// A cursor moved on by `n` lines, as far as a cursor can go.
pub open spec fn advanced(lineIndex: usize, n: int) -> usize {
    if lineIndex + n <= usize::MAX {
        (lineIndex + n) as usize
    } else {
        usize::MAX
    }
}

/// The segments of a path, from position `i` on: the runs of bytes between
/// dots and square brackets, empty runs left out.
pub open spec fn segments(path: Seq<u8>, i: int, current: Seq<u8>, done: Seq<Seq<u8>>) -> Seq<
    Seq<u8>,
>
    decreases path.len() - i,
{
    if i < 0 || i >= path.len() {
        if current.len() > 0 {
            done.push(current)
        } else {
            done
        }
    } else if path[i] == DOT || path[i] == LBRACKET || path[i] == RBRACKET {
        if current.len() > 0 {
            segments(path, i + 1, Seq::empty(), done.push(current))
        } else {
            segments(path, i + 1, Seq::empty(), done)
        }
    } else {
        segments(path, i + 1, current.push(path[i]), done)
    }
}

/// The least number that a call of `randUInt` with these arguments can draw:
/// its first argument, or 0 where that is no number.
pub open spec fn drawMin(args: Seq<TokenView>) -> usize {
    match indexOf(args[0]) {
        Some(v) => v,
        None => 0,
    }
}

/// The greatest number that a call of `randUInt` with these arguments can
/// draw: its second argument, or 0 where that is no number.
pub open spec fn drawMax(args: Seq<TokenView>) -> usize {
    match indexOf(args[1]) {
        Some(v) => v,
        None => 0,
    }
}

/// Whether the name is that of a built-in call.
pub open spec fn builtin(name: Seq<u8>) -> bool {
    name == "int".spec_bytes() || name == "str".spec_bytes() || name == "char".spec_bytes() || name
        == "type".spec_bytes() || name == "input".spec_bytes() || name == "randUInt".spec_bytes()
        || name == "println".spec_bytes() || name == "print".spec_bytes() || name
        == "sleep".spec_bytes() || name == "exec".spec_bytes() || name == "exit".spec_bytes()
        || name == "ex".spec_bytes()
}

/// The body of the structure that holds the arguments of the program: one
/// line for each argument, which holds it as a `String`.
pub open spec fn argumentLines(argv: Seq<Seq<u8>>) -> Seq<LineView> {
    Seq::new(argv.len(), |i: int| plainLine(seq![TokenView::literal(TokenType::String, argv[i])]))
}

impl RtsView {
    /// The session with a memory cell as a new member of `scope`. The cell
    /// holds the value that the tokens of its first line evaluate to in
    /// `scope`; a list is taken as it is.
    pub open spec fn cellPushed(self, scope: int, cell: StructureView, depth: nat, oracle: Seq<usize>) -> RtsView {
        if cell.dataType == StructureType::List {
            self.added(StructureView { parent: Some(scope as usize), ..cell }).attached(
                scope,
                self.structures.len() as usize,
            )
        } else {
            let o = self.evaluated(
                scope,
                if cell.lines.len() > 0 {
                    cell.lines[0].tokens
                } else {
                    Seq::empty()
                },
                depth,
                oracle,
            );
            o.state.added(
                StructureView {
                    lines: seq![plainLine(seq![literalOf(o.token)])],
                    parent: Some(scope as usize),
                    ..cell
                },
            ).attached(scope, o.state.structures.len() as usize)
        }
    }

    /// An operation on the memory cell `id`: `=` and the four compound
    /// operators of arithmetic assign as in a linear record; any other
    /// operator leaves the session as it is.
    pub open spec fn cellOperated(
        self,
        scope: int,
        id: int,
        op: TokenType,
        right: Seq<TokenView>,
        depth: nat,
        oracle: Seq<usize>,
    ) -> RtsView {
        if op == TokenType::Equals || op == TokenType::PlusEquals || op == TokenType::MinusEquals
            || op == TokenType::MultiplyEquals || op == TokenType::DivideEquals {
            self.operated(scope, id, op, right, depth, oracle)
        } else {
            self
        }
    }

    /// A line tried as a call: an identifier that begins with a small
    /// letter, with a round bracket behind it. The call is made where the name
    /// is that of a built-in call or resolves from `scope`.
    pub open spec fn lineCalled(self, scope: int, line: LineView, depth: nat, oracle: Seq<usize>) -> Handled {
        if line.tokens.len() > 1 && line.tokens[0].dataType == TokenType::Word
            && line.tokens[1].dataType == TokenType::CircleBracketBegin && payload(
            line.tokens[0],
        ).len() > 0 && 97 <= payload(line.tokens[0])[0] <= 122 && (builtin(payload(line.tokens[0]))
            || self.resolved(scope, payload(line.tokens[0])).is_some()) {
            let args = self.arguments(
                scope,
                splitArguments(line.tokens[1].tokens, 0, Seq::empty(), Seq::empty()),
                0,
                Seq::empty(),
                depth,
                oracle,
            );
            Handled {
                state: args.state.called(scope, payload(line.tokens[0]), args.tokens, depth, oracle).state,
                handled: true,
            }
        } else {
            Handled { state: self, handled: false }
        }
    }

    /// The session made ready to run a program: the lines are the body of
    /// the root, and the root has the members `argc`, the number of
    /// arguments, and `argv`, whose elements are the arguments.
    pub open spec fn prepared(self, lines: Seq<LineView>) -> RtsView {
        let a = self.withLines(0, lines);
        let b = a.added(
            StructureView::plain(
                "argc".spec_bytes(),
                seq![
                    plainLine(
                        seq![TokenView::literal(TokenType::UInt, decimalText(self.argv.len()))],
                    ),
                ],
                Some(0usize),
            ),
        ).attached(0, a.structures.len() as usize);
        b.added(
            StructureView::plain("argv".spec_bytes(), argumentLines(self.argv), Some(0usize)),
        ).attached(0, b.structures.len() as usize)
    }

    /// The session after a program was run: made ready, then the body of the
    /// root run with the nesting that the session allows.
    pub open spec fn parsed(self, lines: Seq<LineView>, oracle: Seq<usize>) -> RtsView {
        self.prepared(lines).ran(0, self.maxDepth as nat, oracle)
    }

    /// Whether a call draws a random number: a call of `randUInt` with two
    /// arguments of which the first is not greater than the second, in a
    /// session that is not paused.
    pub open spec fn draws(self, name: Seq<u8>, args: Seq<TokenView>) -> bool {
        name == "randUInt".spec_bytes() && args.len() > 1 && drawMin(args) <= drawMax(args)
            && !self.paused()
    }

    /// Whether a call runs a structure: one whose name is no built-in call
    /// and resolves from `scope`.
    pub open spec fn calls(self, scope: int, name: Seq<u8>) -> bool {
        !builtin(name) && self.resolved(scope, name).is_some()
    }

    /// The random number that the session draws next between `least` and
    /// `greatest`: the number to draw again, where there is one; else what the
    /// oracle holds at the place of the next draw, or `least` where the oracle
    /// ends before it.
    pub open spec fn nextDraw(self, least: usize, greatest: usize, oracle: Seq<usize>) -> usize {
        match self.replayed(least, greatest) {
            Some(v) => v,
            None => if self.drawn.len() < oracle.len() {
                oracle[self.drawn.len() as int]
            } else {
                least
            },
        }
    }

    /// The session with at most `bound` steps left.
    pub open spec fn capped(self, bound: u64) -> RtsView {
        if self.steps > bound {
            RtsView { steps: bound, ..self }
        } else {
            self
        }
    }

    /// The value of element `i` of structure `id`: what its tokens evaluate to
    /// in the scope of the structure.
    #[verifier::opaque]
    pub open spec fn elementValue(self, id: int, i: int, depth: nat, oracle: Seq<usize>) -> Outcome
        decreases depth, 2nat, 0nat,
    {
        if depth == 0 {
            Outcome { state: self.overflowed(), token: TokenView::none() }
        } else {
            let o = self.evaluated(id, self.elementTokens(id, i), (depth - 1) as nat, oracle);
            Outcome { state: o.state, token: literalOf(o.token) }
        }
    }

    /// The value that a name stands for in `scope`, element `index` of it
    /// where an index expression is given: no value where the name resolves to
    /// nothing or the index is no number.
    #[verifier::opaque]
    pub open spec fn named(
        self,
        scope: int,
        name: Seq<u8>,
        index: Option<Seq<TokenView>>,
        depth: nat,
        oracle: Seq<usize>,
    ) -> Outcome
        decreases depth, 3nat, 0nat,
    {
        match self.resolved(scope, name) {
            None => Outcome { state: self, token: TokenView::none() },
            Some(id) => match index {
                None => self.elementValue(id as int, 0, depth, oracle),
                Some(tokens) => if depth == 0 {
                    Outcome { state: self.overflowed(), token: TokenView::none() }
                } else {
                    let o = self.evaluated(scope, tokens, (depth - 1) as nat, oracle);
                    match indexOf(o.token) {
                        Some(i) => o.state.elementValue(id as int, i as int, depth, oracle),
                        None => Outcome { state: o.state, token: TokenView::none() },
                    }
                },
            },
        }
    }

    /// The value that a path stands for in `scope`.
    #[verifier::opaque]
    pub open spec fn linked(self, scope: int, path: Seq<u8>, depth: nat, oracle: Seq<usize>) -> Outcome
        decreases depth, 3nat, 0nat,
    {
        match self.place(scope, segments(path, 0, Seq::empty(), Seq::empty()), 0, None) {
            Some(p) => self.elementValue(p.id as int, p.element as int, depth, oracle),
            None => Outcome { state: self, token: TokenView::none() },
        }
    }

    /// The values of the argument groups from group `k` on, each evaluated in
    /// `scope`, behind the values `done`.
    #[verifier::opaque]
    pub open spec fn arguments(
        self,
        scope: int,
        groups: Seq<Seq<TokenView>>,
        k: int,
        done: Seq<TokenView>,
        depth: nat,
        oracle: Seq<usize>,
    ) -> Rewrite
        decreases depth, 3nat, groups.len() - k,
    {
        if k < 0 || k >= groups.len() {
            Rewrite { state: self, tokens: done }
        } else if depth == 0 {
            Rewrite { state: self.overflowed(), tokens: done }
        } else {
            let o = self.evaluated(scope, groups[k], (depth - 1) as nat, oracle);
            o.state.arguments(scope, groups, k + 1, done.push(o.token), depth, oracle)
        }
    }

    /// A call of the callable `name` with the argument values `args`.
    ///
    /// `int` and `str` give their argument the kind `Int` or `String`; `char`
    /// gives the byte with the number of its argument; `type` gives the name
    /// of its argument's kind; `input` writes its argument and reads a line
    /// of input, without the white space at its end; `randUInt` gives a
    /// number between its two arguments; `println` and `print` print their
    /// argument as marked-up text; `sleep` pauses; `exec` runs a command;
    /// `exit` halts the run; `ex` writes its own name. Any other name is resolved from `scope`: the
    /// structure is run with its parameters bound to the arguments, and the
    /// call gives what its result slot then holds.
    ///
    /// What `randUInt` draws is no function of the session: the numbers are
    /// taken from `oracle`, which holds the random numbers of the whole run in
    /// the order in which they are drawn.
    #[verifier::opaque]
    pub open spec fn called(self, scope: int, name: Seq<u8>, args: Seq<TokenView>, depth: nat, oracle: Seq<usize>) -> Outcome
        decreases depth, 4nat, 0nat,
    {
        let none = Outcome { state: self, token: TokenView::none() };
        if name == "randUInt".spec_bytes() {
            if self.draws(name, args) {
                Outcome {
                    state: self.drew(self.nextDraw(drawMin(args), drawMax(args), oracle)),
                    token: TokenView::literal(
                        TokenType::UInt,
                        crate::value::integerBytes(self.nextDraw(drawMin(args), drawMax(args), oracle) as int),
                    ),
                }
            } else {
                none
            }
        } else if name == "int".spec_bytes() {
            if args.len() > 0 {
                Outcome {
                    state: self,
                    token: TokenView { dataType: TokenType::Int, ..literalOf(args[0]) },
                }
            } else {
                none
            }
        } else if name == "str".spec_bytes() {
            if args.len() > 0 {
                Outcome {
                    state: self,
                    token: TokenView { dataType: TokenType::String, ..literalOf(args[0]) },
                }
            } else {
                none
            }
        } else if name == "char".spec_bytes() {
            if args.len() > 0 {
                match indexOf(args[0]) {
                    Some(v) => if v <= 255 {
                        Outcome {
                            state: self,
                            token: TokenView::literal(TokenType::Char, seq![v as u8]),
                        }
                    } else {
                        none
                    },
                    None => none,
                }
            } else {
                none
            }
        } else if name == "type".spec_bytes() {
            if args.len() > 0 {
                Outcome {
                    state: self,
                    token: TokenView::literal(TokenType::String, kindName(args[0].dataType)),
                }
            } else {
                none
            }
        } else if name == "input".spec_bytes() {
            let prompted = if args.len() > 0 {
                self.emitted(EffectView::Write(payload(args[0])))
            } else {
                self
            };
            Outcome {
                state: prompted.inputRead(),
                token: TokenView::literal(TokenType::String, trimmedEnd(prompted.nextInput())),
            }
        } else if name == "println".spec_bytes() {
            Outcome {
                state: self.emitted(EffectView::Print(payload(firstOr(args)).push(NEWLINE))),
                token: TokenView::none(),
            }
        } else if name == "print".spec_bytes() {
            Outcome {
                state: self.emitted(EffectView::Print(payload(firstOr(args)))),
                token: TokenView::none(),
            }
        } else if name == "sleep".spec_bytes() {
            let ms = numberOr0(firstOr(args));
            Outcome {
                state: self.emitted(
                    EffectView::Sleep(
                        if 0 <= ms <= u64::MAX {
                            ms as u64
                        } else {
                            0
                        },
                    ),
                ),
                token: TokenView::none(),
            }
        } else if name == "exec".spec_bytes() {
            Outcome {
                state: self.emitted(EffectView::Exec(payload(firstOr(args)))),
                token: TokenView::none(),
            }
        } else if name == "exit".spec_bytes() {
            let code = numberOr0(firstOr(args));
            Outcome {
                state: self.halted(
                    if i32::MIN <= code <= i32::MAX {
                        code as i32
                    } else {
                        0
                    },
                ),
                token: TokenView::none(),
            }
        } else if name == "ex".spec_bytes() {
            Outcome {
                state: self.emitted(EffectView::Write("ex".spec_bytes().push(NEWLINE))),
                token: TokenView::none(),
            }
        } else {
            match self.resolved(scope, name) {
                None => none,
                Some(id) => if depth == 0 {
                    Outcome { state: self.overflowed(), token: TokenView::none() }
                } else {
                    let after = self.bound(id as int, args, 0).ran(id as int, (depth - 1) as nat, oracle);
                    Outcome {
                        state: after,
                        token: match after.structures[id as int].result {
                            Some(r) => literalOf(r),
                            None => TokenView::none(),
                        },
                    }
                },
            }
        }
    }

    /// The first rewrite pass, from position `i` on: an identifier with a
    /// round bracket behind it is a call and becomes, with the bracket, what
    /// the call gives; any other identifier becomes the value it stands for,
    /// with the square bracket behind it as its index; a path becomes the
    /// value it stands for.
    #[verifier::opaque]
    pub open spec fn namesResolved(self, scope: int, tokens: Seq<TokenView>, i: int, depth: nat, oracle: Seq<usize>) -> Rewrite
        decreases depth, 5nat, tokens.len() - i,
    {
        if i < 0 || i >= tokens.len() {
            Rewrite { state: self, tokens }
        } else if tokens[i].dataType == TokenType::Word {
            let name = payload(tokens[i]);
            if i + 1 < tokens.len() && tokens[i + 1].dataType == TokenType::CircleBracketBegin {
                let args = self.arguments(
                    scope,
                    splitArguments(tokens[i + 1].tokens, 0, Seq::empty(), Seq::empty()),
                    0,
                    Seq::empty(),
                    depth,
                    oracle,
                );
                let o = args.state.called(scope, name, args.tokens, depth, oracle);
                o.state.namesResolved(scope, tokens.remove(i + 1).update(i, o.token), i + 1, depth, oracle)
            } else if i + 1 < tokens.len() && tokens[i + 1].dataType
                == TokenType::SquareBracketBegin && self.resolved(scope, name).is_some() {
                let o = self.named(scope, name, Some(tokens[i + 1].tokens), depth, oracle);
                o.state.namesResolved(scope, tokens.remove(i + 1).update(i, o.token), i + 1, depth, oracle)
            } else {
                let o = self.named(scope, name, None, depth, oracle);
                o.state.namesResolved(scope, tokens.update(i, o.token), i + 1, depth, oracle)
            }
        } else if tokens[i].dataType == TokenType::Link {
            let o = self.linked(scope, payload(tokens[i]), depth, oracle);
            o.state.namesResolved(scope, tokens.update(i, o.token), i + 1, depth, oracle)
        } else {
            self.namesResolved(scope, tokens, i + 1, depth, oracle)
        }
    }

    /// The second rewrite pass, from position `i` on: a round bracket becomes
    /// what its nested tokens evaluate to.
    #[verifier::opaque]
    pub open spec fn grouped(self, scope: int, tokens: Seq<TokenView>, i: int, depth: nat, oracle: Seq<usize>) -> Rewrite
        decreases depth, 5nat, tokens.len() - i,
    {
        if i < 0 || i >= tokens.len() {
            Rewrite { state: self, tokens }
        } else if tokens[i].dataType == TokenType::CircleBracketBegin {
            if depth == 0 {
                self.overflowed().grouped(scope, tokens.update(i, TokenView::none()), i + 1, depth, oracle)
            } else {
                let o = self.evaluated(scope, tokens[i].tokens, (depth - 1) as nat, oracle);
                o.state.grouped(scope, tokens.update(i, o.token), i + 1, depth, oracle)
            }
        } else {
            self.grouped(scope, tokens, i + 1, depth, oracle)
        }
    }

    /// The text of a formatted literal with each `{ .. }` span replaced by
    /// the payload of what the span evaluates to, from position `i` on.
    /// `reading` holds inside a span, whose text so far is `buffer`; `out` is
    /// the text so far.
    #[verifier::opaque]
    pub open spec fn formatted(
        self,
        scope: int,
        text: Seq<u8>,
        i: int,
        reading: bool,
        buffer: Seq<u8>,
        out: Seq<u8>,
        depth: nat,
        oracle: Seq<usize>,
    ) -> Interpolation
        decreases depth, 2nat, text.len() - i,
    {
        if i < 0 || i >= text.len() {
            Interpolation { state: self, text: out }
        } else if text[i] == LBRACE {
            self.formatted(scope, text, i + 1, true, buffer, out, depth, oracle)
        } else if text[i] == RBRACE {
            if depth == 0 {
                self.overflowed().formatted(scope, text, i + 1, false, Seq::empty(), out, depth, oracle)
            } else {
                let lines = lineTree(buffer.push(NEWLINE));
                let tokens = if lines.len() > 0 {
                    lines[0].tokens
                } else {
                    Seq::empty()
                };
                let o = self.evaluated(scope, tokens, (depth - 1) as nat, oracle);
                o.state.formatted(
                    scope,
                    text,
                    i + 1,
                    false,
                    Seq::empty(),
                    out + payload(o.token),
                    depth,
                    oracle,
                )
            }
        } else if reading {
            self.formatted(scope, text, i + 1, reading, buffer.push(text[i]), out, depth, oracle)
        } else {
            self.formatted(scope, text, i + 1, reading, buffer, out.push(text[i]), depth, oracle)
        }
    }

    /// What a token sequence evaluates to in `scope`.
    ///
    /// A single token that is no round bracket stands for itself, an
    /// identifier or a path for its value, a formatted literal for its
    /// interpolated text. Any other sequence goes through the rewrite passes:
    /// names and calls, then round brackets, then the three tiers of binary
    /// operators; its value is the first token that is left.
    #[verifier::opaque]
    pub open spec fn evaluated(self, scope: int, tokens: Seq<TokenView>, depth: nat, oracle: Seq<usize>) -> Outcome
        decreases depth, 6nat, 0nat,
    {
        if tokens.len() == 1 && tokens[0].dataType != TokenType::CircleBracketBegin {
            let t = tokens[0];
            if t.dataType == TokenType::Word {
                self.named(scope, payload(t), None, depth, oracle)
            } else if t.dataType == TokenType::Link {
                self.linked(scope, payload(t), depth, oracle)
            } else if t.dataType == TokenType::FormattedString || t.dataType
                == TokenType::FormattedRawString || t.dataType == TokenType::FormattedChar {
                let f = self.formatted(
                    scope,
                    payload(t),
                    0,
                    false,
                    Seq::empty(),
                    Seq::empty(),
                    depth,
                    oracle,
                );
                Outcome { state: f.state, token: TokenView { data: Some(f.text), ..t } }
            } else {
                Outcome { state: self, token: t }
            }
        } else {
            let a = self.namesResolved(scope, tokens, 0, depth, oracle);
            let b = a.state.grouped(scope, a.tokens, 0, depth, oracle);
            Outcome { state: b.state, token: firstOr(reducedAll(b.tokens)) }
        }
    }

    /// An assignment to the structure `id`, which the target of a line names:
    /// `=` stores what the right-hand side evaluates to; a compound operator
    /// stores the result of its operation on the value so far and the
    /// right-hand side; an increment or decrement stores the value so far
    /// plus or minus 1. Any other operator leaves the structure as it is.
    #[verifier::opaque]
    pub open spec fn operated(
        self,
        scope: int,
        id: int,
        op: TokenType,
        right: Seq<TokenView>,
        depth: nat,
        oracle: Seq<usize>,
    ) -> RtsView
        decreases depth, 8nat, 0nat,
    {
        if op == TokenType::Equals {
            let o = self.evaluated(scope, right, depth, oracle);
            o.state.withLines(id, seq![plainLine(seq![literalOf(o.token)])])
        } else if compoundOperator(op).is_some() {
            let before = self.elementValue(id, 0, depth, oracle);
            let o = before.state.evaluated(scope, right, depth, oracle);
            o.state.withLines(
                id,
                seq![
                    plainLine(
                        seq![
                            literalOf(calculated(compoundOperator(op).unwrap(), before.token, o.token)),
                        ],
                    ),
                ],
            )
        } else if stepOperator(op).is_some() {
            let before = self.elementValue(id, 0, depth, oracle);
            before.state.withLines(
                id,
                seq![
                    plainLine(
                        seq![
                            literalOf(
                                calculated(
                                    stepOperator(op).unwrap(),
                                    before.token,
                                    TokenView::literal(TokenType::UInt, "1".spec_bytes()),
                                ),
                            ),
                        ],
                    ),
                ],
            )
        } else {
            self
        }
    }

    /// A linear record: the line assigns to the structure that its first
    /// token names, where the name resolves from `scope`; else it creates a
    /// new member of `scope` that holds the right-hand tokens as its body.
    #[verifier::opaque]
    pub open spec fn assigned(self, scope: int, tokens: Seq<TokenView>, at: int, depth: nat, oracle: Seq<usize>) -> RtsView
        decreases depth, 9nat, 0nat,
    {
        let name = payload(tokens[0]);
        let left = tokens.take(at);
        let right = tokens.skip(at + 1);
        match self.resolved(scope, name) {
            Some(id) => self.operated(scope, id as int, tokens[at].dataType, right, depth, oracle),
            None => self.added(
                StructureView {
                    mutability: declaredMut(left),
                    dataType: declaredType(left),
                    ..StructureView::plain(name, seq![plainLine(right)], Some(scope as usize))
                },
            ).attached(scope, self.structures.len() as usize),
        }
    }

    /// The session with the structure that a declaration line declares: a
    /// new member of `scope` with the nested lines as its body, with one
    /// parameter for each name in the parameter list and with a result slot
    /// where the line names a result kind.
    pub open spec fn declaring(self, scope: int, line: LineView) -> RtsView {
        let id = self.structures.len() as usize;
        let names = if line.tokens.len() > 1 && line.tokens[1].dataType
            == TokenType::CircleBracketBegin {
            parameterNames(line.tokens[1].tokens, 0, Seq::empty())
        } else {
            Seq::empty()
        };
        self.added(
            StructureView {
                result: match declaredResult(line.tokens) {
                    Some(kind) => Some(TokenView::empty(kind)),
                    None => None,
                },
                ..StructureView::plain(payload(line.tokens[0]), line.lines, Some(scope as usize))
            },
        ).withParameters(id as int, names, 0).attached(scope, id)
    }

    /// A declaration: the structure that the line declares becomes a member
    /// of `scope`, and its body is run at once.
    #[verifier::opaque]
    pub open spec fn declared(self, scope: int, line: LineView, depth: nat, oracle: Seq<usize>) -> RtsView
        decreases depth, 9nat, 0nat,
    {
        if depth == 0 {
            self.declaring(scope, line).overflowed()
        } else {
            self.declaring(scope, line).ran(
                self.structures.len() as int,
                (depth - 1) as nat,
                oracle,
            )
        }
    }

    /// The body `lines` run in a scope of its own, which is no member of
    /// `scope` but has it as its enclosing scope.
    #[verifier::opaque]
    pub open spec fn blockRun(self, scope: int, name: Seq<u8>, lines: Seq<LineView>, depth: nat, oracle: Seq<usize>) -> RtsView
        decreases depth, 7nat, 0nat,
    {
        if depth == 0 {
            self.overflowed()
        } else {
            self.added(StructureView::plain(name, lines, Some(scope as usize))).ran(
                self.structures.len() as int,
                (depth - 1) as nat,
                oracle,
            )
        }
    }

    /// The lines of a conditional group from line `k` on: the block of the
    /// first line whose guard evaluates to true is run, and no other; a line
    /// with no guard is an else, whose block is run when it is reached.
    #[verifier::opaque]
    pub open spec fn branched(self, scope: int, group: Seq<LineView>, k: int, depth: nat, oracle: Seq<usize>) -> RtsView
        decreases depth, 8nat, group.len() - k,
    {
        if k < 0 || k >= group.len() {
            self
        } else if group[k].tokens.len() > 1 {
            let o = self.evaluated(scope, group[k].tokens.skip(1), depth, oracle);
            if o.token.data == Some("1".spec_bytes()) {
                o.state.blockRun(scope, "if-elif".spec_bytes(), group[k].lines, depth, oracle)
            } else {
                o.state.branched(scope, group, k + 1, depth, oracle)
            }
        } else {
            self.blockRun(scope, "else".spec_bytes(), group[k].lines, depth, oracle)
        }
    }

    /// A conditional group: the lines of `scope` that begin with the question
    /// mark, from the cursor on. At most one of their blocks is run, and the
    /// cursor moves to the last line of the group.
    #[verifier::opaque]
    pub open spec fn conditional(self, scope: int, depth: nat, oracle: Seq<usize>) -> RtsView
        decreases depth, 9nat, 0nat,
    {
        let group = conditionGroup(
            self.structures[scope].lines,
            self.structures[scope].lineIndex as int,
        );
        let after = self.branched(scope, group, 0, depth, oracle);
        if scope < after.structures.len() && group.len() > 0 {
            after.withLineIndex(
                scope,
                advanced(after.structures[scope].lineIndex, group.len() - 1),
            )
        } else {
            after
        }
    }

    /// A line tried as a structure: a declaration where it begins with an
    /// identifier and has nested lines; a linear record where it begins with
    /// an identifier, has no nested lines and holds an assignment operator
    /// behind its first token; a conditional group where it begins with the
    /// question mark and has nested lines.
    #[verifier::opaque]
    pub open spec fn structureSearched(self, scope: int, line: LineView, depth: nat, oracle: Seq<usize>) -> Handled
        decreases depth, 10nat, 0nat,
    {
        let first = line.tokens[0];
        if first.dataType == TokenType::Word {
            if line.lines.len() > 0 {
                if first.data.is_some() {
                    Handled { state: self.declared(scope, line, depth, oracle), handled: true }
                } else {
                    Handled { state: self, handled: false }
                }
            } else {
                match operatorPosition(line.tokens, 0) {
                    Some(at) => if at >= 1 && first.data.is_some() {
                        Handled { state: self.assigned(scope, line.tokens, at, depth, oracle), handled: true }
                    } else {
                        Handled { state: self, handled: false }
                    },
                    None => Handled { state: self, handled: false },
                }
            }
        } else if first.dataType == TokenType::Question && line.lines.len() > 0 {
            Handled { state: self.conditional(scope, depth, oracle), handled: true }
        } else {
            Handled { state: self, handled: false }
        }
    }

    /// A line tried as a return: where it begins with `=`, what follows is
    /// evaluated and stored in the result slot of structure `id`, whose kind
    /// stays where the slot was declared.
    #[verifier::opaque]
    pub open spec fn returnSearched(self, id: int, line: LineView, depth: nat, oracle: Seq<usize>) -> Handled
        decreases depth, 9nat, 0nat,
    {
        if line.tokens[0].dataType == TokenType::Equals {
            let o = self.evaluated(id, line.tokens.skip(1), depth, oracle);
            Handled {
                state: if id < o.state.structures.len() {
                    o.state.withResult(
                        id,
                        match o.state.structures[id].result {
                            Some(slot) => Some(TokenView { data: o.token.data, ..slot }),
                            None => Some(o.token),
                        },
                    )
                } else {
                    o.state
                },
                handled: true,
            }
        } else {
            Handled { state: self, handled: false }
        }
    }

    /// One line of the body of structure `id` run: as a structure, else as a
    /// return, else as an expression for its effect.
    #[verifier::opaque]
    pub open spec fn lineRun(self, id: int, line: LineView, depth: nat, oracle: Seq<usize>) -> RtsView
        decreases depth, 11nat, 0nat,
    {
        let s = self.structureSearched(id, line, depth, oracle);
        if s.handled {
            s.state
        } else {
            let r = s.state.returnSearched(id, line, depth, oracle);
            if r.handled {
                r.state
            } else {
                r.state.evaluated(id, line.tokens, depth, oracle).state
            }
        }
    }

    /// The body of structure `id` run from its cursor on, until the cursor
    /// leaves the body or the run is halted; then the cursor is back at 0.
    /// Each line takes one step; with no step left the run halts for
    /// exceeding its limit. A line without tokens is passed over. After each
    /// line the cursor moves on by one.
    #[verifier::opaque]
    pub open spec fn ran(self, id: int, depth: nat, oracle: Seq<usize>) -> RtsView
        decreases depth, 12nat, self.steps,
    {
        if !self.has(id) {
            self
        } else if self.exit || self.structures[id].lineIndex >= self.structures[id].lines.len() {
            self.withLineIndex(id, 0)
        } else if self.steps == 0 {
            self.overflowed().withLineIndex(id, 0)
        } else {
            let line = self.structures[id].lines[self.structures[id].lineIndex as int];
            let after = if line.tokens.len() == 0 {
                self.stepped()
            } else {
                self.stepped().lineRun(id, line, depth, oracle)
            };
            if id < after.structures.len() {
                after.withLineIndex(id, advanced(after.structures[id].lineIndex, 1)).capped(
                    (self.steps - 1) as u64,
                ).ran(id, depth, oracle)
            } else {
                after
            }
        }
    }
}

/// The line of a conditional group whose block is run, from line `k` on:
/// the first line whose guard evaluates to true or that has no guard.
pub open spec fn chosenBranch(
    s: RtsView,
    scope: int,
    group: Seq<LineView>,
    k: int,
    depth: nat,
    oracle: Seq<usize>,
) -> Option<int>
    decreases group.len() - k,
{
    if k < 0 || k >= group.len() {
        None
    } else if group[k].tokens.len() > 1 {
        let o = s.evaluated(scope, group[k].tokens.skip(1), depth, oracle);
        if o.token.data == Some("1".spec_bytes()) {
            Some(k)
        } else {
            chosenBranch(o.state, scope, group, k + 1, depth, oracle)
        }
    } else {
        Some(k)
    }
}

/// The session after the guards of a conditional group were evaluated, from
/// line `k` up to the line whose block is run.
pub open spec fn guardsEvaluated(
    s: RtsView,
    scope: int,
    group: Seq<LineView>,
    k: int,
    depth: nat,
    oracle: Seq<usize>,
) -> RtsView
    decreases group.len() - k,
{
    if k < 0 || k >= group.len() {
        s
    } else if group[k].tokens.len() > 1 {
        let o = s.evaluated(scope, group[k].tokens.skip(1), depth, oracle);
        if o.token.data == Some("1".spec_bytes()) {
            o.state
        } else {
            guardsEvaluated(o.state, scope, group, k + 1, depth, oracle)
        }
    } else {
        s
    }
}

/// The name of the scope in which the block of a line of a conditional
/// group is run.
pub open spec fn branchName(line: LineView) -> Seq<u8> {
    if line.tokens.len() > 1 {
        "if-elif".spec_bytes()
    } else {
        "else".spec_bytes()
    }
}

/// Of a conditional group at most one block is run. The guards are
/// evaluated in their order up to the first that is true, or up to the first
/// line without a guard; the block of that line is run once, and no other.
/// Where no guard is true and no line is without a guard, no block is run.
#[verifier::spinoff_prover]
pub proof fn lemma_conditional_exclusive(
    s: RtsView,
    scope: int,
    group: Seq<LineView>,
    k: int,
    depth: nat,
    oracle: Seq<usize>,
)
    requires
        0 <= k,
    ensures
        s.branched(scope, group, k, depth, oracle) == match chosenBranch(s, scope, group, k, depth, oracle) {
            Some(j) => guardsEvaluated(s, scope, group, k, depth, oracle).blockRun(
                scope,
                branchName(group[j]),
                group[j].lines,
                depth,
                oracle,
            ),
            None => guardsEvaluated(s, scope, group, k, depth, oracle),
        },
    decreases group.len() - k,
{
    reveal_with_fuel(RtsView::branched, 1);
    if k < group.len() && group[k].tokens.len() > 1 {
        let o = s.evaluated(scope, group[k].tokens.skip(1), depth, oracle);
        if o.token.data != Some("1".spec_bytes()) {
            lemma_conditional_exclusive(o.state, scope, group, k + 1, depth, oracle);
        }
    }
}

/// A conditional group moves the cursor of its scope over all its lines but
/// the last, whichever block is run and also where none is.
#[verifier::spinoff_prover]
pub proof fn lemma_conditional_skips(s: RtsView, scope: int, depth: nat, oracle: Seq<usize>)
    requires
        s.has(scope),
    ensures
        ({
            let group = conditionGroup(s.node(scope).lines, s.node(scope).lineIndex as int);
            let after = s.branched(scope, group, 0, depth, oracle);
            after.has(scope) && group.len() > 0 ==> s.conditional(scope, depth, oracle).node(
                scope,
            ).lineIndex == advanced(after.node(scope).lineIndex, group.len() - 1)
        }),
{
    reveal_with_fuel(RtsView::conditional, 1);
}

/// A run leaves the cursor of the structure at 0, however it ends: at the
/// end of the body, at a halt or at a limit. So a body that was run can be
/// run again from its first line.
#[verifier::spinoff_prover]
pub proof fn lemma_run_resets_cursor(s: RtsView, id: int, depth: nat, oracle: Seq<usize>)
    requires
        s.has(id),
    ensures
        s.ran(id, depth, oracle).has(id) ==> s.ran(id, depth, oracle).node(id).lineIndex == 0,
    decreases s.steps,
{
    reveal_with_fuel(RtsView::ran, 1);
    if s.exit || s.structures[id].lineIndex >= s.structures[id].lines.len() {
    } else if s.steps == 0 {
    } else {
        let line = s.structures[id].lines[s.structures[id].lineIndex as int];
        let after = if line.tokens.len() == 0 {
            s.stepped()
        } else {
            s.stepped().lineRun(id, line, depth, oracle)
        };
        if id < after.structures.len() {
            let next = after.withLineIndex(id, advanced(after.structures[id].lineIndex, 1)).capped(
                (s.steps - 1) as u64,
            );
            lemma_run_resets_cursor(next, id, depth, oracle);
        }
    }
}

/// A declaration in an inner scope hides an outer binding of its name and
/// leaves it as it is. In the session in which the body of the new structure
/// is then run, the name resolves from the declaring scope to the new
/// structure, which holds the nested lines as its body; every structure that
/// was there before but the declaring scope is as it was; and from every scope
/// that the declaring scope neither is nor encloses, every name resolves to
/// what it resolved to before.
#[verifier::spinoff_prover]
pub proof fn lemma_declaration_shadows(
    s: RtsView,
    scope: int,
    line: LineView,
    outer: int,
    name: Seq<u8>,
)
    requires
        s.wf(),
        s.has(scope),
        s.has(outer),
        !encloses(s, scope, outer),
        line.tokens.len() > 0,
        s.structures.len() <= usize::MAX,
    ensures
        s.declaring(scope, line).resolved(scope, payload(line.tokens[0])) == Some(
            s.structures.len() as usize,
        ),
        s.declaring(scope, line).node(s.structures.len() as int).name == payload(line.tokens[0]),
        s.declaring(scope, line).node(s.structures.len() as int).lines == line.lines,
        s.declaring(scope, line).node(s.structures.len() as int).parent == Some(scope as usize),
        forall|other: int|
            0 <= other < s.structures.len() && other != scope ==> #[trigger] s.declaring(
                scope,
                line,
            ).node(other) == s.node(other),
        s.declaring(scope, line).resolved(outer, name) == s.resolved(outer, name),
{
    let id = s.structures.len() as int;
    let names = if line.tokens.len() > 1 && line.tokens[1].dataType
        == TokenType::CircleBracketBegin {
        parameterNames(line.tokens[1].tokens, 0, Seq::empty())
    } else {
        Seq::empty()
    };
    let node = StructureView {
        result: match declaredResult(line.tokens) {
            Some(kind) => Some(TokenView::empty(kind)),
            None => None,
        },
        ..StructureView::plain(payload(line.tokens[0]), line.lines, Some(scope as usize))
    };
    let first = s.added(node);
    lemma_added_keeps(s, node);
    lemma_parameters_keep(first, id, names, 0);
    let second = first.withParameters(id, names, 0);
    lemma_attached_member(second, scope, id as usize);
    let made = second.attached(scope, id as usize);
    assert(made == s.declaring(scope, line));
    assert(keeps(s, made, scope)) by {
        assert forall|i: int| 0 <= i < s.structures.len() && i != scope implies #[trigger] made.structures[i]
            == s.structures[i] by {
            assert(second.structures[i] == first.structures[i]);
            assert(first.structures[i] == s.structures[i]);
        }
        assert(second.structures[scope] == first.structures[scope]);
        assert(first.structures[scope] == s.structures[scope]);
    }
    assert(made.structures[id] == second.structures[id]);
    lemma_resolution_stays(s, made, scope, outer, name);
}

} // verus!
