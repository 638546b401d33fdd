//! Methods: handles on the structures of a session, through which a host
//! resolves names, keeps memory cells and evaluates expressions in a scope.
use vstd::prelude::*;
use vstd::string::*;
use crate::token::{Token, TokenType, tokensView, copyTokens, lemma_nested_view};
use crate::line::{Line, linesView, lemma_nested_lines};
use crate::structure::{RTS, Structure, StructureType, StructureView, grows, follows, valueBody};
use crate::semantics::{Outcome, Handled, builtin};
use crate::rewrite::{literal, nestedOf, payloadOf, pushToken, splitTokens};
use crate::tokenizer::sameText;
use crate::parser::{expression, getExpressionParameters, methodCall, structureOp};

verus! {

/// A handle on a structure of a session, seen as a scope.
#[derive(Clone, Copy, Debug, PartialEq, Eq, Structural)]
pub struct Method {
    pub id: usize,
}

/// The structure that a handle names, if any.
pub open spec fn handleView(method: Option<Method>) -> Option<usize> {
    match method {
        Some(m) => Some(m.id),
        None => None,
    }
}

/// Whether the name is that of a built-in call.
fn isBuiltin(name: &Vec<u8>) -> (r: bool)
    ensures
        r == builtin(name@),
{
    sameText(name, "int") || sameText(name, "str") || sameText(name, "char") || sameText(
        name,
        "type",
    ) || sameText(name, "input") || sameText(name, "randUInt") || sameText(name, "println")
        || sameText(name, "print") || sameText(name, "sleep") || sameText(name, "exec")
        || sameText(name, "exit") || sameText(name, "ex")
}

impl Method {
    /// Creates a structure with the given name and body below `parent`, and
    /// returns the handle on it. The structure is no member of its parent
    /// yet.
    pub fn new(rts: &mut RTS, name: String, lines: Vec<Line>, parent: Option<Method>) -> (r: Method)
        requires
            old(rts).wf(),
            match parent {
                Some(p) => old(rts)@.has(p.id as int),
                None => true,
            },
        ensures
            final(rts).wf(),
            r.id == old(rts)@.structures.len(),
            final(rts)@ == old(rts)@.added(
                StructureView::plain(
                    vstd::utf8::encode_utf8(name@),
                    linesView(lines@),
                    handleView(parent),
                ),
            ),
    {
        let above: Option<usize> = match parent {
            Some(p) => Some(p.id),
            None => None,
        };
        let id = rts.addStructure(Structure::new(name.as_str().as_bytes_vec(), lines, above));
        Method { id }
    }

    /// Resolves the name of a method from this scope: among the members of
    /// the scope, then among those of each enclosing scope.
    pub fn getMethodByName(&self, rts: &RTS, name: &str) -> (r: Option<Method>)
        requires
            rts.wf(),
            rts@.has(self.id as int),
        ensures
            handleView(r) == rts@.resolved(self.id as int, name.spec_bytes()),
            match r {
                Some(m) => rts@.has(m.id as int),
                None => true,
            },
    {
        match rts.getStructureByName(self.id, &name.as_bytes_vec()) {
            Some(id) => Some(Method { id }),
            None => None,
        }
    }

    /// Adds a memory cell to this scope. The cell holds the value of its
    /// first line, evaluated now; a list is taken as it is.
    pub fn pushMemoryCell(&self, rts: &mut RTS, memoryCell: Structure)
        requires
            old(rts).wf(),
            old(rts)@.has(self.id as int),
            memoryCell@.structures.len() == 0,
        ensures
            grows(old(rts)@, final(rts)@),
            forall|oracle: Seq<usize>|
                #![trigger old(rts)@.cellPushed(self.id as int, memoryCell@, old(rts)@.maxDepth as nat, oracle)]
                follows(final(rts)@.drawn, oracle) ==> final(rts)@ == old(rts)@.cellPushed(
                    self.id as int,
                    memoryCell@,
                    old(rts)@.maxDepth as nat,
                    oracle,
                ),
    {
        let mut cell = memoryCell;
        if cell.dataType != StructureType::List {
            let tokens: Vec<Token> = if cell.lines.len() > 0 {
                proof {
                    lemma_nested_lines(cell.lines@[0]);
                }
                copyTokens(&cell.lines[0].tokens)
            } else {
                Vec::new()
            };
            assert(tokensView(tokens@) =~= if cell@.lines.len() > 0 {
                cell@.lines[0].tokens
            } else {
                Seq::empty()
            });
            let depth: usize = rts.depthLimit();
            let value = expression(rts, self.id, tokens, depth);
            cell.lines = valueBody(literal(&value));
        }
        cell.parent = Some(self.id);
        let id = rts.addStructure(cell);
        rts.pushStructure(self.id, id);
    }

    /// Resolves the name of a memory cell from this scope.
    pub fn getMemoryCellByName(&self, rts: &RTS, memoryCellName: &str) -> (r: Option<usize>)
        requires
            rts.wf(),
            rts@.has(self.id as int),
        ensures
            r == rts@.resolved(self.id as int, memoryCellName.spec_bytes()),
            match r {
                Some(id) => rts@.has(id as int),
                None => true,
            },
    {
        rts.getStructureByName(self.id, &memoryCellName.as_bytes_vec())
    }

    /// Applies `=`, `+=`, `-=`, `*=` or `/=` to a memory cell, with the nested
    /// tokens of `opValue` as the right-hand side.
    pub fn memoryCellOp(&self, rts: &mut RTS, memoryCellLink: usize, op: TokenType, opValue: Token)
        requires
            old(rts).wf(),
            old(rts)@.has(self.id as int),
            old(rts)@.has(memoryCellLink as int),
        ensures
            grows(old(rts)@, final(rts)@),
            forall|oracle: Seq<usize>|
                #![trigger old(rts)@.cellOperated(self.id as int, memoryCellLink as int, op, opValue@.tokens, old(rts)@.maxDepth as nat, oracle)]
                follows(final(rts)@.drawn, oracle) ==> final(rts)@ == old(rts)@.cellOperated(
                    self.id as int,
                    memoryCellLink as int,
                    op,
                    opValue@.tokens,
                    old(rts)@.maxDepth as nat,
                    oracle,
                ),
    {
        if op == TokenType::Equals || op == TokenType::PlusEquals || op == TokenType::MinusEquals
            || op == TokenType::MultiplyEquals || op == TokenType::DivideEquals {
            let depth: usize = rts.depthLimit();
            structureOp(rts, self.id, memoryCellLink, op, nestedOf(opValue), depth);
        }
    }

    /// Evaluates a token sequence in this scope. Afterwards the sequence
    /// holds the one token that it evaluated to.
    pub fn memoryCellExpression(&self, rts: &mut RTS, value: &mut Vec<Token>) -> (r: Token)
        requires
            old(rts).wf(),
            old(rts)@.has(self.id as int),
        ensures
            grows(old(rts)@, final(rts)@),
            forall|oracle: Seq<usize>|
                #![trigger old(rts)@.evaluated(self.id as int, tokensView(old(value)@), old(rts)@.maxDepth as nat, oracle)]
                follows(final(rts)@.drawn, oracle) ==> (Outcome { state: final(rts)@, token: r@ })
                    == old(rts)@.evaluated(
                    self.id as int,
                    tokensView(old(value)@),
                    old(rts)@.maxDepth as nat,
                    oracle,
                ),
            tokensView(final(value)@) == seq![r@],
    {
        let mut tokens: Vec<Token> = Vec::new();
        std::mem::swap(&mut tokens, value);
        let depth: usize = rts.depthLimit();
        let r = expression(rts, self.id, tokens, depth);
        pushToken(value, r.copy());
        assert(tokensView(value@) =~= seq![r@]);
        r
    }

    /// Tries a line as a call in this scope. Says whether the call was made.
    pub fn methodCall(&self, rts: &mut RTS, lineLink: &Line) -> (r: bool)
        requires
            old(rts).wf(),
            old(rts)@.has(self.id as int),
        ensures
            grows(old(rts)@, final(rts)@),
            forall|oracle: Seq<usize>|
                #![trigger old(rts)@.lineCalled(self.id as int, lineLink@, old(rts)@.maxDepth as nat, oracle)]
                follows(final(rts)@.drawn, oracle) ==> (Handled { state: final(rts)@, handled: r })
                    == old(rts)@.lineCalled(self.id as int, lineLink@, old(rts)@.maxDepth as nat, oracle),
    {
        proof {
            lemma_nested_lines(*lineLink);
        }
        if lineLink.tokens.len() > 1 && lineLink.tokens[0].dataType == TokenType::Word
            && lineLink.tokens[1].dataType == TokenType::CircleBracketBegin {
            let name = payloadOf(&lineLink.tokens[0]);
            if name.len() > 0 && 97 <= name[0] && name[0] <= 122 && (isBuiltin(&name)
                || rts.getStructureByName(self.id, &name).is_some()) {
                proof {
                    lemma_nested_view(lineLink.tokens@[1]);
                }
                let depth: usize = rts.depthLimit();
                let groups = splitTokens(&lineLink.tokens[1].tokens);
                let args = getExpressionParameters(rts, self.id, &groups, depth);
                let _ = methodCall(rts, self.id, &name, &args, depth);
                return true;
            }
        }
        false
    }
}

} // verus!
