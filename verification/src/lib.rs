//! A tree-walking interpreter for a small indentation-delimited scripting
//! language: source bytes are lexed into lines of tokens, brackets and
//! indentation are nested into a tree, and the tree is executed directly
//! against a lexically scoped tree of structures.
#![allow(non_snake_case)]
#![allow(non_camel_case_types)]
#![allow(non_upper_case_globals)]
#![allow(unused_imports)]

pub mod token;
pub mod line;
pub mod tokenizer;
pub mod nesting;
pub mod value;
pub mod number;
pub mod structure;
pub mod semantics;
pub mod rewrite;
pub mod parser;
pub mod method;
pub mod logger;
pub mod output;

use vstd::prelude::*;
use vstd::string::*;
use crate::token::{Token, tokensView};
use crate::line::linesView;
use crate::structure::{
    Effect, RtsView, Structure, StructureMut, StructureType, grows, follows, newLine, textsView,
    effectsView, beginsWith, lemma_root,
};
use crate::tokenizer::{readTokens, lineTree};
use crate::parser::parseLines;

pub use crate::structure::RTS;

verus! {

impl RTS {
    /// Adds a binding to the namespace of the session: a structure with the
    /// given name, mutability and type whose body is one line of the given
    /// tokens.
    pub fn newStructure(
        &mut self,
        structureName: String,
        structureMut: StructureMut,
        structureType: StructureType,
        structureTokens: Vec<Token>,
    )
        requires
            old(self).wf(),
        ensures
            final(self).wf(),
            final(self)@ == old(self)@.registered(
                vstd::utf8::encode_utf8(structureName@),
                structureMut,
                structureType,
                tokensView(structureTokens@),
            ),
    {
        proof {
            lemma_root(self@);
        }
        let namespace = self.namespaceName();
        match self.getStructureByName(0, &namespace) {
            Some(found) => {
                let mut lines = Vec::new();
                let line = newLine(structureTokens);
                proof {
                    crate::line::lemma_linesView_push(lines@, line);
                }
                lines.push(line);
                assert(linesView(lines@) =~= seq![line@]);
                let mut structure = Structure::new(
                    structureName.as_str().as_bytes_vec(),
                    lines,
                    Some(found),
                );
                structure.mutability = structureMut;
                structure.dataType = structureType;
                let id = self.addStructure(structure);
                self.pushStructure(found, id);
            },
            None => {},
        }
    }

    /// Runs a script: reads it into its tree of lines and runs that as the
    /// body of the root. The session afterwards is exactly what the meaning
    /// of the program says, with the random numbers that the run drew as its
    /// oracle.
    pub fn run(&mut self, script: &str)
        requires
            old(self).wf(),
        ensures
            grows(old(self)@, final(self)@),
            forall|oracle: Seq<usize>|
                #![trigger old(self)@.parsed(lineTree(script.spec_bytes()), oracle)]
                follows(final(self)@.drawn, oracle) ==> final(self)@ == old(self)@.parsed(
                    lineTree(script.spec_bytes()),
                    oracle,
                ),
    {
        let buffer = script.as_bytes_vec();
        parseLines(self, readTokens(buffer));
    }

    /// One turn of a run that is taken in turns with the world outside.
    ///
    /// The program is run from a new session that holds all the lines of
    /// input that have come so far and, to be drawn again, the numbers drawn
    /// in the turns before. The run goes up to the end of the program, up to
    /// a call of `input` for which no line is there while more can come, or
    /// up to the effect with which the output holds `effectLimit` effects.
    /// `pause` in the session returned says which. The host performs the
    /// effects that are new, fetches the line that is asked for, and takes the
    /// next turn.
    ///
    /// `done` are the effects that the host has performed in the turns
    /// before. The flag returned says whether the output of this turn begins
    /// with them; only then do the effects behind them continue what was
    /// done.
    pub fn turn(
        name: String,
        argv: Vec<Vec<u8>>,
        script: Vec<u8>,
        input: Vec<Vec<u8>>,
        inputOpen: bool,
        replay: Vec<usize>,
        effectLimit: usize,
        done: &Vec<Effect>,
    ) -> (r: (RTS, bool))
        ensures
            r.0.wf(),
            forall|oracle: Seq<usize>|
                #![trigger turnStart(vstd::utf8::encode_utf8(name@), textsView(argv@), textsView(input@), inputOpen, replay@, effectLimit).parsed(lineTree(script@), oracle)]
                follows(r.0@.drawn, oracle) ==> r.0@ == turnStart(
                    vstd::utf8::encode_utf8(name@),
                    textsView(argv@),
                    textsView(input@),
                    inputOpen,
                    replay@,
                    effectLimit,
                ).parsed(lineTree(script@), oracle),
            r.1 == beginsWith(r.0@.output, effectsView(done@)),
    {
        let mut rts = RTS::new(name);
        rts.setArguments(argv);
        rts.setInput(input);
        rts.expectInput(inputOpen);
        rts.setReplay(replay);
        rts.setEffectLimit(effectLimit);
        parseLines(&mut rts, readTokens(script));
        let same = rts.continues(done);
        (rts, same)
    }
}

/// The session from which a turn of a run starts: a new session with the
/// arguments of the program, the input so far, whether more input can come,
/// the numbers to draw again and the number of effects at which to pause.
pub open spec fn turnStart(
    name: Seq<u8>,
    argv: Seq<Seq<u8>>,
    input: Seq<Seq<u8>>,
    inputOpen: bool,
    replay: Seq<usize>,
    effectLimit: usize,
) -> RtsView {
    RtsView { argv, input, inputOpen, replay, effectLimit, ..RtsView::fresh(name) }
}

} // verus!
