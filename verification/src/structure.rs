//! The structure tree: the named, lexically scoped nodes of a program, kept in
//! one arena and addressed by index.
use vstd::prelude::*;
use vstd::string::*;
use crate::token::{
    Token, TokenView, tokensView, copyBytes, copyTokens, sameBytes, lemma_tokensView_push,
};
use crate::line::{Line, LineView, linesView, lemma_linesView_push};
use crate::value::{integerValue, parseInteger, wholeNumber};
use crate::rewrite::{namesView, isWholeNumber};

verus! {

/// Whether a binding is declared as constant or as variable.
#[derive(Clone, Copy, Debug, PartialEq, Eq, Structural)]
pub enum StructureMut {
    Constant,
    Variable,
}

/// The declared type of a structure.
#[derive(Clone, Copy, Debug, PartialEq, Eq, Structural)]
pub enum StructureType {
    /// Not declared.
    Unset,
    UInt,
    Int,
    UFloat,
    Float,
    Rational,
    Bool,
    Char,
    String,
    RawString,
    /// A namespace or container.
    List,
}

/// A named node of the program: a value, a namespace or a callable.
///
/// For a value the body is its initializer, one line per element. For a
/// namespace or a callable the body is its block. A structure with a result
/// slot is a function. `structures` are its members, the first `parameters` of
/// them its declared parameters; `parent` is the enclosing scope. `lineIndex`
/// is the next line of the body to run.
#[derive(Debug, PartialEq, Eq)]
pub struct Structure {
    pub name: Vec<u8>,
    pub mutability: StructureMut,
    pub dataType: StructureType,
    pub lines: Vec<Line>,
    pub result: Option<Token>,
    pub structures: Vec<usize>,
    pub parameters: usize,
    pub parent: Option<usize>,
    pub lineIndex: usize,
}

/// The mathematical value of a [`Structure`].
pub struct StructureView {
    pub name: Seq<u8>,
    pub mutability: StructureMut,
    pub dataType: StructureType,
    pub lines: Seq<LineView>,
    pub result: Option<TokenView>,
    pub structures: Seq<usize>,
    pub parameters: usize,
    pub parent: Option<usize>,
    pub lineIndex: usize,
}

/// The value of an optional token.
pub open spec fn resultView(result: Option<Token>) -> Option<TokenView> {
    match result {
        Some(t) => Some(t@),
        None => None,
    }
}

impl View for Structure {
    type V = StructureView;

    open spec fn view(&self) -> StructureView {
        StructureView {
            name: self.name@,
            mutability: self.mutability,
            dataType: self.dataType,
            lines: linesView(self.lines@),
            result: resultView(self.result),
            structures: self.structures@,
            parameters: self.parameters,
            parent: self.parent,
            lineIndex: self.lineIndex,
        }
    }
}

impl StructureView {
    /// A structure with the given name, body and enclosing scope, with nothing
    /// else declared.
    pub open spec fn plain(name: Seq<u8>, lines: Seq<LineView>, parent: Option<usize>) -> StructureView {
        StructureView {
            name,
            mutability: StructureMut::Variable,
            dataType: StructureType::Unset,
            lines,
            result: None,
            structures: Seq::empty(),
            parameters: 0,
            parent,
            lineIndex: 0,
        }
    }
}

impl Structure {
    /// A structure with the given name, body and enclosing scope.
    pub fn new(name: Vec<u8>, lines: Vec<Line>, parent: Option<usize>) -> (r: Structure)
        ensures
            r@ == StructureView::plain(name@, linesView(lines@), parent),
            r.parent == parent,
            r.structures@.len() == 0,
    {
        Structure {
            name,
            mutability: StructureMut::Variable,
            dataType: StructureType::Unset,
            lines,
            result: None,
            structures: Vec::new(),
            parameters: 0,
            parent,
            lineIndex: 0,
        }
    }
}

/// Something the program did to the world outside: marked-up text to print,
/// plain text to write, a pause in milliseconds, or a command to run.
#[derive(Clone, Debug, PartialEq, Eq)]
pub enum Effect {
    Print(Vec<u8>),
    Write(Vec<u8>),
    Sleep(u64),
    Exec(Vec<u8>),
}

/// The mathematical value of an [`Effect`].
pub enum EffectView {
    Print(Seq<u8>),
    Write(Seq<u8>),
    Sleep(u64),
    Exec(Seq<u8>),
}

impl View for Effect {
    type V = EffectView;

    open spec fn view(&self) -> EffectView {
        match self {
            Effect::Print(text) => EffectView::Print(text@),
            Effect::Write(text) => EffectView::Write(text@),
            Effect::Sleep(ms) => EffectView::Sleep(*ms),
            Effect::Exec(command) => EffectView::Exec(command@),
        }
    }
}

/// Whether two effects are the same.
pub fn sameEffect(a: &Effect, b: &Effect) -> (r: bool)
    ensures
        r == (a@ == b@),
{
    match (a, b) {
        (Effect::Print(x), Effect::Print(y)) => sameBytes(x, y),
        (Effect::Write(x), Effect::Write(y)) => sameBytes(x, y),
        (Effect::Sleep(x), Effect::Sleep(y)) => *x == *y,
        (Effect::Exec(x), Effect::Exec(y)) => sameBytes(x, y),
        _ => false,
    }
}

/// Whether a sequence of effects begins with the effects `done`, in their
/// order.
pub open spec fn beginsWith(output: Seq<EffectView>, done: Seq<EffectView>) -> bool {
    &&& done.len() <= output.len()
    &&& forall|i: int| 0 <= i < done.len() ==> #[trigger] output[i] == done[i]
}

/// Whether the output begins with the effects that were performed before.
pub fn repeats(output: &Vec<Effect>, done: &Vec<Effect>) -> (r: bool)
    ensures
        r == beginsWith(effectsView(output@), effectsView(done@)),
{
    if done.len() > output.len() {
        return false;
    }
    let mut i: usize = 0;
    while i < done.len()
        invariant
            i <= done.len() <= output.len(),
            forall|k: int|
                0 <= k < i ==> #[trigger] effectsView(output@)[k] == effectsView(done@)[k],
        decreases done.len() - i,
    {
        if !sameEffect(&output[i], &done[i]) {
            assert(effectsView(output@)[i as int] != effectsView(done@)[i as int]);
            return false;
        }
        i += 1;
    }
    true
}

/// The values of a sequence of structures, one by one.
pub open spec fn structuresView(structures: Seq<Structure>) -> Seq<StructureView> {
    Seq::new(structures.len(), |i: int| structures[i]@)
}

/// The values of a sequence of effects, one by one.
pub open spec fn effectsView(effects: Seq<Effect>) -> Seq<EffectView> {
    Seq::new(effects.len(), |i: int| effects[i]@)
}

/// The values of a sequence of texts, one by one.
pub open spec fn textsView(texts: Seq<Vec<u8>>) -> Seq<Seq<u8>> {
    Seq::new(texts.len(), |i: int| texts[i]@)
}

/// Why a run stands still before its program has ended.
#[derive(Clone, Copy, Debug, PartialEq, Eq, Structural)]
pub enum Pause {
    /// The run does not stand still.
    Running,
    /// The program asked for a line of input that is not there yet.
    ForInput,
    /// The output holds as many effects as the session allows at once.
    ForEffect,
}

/// A session of the interpreter: the structure tree and everything else that
/// a run reads or changes.
///
/// Structure 0 is the root. `exit` is the halt flag, `exitCode` the result
/// code. `output` collects what the program did to the outside, in order;
/// `input` holds the lines that the program may read, of which `inputIndex`
/// are read. `steps` is the number of body lines that may still be run and
/// `maxDepth` the greatest nesting of blocks, calls and brackets; a run that
/// exceeds either halts with `overflow` set. `drawn` holds the random
/// numbers drawn so far, in their order.
///
/// A run can be taken in turns with the world outside. With `inputOpen` set,
/// a program that asks for input when all lines are read halts with `pause`
/// set to `ForInput`; a run whose output reaches `effectLimit` effects halts
/// with `pause` set to `ForEffect`. A paused session records no further
/// effect, reads no input and draws no number. The host performs the effects,
/// fetches what is asked for, and runs the program again from a new session
/// that holds all input so far and, as `replay`, the numbers drawn so far,
/// which are then drawn again in their order.
pub struct RTS {
    pub namespace: Vec<u8>,
    pub structures: Vec<Structure>,
    pub exit: bool,
    pub exitCode: i32,
    pub overflow: bool,
    pub output: Vec<Effect>,
    pub input: Vec<Vec<u8>>,
    pub inputIndex: usize,
    pub argv: Vec<Vec<u8>>,
    pub maxDepth: usize,
    pub steps: u64,
    pub drawn: Vec<usize>,
    pub pause: Pause,
    pub inputOpen: bool,
    pub effectLimit: usize,
    pub replay: Vec<usize>,
}

/// The mathematical value of a session.
pub struct RtsView {
    pub namespace: Seq<u8>,
    pub structures: Seq<StructureView>,
    pub exit: bool,
    pub exitCode: i32,
    pub overflow: bool,
    pub output: Seq<EffectView>,
    pub input: Seq<Seq<u8>>,
    pub inputIndex: usize,
    pub argv: Seq<Seq<u8>>,
    pub maxDepth: usize,
    pub steps: u64,
    pub drawn: Seq<usize>,
    pub pause: Pause,
    pub inputOpen: bool,
    pub effectLimit: usize,
    pub replay: Seq<usize>,
}

impl View for RTS {
    type V = RtsView;

    open spec fn view(&self) -> RtsView {
        RtsView {
            namespace: self.namespace@,
            structures: structuresView(self.structures@),
            exit: self.exit,
            exitCode: self.exitCode,
            overflow: self.overflow,
            output: effectsView(self.output@),
            input: textsView(self.input@),
            inputIndex: self.inputIndex,
            argv: textsView(self.argv@),
            maxDepth: self.maxDepth,
            steps: self.steps,
            drawn: self.drawn@,
            pause: self.pause,
            inputOpen: self.inputOpen,
            effectLimit: self.effectLimit,
            replay: self.replay@,
        }
    }
}

/// The result code of a run that was halted for exceeding a limit.
pub const OVERFLOW_CODE: i32 = 70;

/// The greatest nesting of blocks, calls and brackets that a new session
/// allows.
pub const DEFAULT_DEPTH: usize = 200;

impl RtsView {
    /// Whether `id` names a structure of the tree.
    pub open spec fn has(self, id: int) -> bool {
        0 <= id < self.structures.len()
    }

    /// The structure with index `id`.
    pub open spec fn node(self, id: int) -> StructureView {
        self.structures[id]
    }

    /// Well-formedness: there is a root; every parent stands before its
    /// child in the arena, so that the way up from any structure ends; the
    /// members of every structure are structures of the tree; and no more
    /// input is read than there is.
    pub open spec fn wf(self) -> bool {
        &&& self.structures.len() >= 1
        &&& forall|id: int|
            0 <= id < self.structures.len() ==> match (#[trigger] self.structures[id]).parent {
                Some(p) => p < id,
                None => true,
            }
        &&& forall|id: int, k: int|
            0 <= id < self.structures.len() && 0 <= k < self.structures[id].structures.len()
                ==> (#[trigger] self.structures[id].structures[k]) < self.structures.len()
        &&& self.inputIndex <= self.input.len()
    }

    /// The position, from `k` on, of the first member of structure `id` that
    /// has the given name.
    pub open spec fn memberIndex(self, id: int, name: Seq<u8>, k: int) -> Option<int>
        decreases self.structures[id].structures.len() - k,
    {
        let members = self.structures[id].structures;
        if k < 0 || k >= members.len() {
            None
        } else if self.structures[members[k] as int].name == name {
            Some(k)
        } else {
            self.memberIndex(id, name, k + 1)
        }
    }

    /// The first member of structure `id` that has the given name.
    pub open spec fn member(self, id: int, name: Seq<u8>) -> Option<usize> {
        match self.memberIndex(id, name, 0) {
            Some(k) => Some(self.structures[id].structures[k]),
            None => None,
        }
    }

    /// Name resolution from scope `id`: the member of that name in the
    /// nearest enclosing scope that has one.
    pub open spec fn resolved(self, id: int, name: Seq<u8>) -> Option<usize>
        decreases id,
    {
        if id < 0 || id >= self.structures.len() {
            None
        } else {
            match self.member(id, name) {
                Some(found) => Some(found),
                None => match self.structures[id].parent {
                    Some(p) => if p < id {
                        self.resolved(p as int, name)
                    } else {
                        None
                    },
                    None => None,
                },
            }
        }
    }

    /// The session with structure `id` replaced.
    pub open spec fn withNode(self, id: int, node: StructureView) -> RtsView {
        RtsView { structures: self.structures.update(id, node), ..self }
    }

    /// The session with one more structure at the end of the arena.
    pub open spec fn added(self, node: StructureView) -> RtsView {
        RtsView { structures: self.structures.push(node), ..self }
    }

    /// The session with structure `id` made a member of `scope`: in the place
    /// of the member that has its name, if there is one, else as the last
    /// member.
    pub open spec fn attached(self, scope: int, id: usize) -> RtsView {
        let node = self.structures[scope];
        let members = match self.memberIndex(scope, self.structures[id as int].name, 0) {
            Some(k) => node.structures.update(k, id),
            None => node.structures.push(id),
        };
        self.withNode(scope, StructureView { structures: members, ..node })
    }

    /// The session with the body of structure `id` replaced.
    pub open spec fn withLines(self, id: int, lines: Seq<LineView>) -> RtsView {
        self.withNode(id, StructureView { lines, ..self.structures[id] })
    }

    /// The session with the result slot of structure `id` replaced.
    pub open spec fn withResult(self, id: int, result: Option<TokenView>) -> RtsView {
        self.withNode(id, StructureView { result, ..self.structures[id] })
    }

    /// The session with the cursor of structure `id` replaced.
    pub open spec fn withLineIndex(self, id: int, lineIndex: usize) -> RtsView {
        self.withNode(id, StructureView { lineIndex, ..self.structures[id] })
    }

    /// Whether the run stands still before its program has ended.
    pub open spec fn paused(self) -> bool {
        self.pause != Pause::Running
    }

    /// The session with one more effect. A paused session records none. A
    /// session whose output thereby holds as many effects as it allows at once
    /// halts and is paused for the effect.
    pub open spec fn emitted(self, effect: EffectView) -> RtsView {
        if self.paused() {
            self
        } else if self.output.len() + 1 >= self.effectLimit {
            RtsView {
                output: self.output.push(effect),
                exit: true,
                pause: Pause::ForEffect,
                ..self
            }
        } else {
            RtsView { output: self.output.push(effect), ..self }
        }
    }

    /// The session halted with the given result code.
    pub open spec fn halted(self, code: i32) -> RtsView {
        RtsView { exit: true, exitCode: code, ..self }
    }

    /// The session halted for exceeding a limit.
    pub open spec fn overflowed(self) -> RtsView {
        RtsView { exit: true, exitCode: OVERFLOW_CODE, overflow: true, ..self }
    }

    /// The next line of input: the empty text when all input is read, and
    /// in a paused session.
    pub open spec fn nextInput(self) -> Seq<u8> {
        if !self.paused() && self.inputIndex < self.input.len() {
            self.input[self.inputIndex as int]
        } else {
            Seq::empty()
        }
    }

    /// The session after the program asked for a line of input: with one
    /// more line read where there is one; else, where more input can come,
    /// halted and paused for it. A paused session stays as it is.
    pub open spec fn inputRead(self) -> RtsView {
        if self.paused() {
            self
        } else if self.inputIndex < self.input.len() {
            RtsView { inputIndex: (self.inputIndex + 1) as usize, ..self }
        } else if self.inputOpen {
            RtsView { exit: true, pause: Pause::ForInput, ..self }
        } else {
            self
        }
    }

    /// The number that the session draws again in place of a new one: the
    /// one that `replay` holds at the place of the next draw, where it lies
    /// between `least` and `greatest`.
    pub open spec fn replayed(self, least: usize, greatest: usize) -> Option<usize> {
        if self.drawn.len() < self.replay.len() && least <= self.replay[self.drawn.len() as int]
            <= greatest {
            Some(self.replay[self.drawn.len() as int])
        } else {
            None
        }
    }

    /// A new session for the namespace `name`: the root structure `main`
    /// and, as its one member, the namespace, a constant list whose body is
    /// one separator.
    pub open spec fn fresh(name: Seq<u8>) -> RtsView {
        RtsView {
            namespace: name,
            structures: seq![
                StructureView {
                    structures: seq![1usize],
                    ..StructureView::plain("main".spec_bytes(), Seq::empty(), None)
                },
                StructureView {
                    mutability: StructureMut::Constant,
                    dataType: StructureType::List,
                    ..StructureView::plain(name, seq![LineView::separator()], Some(0usize))
                },
            ],
            exit: false,
            exitCode: 0,
            overflow: false,
            output: Seq::empty(),
            input: Seq::empty(),
            inputIndex: 0,
            argv: Seq::empty(),
            maxDepth: DEFAULT_DEPTH,
            steps: u64::MAX,
            drawn: Seq::empty(),
            pause: Pause::Running,
            inputOpen: false,
            effectLimit: usize::MAX,
            replay: Seq::empty(),
        }
    }

    /// The session with a new binding in its namespace: a structure with the
    /// given name, mutability and type whose body is one line of the given
    /// tokens. A session whose root has no member with the name of the
    /// namespace stays as it is.
    pub open spec fn registered(
        self,
        name: Seq<u8>,
        mutability: StructureMut,
        dataType: StructureType,
        tokens: Seq<TokenView>,
    ) -> RtsView {
        match self.resolved(0, self.namespace) {
            Some(namespace) => self.added(
                StructureView {
                    mutability,
                    dataType,
                    ..StructureView::plain(name, seq![plainLine(tokens)], Some(namespace))
                },
            ).attached(namespace as int, self.structures.len() as usize),
            None => self,
        }
    }

    /// The session with one more random number drawn.
    pub open spec fn drew(self, value: usize) -> RtsView {
        RtsView { drawn: self.drawn.push(value), ..self }
    }

    /// The session with one step less to run.
    pub open spec fn stepped(self) -> RtsView {
        RtsView { steps: (self.steps - 1) as u64, ..self }
    }
}

/// A line at depth 0 with the given tokens and no nested lines.
pub open spec fn plainLine(tokens: Seq<TokenView>) -> LineView {
    LineView { tokens, indent: 0, lines: Seq::empty() }
}

/// A structure and one of its elements.
pub struct Place {
    pub id: usize,
    pub element: usize,
}

impl RtsView {
    /// The session with the first parameters of structure `id` bound to the
    /// given values, from parameter `k` on: each parameter holds its value as
    /// its one line.
    pub open spec fn bound(self, id: int, values: Seq<TokenView>, k: int) -> RtsView
        decreases values.len() - k,
    {
        let node = self.structures[id];
        if 0 <= k < values.len() && k < node.parameters && k < node.structures.len()
            && node.structures[k] < self.structures.len() {
            self.withLines(node.structures[k] as int, seq![plainLine(seq![values[k]])]).bound(
                id,
                values,
                k + 1,
            )
        } else {
            self
        }
    }

    /// The session with one parameter structure for each name, from name `k`
    /// on, as members of structure `id`.
    pub open spec fn withParameters(self, id: int, names: Seq<Seq<u8>>, k: int) -> RtsView
        decreases names.len() - k,
    {
        if 0 <= k < names.len() {
            let param = self.structures.len() as usize;
            let added = self.added(StructureView::plain(names[k], Seq::empty(), Some(id as usize)));
            let node = added.structures[id];
            added.withNode(
                id,
                StructureView {
                    structures: node.structures.push(param),
                    parameters: (node.parameters + 1) as usize,
                    ..node
                },
            ).withParameters(id, names, k + 1)
        } else {
            self
        }
    }

    /// The structure and element that a path names, from segment `k` on,
    /// `at` being what the segments before it led to. The first segment is
    /// resolved as a name from `scope`; a later segment is a member of what
    /// came before, or, where it is a number, one of its elements, which ends
    /// the path.
    pub open spec fn place(self, scope: int, path: Seq<Seq<u8>>, k: int, at: Option<usize>) -> Option<
        Place,
    >
        decreases path.len() - k,
    {
        if k < 0 || k >= path.len() {
            match at {
                Some(id) => Some(Place { id, element: 0 }),
                None => None,
            }
        } else {
            match at {
                None => if k == 0 {
                    match self.resolved(scope, path[k]) {
                        Some(id) => self.place(scope, path, k + 1, Some(id)),
                        None => None,
                    }
                } else {
                    None
                },
                Some(id) => if wholeNumber(path[k]) {
                    match integerValue(path[k]) {
                        Some(v) => if v <= usize::MAX {
                            Some(Place { id, element: v as usize })
                        } else {
                            None
                        },
                        None => None,
                    }
                } else {
                    match self.member(id as int, path[k]) {
                        Some(next) => self.place(scope, path, k + 1, Some(next)),
                        None => None,
                    }
                },
            }
        }
    }

    /// The tokens of element `i` of structure `id`: those of line `i` of its
    /// body, or none where the body has no such line.
    pub open spec fn elementTokens(self, id: int, i: int) -> Seq<TokenView> {
        if 0 <= i < self.structures[id].lines.len() {
            self.structures[id].lines[i].tokens
        } else {
            Seq::empty()
        }
    }

}

/// Whether the oracle holds the log of drawn numbers as its beginning.
pub open spec fn follows(log: Seq<usize>, oracle: Seq<usize>) -> bool {
    &&& log.len() <= oracle.len()
    &&& forall|i: int| 0 <= i < log.len() ==> #[trigger] log[i] == oracle[i]
}

/// What every step of a run keeps: the session stays well formed, no
/// structure leaves the arena, no step comes back, no draw and no effect is
/// undone, and every structure keeps its name and its enclosing scope. A
/// paused session stays paused: it records no effect, draws no number and
/// reads no input.
pub open spec fn grows(before: RtsView, after: RtsView) -> bool {
    &&& after.wf()
    &&& after.structures.len() >= before.structures.len()
    &&& after.steps <= before.steps
    &&& follows(before.drawn, after.drawn)
    &&& forall|id: int|
        0 <= id < before.structures.len() ==> (#[trigger] after.structures[id]).name
            == before.structures[id].name && after.structures[id].parent
            == before.structures[id].parent
    &&& before.output.len() <= after.output.len()
    &&& forall|i: int| 0 <= i < before.output.len() ==> #[trigger] before.output[i] == after.output[i]
    &&& before.paused() ==> after.pause == before.pause && after.output == before.output
        && after.drawn == before.drawn && after.inputIndex == before.inputIndex
}

/// A well-formed session has its root.
pub proof fn lemma_root(s: RtsView)
    requires
        s.wf(),
    ensures
        s.has(0),
{
}

/// A member is found in its own scope before any enclosing scope is asked:
/// where scope `id` has a member of the name, resolution gives that member,
/// whatever the enclosing scopes hold. Where it has none, resolution gives
/// what the enclosing scope resolves the name to, so a name bound outside is
/// visible inside.
pub proof fn lemma_scope_resolution(s: RtsView, id: int, name: Seq<u8>)
    requires
        s.wf(),
        s.has(id),
    ensures
        s.member(id, name).is_some() ==> s.resolved(id, name) == s.member(id, name),
        s.member(id, name).is_none() ==> s.resolved(id, name) == match s.node(id).parent {
            Some(p) => s.resolved(p as int, name),
            None => None,
        },
{
}

/// Whether scope `a` is scope `b` or encloses it.
pub open spec fn encloses(s: RtsView, a: int, b: int) -> bool
    decreases b,
{
    if b < 0 || b >= s.structures.len() {
        false
    } else if a == b {
        true
    } else {
        match s.structures[b].parent {
            Some(p) => p < b && encloses(s, a, p as int),
            None => false,
        }
    }
}

proof fn lemma_members_stay(s: RtsView, inner: int, node: StructureView, id: int, name: Seq<u8>, k: int)
    requires
        s.wf(),
        s.has(inner),
        s.has(id),
        id != inner,
        0 <= k,
    ensures
        s.added(node).attached(inner, s.structures.len() as usize).memberIndex(id, name, k)
            == s.memberIndex(id, name, k),
    decreases s.structures[id].structures.len() - k,
{
    let after = s.added(node).attached(inner, s.structures.len() as usize);
    assert(after.structures[id] == s.structures[id]);
    let members = s.structures[id].structures;
    if k < members.len() {
        assert(members[k] < s.structures.len());
        if members[k] as int != inner {
            assert(after.structures[members[k] as int] == s.structures[members[k] as int]);
        } else {
            assert(after.structures[inner].name == s.structures[inner].name);
        }
        lemma_members_stay(s, inner, node, id, name, k + 1);
    }
}

/// Whether session `t` holds every structure of session `s` but `but` as
/// it is in `s`, and `but` with its name and its enclosing scope.
pub open spec fn keeps(s: RtsView, t: RtsView, but: int) -> bool {
    &&& t.structures.len() >= s.structures.len()
    &&& forall|i: int|
        0 <= i < s.structures.len() && i != but ==> #[trigger] t.structures[i] == s.structures[i]
    &&& 0 <= but < s.structures.len() ==> t.structures[but].name == s.structures[but].name
        && t.structures[but].parent == s.structures[but].parent
}

pub proof fn lemma_added_keeps(s: RtsView, node: StructureView)
    requires
        s.wf(),
        match node.parent {
            Some(p) => p < s.structures.len(),
            None => true,
        },
        node.structures.len() == 0,
    ensures
        s.added(node).wf(),
        keeps(s, s.added(node), -1),
        s.added(node).structures[s.structures.len() as int] == node,
{
}

pub proof fn lemma_parameters_keep(t: RtsView, id: int, names: Seq<Seq<u8>>, k: int)
    requires
        t.wf(),
        t.has(id),
        0 <= k,
    ensures
        t.withParameters(id, names, k).wf(),
        keeps(t, t.withParameters(id, names, k), id),
        t.withParameters(id, names, k).structures[id].lines == t.structures[id].lines,
    decreases names.len() - k,
{
    if k < names.len() {
        let param = t.structures.len() as usize;
        let added = t.added(StructureView::plain(names[k], Seq::empty(), Some(id as usize)));
        let node = added.structures[id];
        let next = added.withNode(
            id,
            StructureView {
                structures: node.structures.push(param),
                parameters: (node.parameters + 1) as usize,
                ..node
            },
        );
        assert(next.wf());
        lemma_parameters_keep(next, id, names, k + 1);
    }
}

proof fn lemma_member_found(t: RtsView, id: int, name: Seq<u8>, j: int, k: int)
    requires
        0 <= j <= k < t.structures[id].structures.len(),
        forall|i: int|
            j <= i < k ==> t.structures[(#[trigger] t.structures[id].structures[i]) as int].name
                != name,
        t.structures[t.structures[id].structures[k] as int].name == name,
    ensures
        t.memberIndex(id, name, j) == Some(k),
    decreases k - j,
{
    if j < k {
        lemma_member_found(t, id, name, j + 1, k);
    }
}

proof fn lemma_member_first(t: RtsView, id: int, name: Seq<u8>, j: int)
    requires
        0 <= j,
    ensures
        match t.memberIndex(id, name, j) {
            Some(k) => j <= k < t.structures[id].structures.len() && t.structures[t.structures[id].structures[k] as int].name
                == name && forall|i: int|
                j <= i < k ==> t.structures[(#[trigger] t.structures[id].structures[i]) as int].name
                    != name,
            None => forall|i: int|
                j <= i < t.structures[id].structures.len() ==> t.structures[(
                #[trigger] t.structures[id].structures[i]) as int].name != name,
        },
    decreases t.structures[id].structures.len() - j,
{
    let members = t.structures[id].structures;
    if j < members.len() && t.structures[members[j] as int].name != name {
        lemma_member_first(t, id, name, j + 1);
    }
}

/// A structure that was made a member of a scope is what its name resolves
/// to from that scope.
pub proof fn lemma_attached_member(t: RtsView, scope: int, id: usize)
    requires
        t.wf(),
        t.has(scope),
        t.has(id as int),
    ensures
        t.attached(scope, id).wf(),
        keeps(t, t.attached(scope, id), scope),
        t.attached(scope, id).resolved(scope, t.structures[id as int].name) == Some(id),
{
    let name = t.structures[id as int].name;
    let m = t.attached(scope, id);
    let members = t.structures[scope].structures;
    lemma_member_first(t, scope, name, 0);
    assert forall|i: int| 0 <= i < t.structures.len() implies (#[trigger] m.structures[i]).name
        == t.structures[i].name by {}
    match t.memberIndex(scope, name, 0) {
        Some(k) => {
            let after = m.structures[scope].structures;
            assert(after == members.update(k, id));
            assert forall|i: int| 0 <= i < k implies m.structures[(#[trigger] after[i]) as int].name
                != name by {
                assert(after[i] == members[i]);
                assert(members[i] < t.structures.len());
            }
            lemma_member_found(m, scope, name, 0, k);
        },
        None => {
            let after = m.structures[scope].structures;
            assert(after == members.push(id));
            assert forall|i: int| 0 <= i < members.len() implies m.structures[(
            #[trigger] after[i]) as int].name != name by {
                assert(after[i] == members[i]);
                assert(members[i] < t.structures.len());
            }
            lemma_member_found(m, scope, name, 0, members.len() as int);
        },
    }
}

proof fn lemma_members_same(s: RtsView, t: RtsView, but: int, id: int, name: Seq<u8>, k: int)
    requires
        s.wf(),
        keeps(s, t, but),
        s.has(id),
        id != but,
        0 <= k,
    ensures
        t.memberIndex(id, name, k) == s.memberIndex(id, name, k),
    decreases s.structures[id].structures.len() - k,
{
    assert(t.structures[id] == s.structures[id]);
    let members = s.structures[id].structures;
    if k < members.len() {
        assert(members[k] < s.structures.len());
        assert(t.structures[members[k] as int].name == s.structures[members[k] as int].name);
        lemma_members_same(s, t, but, id, name, k + 1);
    }
}

/// Where one session holds every structure of another but one scope as it
/// is, every name resolves alike in both from every scope that this scope
/// neither is nor encloses.
pub proof fn lemma_resolution_stays(s: RtsView, t: RtsView, but: int, outer: int, name: Seq<u8>)
    requires
        s.wf(),
        s.has(outer),
        !encloses(s, but, outer),
        keeps(s, t, but),
    ensures
        t.resolved(outer, name) == s.resolved(outer, name),
    decreases outer,
{
    lemma_members_same(s, t, but, outer, name, 0);
    assert(t.structures[outer] == s.structures[outer]);
    match s.structures[outer].parent {
        Some(p) => {
            lemma_resolution_stays(s, t, but, p as int, name);
        },
        None => {},
    }
}

/// A name declared again in an inner scope hides the outer binding only
/// there: for every scope that the inner scope neither is nor encloses, each
/// name resolves after the declaration to what it resolved to before.
pub proof fn lemma_shadowing_is_local(
    s: RtsView,
    inner: int,
    node: StructureView,
    outer: int,
    name: Seq<u8>,
)
    requires
        s.wf(),
        s.has(inner),
        s.has(outer),
        !encloses(s, inner, outer),
    ensures
        s.added(node).attached(inner, s.structures.len() as usize).resolved(outer, name)
            == s.resolved(outer, name),
    decreases outer,
{
    let after = s.added(node).attached(inner, s.structures.len() as usize);
    assert(after.structures[outer] == s.structures[outer]);
    lemma_members_stay(s, inner, node, outer, name, 0);
    match s.structures[outer].parent {
        Some(p) => {
            lemma_shadowing_is_local(s, inner, node, p as int, name);
        },
        None => {},
    }
}

/// Adding a structure to the arena and making it a member of scope `inner`
/// changes no other scope: every structure but `inner` is as it was, and so
/// are its members.
pub proof fn lemma_attach_is_local(s: RtsView, inner: int, node: StructureView, other: int)
    requires
        s.wf(),
        s.has(inner),
        s.has(other),
        other != inner,
    ensures
        s.added(node).attached(inner, s.structures.len() as usize).node(other) == s.node(other),
{
}

pub proof fn lemma_structuresView_push(structures: Seq<Structure>, structure: Structure)
    ensures
        structuresView(structures.push(structure)) == structuresView(structures).push(structure@),
{
    assert(structuresView(structures.push(structure)) =~= structuresView(structures).push(
        structure@,
    ));
}

impl RTS {
    /// Whether the session is well formed.
    pub open spec fn wf(&self) -> bool {
        self@.wf()
    }

    /// Creates a session with the root structure and the namespace `name`
    /// below it.
    pub fn new(name: String) -> (r: RTS)
        ensures
            r.wf(),
            r@ == RtsView::fresh(vstd::utf8::encode_utf8(name@)),
    {
        let text = name.as_str().as_bytes_vec();
        let mut main = Structure::new("main".as_bytes_vec(), Vec::new(), None);
        main.structures.push(1);
        let mut body: Vec<Line> = Vec::new();
        let separator = Line::newEmpty();
        proof {
            lemma_linesView_push(body@, separator);
        }
        body.push(separator);
        let mut namespace = Structure::new(copyBytes(&text), body, Some(0));
        namespace.mutability = StructureMut::Constant;
        namespace.dataType = StructureType::List;
        let mut structures: Vec<Structure> = Vec::new();
        structures.push(main);
        structures.push(namespace);
        let r = RTS {
            namespace: text,
            structures,
            exit: false,
            exitCode: 0,
            overflow: false,
            output: Vec::new(),
            input: Vec::new(),
            inputIndex: 0,
            argv: Vec::new(),
            maxDepth: DEFAULT_DEPTH,
            steps: u64::MAX,
            drawn: Vec::new(),
            pause: Pause::Running,
            inputOpen: false,
            effectLimit: usize::MAX,
            replay: Vec::new(),
        };
        proof {
            let f = RtsView::fresh(vstd::utf8::encode_utf8(name@));
            assert(r@.structures[0].lines =~= Seq::empty());
            assert(r@.structures[0].structures =~= seq![1usize]);
            assert(r@.structures[1].lines =~= seq![LineView::separator()]);
            assert(r@.structures[1].structures =~= Seq::empty());
            assert(r@.structures =~= f.structures);
            assert(r@.output =~= f.output);
            assert(r@.input =~= f.input);
            assert(r@.argv =~= f.argv);
            assert(r@.drawn =~= f.drawn);
            assert(r@.replay =~= f.replay);
        }
        r
    }

    /// Gives the session the lines that the program may read.
    pub fn setInput(&mut self, input: Vec<Vec<u8>>)
        requires
            old(self).wf(),
        ensures
            final(self).wf(),
            final(self)@ == (RtsView { input: textsView(input@), inputIndex: 0, ..old(self)@ }),
    {
        self.input = input;
        self.inputIndex = 0;
    }

    /// Gives the session the arguments of the program.
    pub fn setArguments(&mut self, argv: Vec<Vec<u8>>)
        requires
            old(self).wf(),
        ensures
            final(self).wf(),
            final(self)@ == (RtsView { argv: textsView(argv@), ..old(self)@ }),
    {
        self.argv = argv;
    }

    /// Sets the limits of a run: the greatest nesting and the number of steps.
    pub fn setLimits(&mut self, maxDepth: usize, steps: u64)
        requires
            old(self).wf(),
        ensures
            final(self).wf(),
            final(self)@ == (RtsView { maxDepth, steps, ..old(self)@ }),
    {
        self.maxDepth = maxDepth;
        self.steps = steps;
    }

    /// Clears the halt flag, so that the session can run again.
    pub fn resume(&mut self)
        requires
            old(self).wf(),
        ensures
            final(self).wf(),
            final(self)@ == (RtsView {
                exit: false,
                overflow: false,
                pause: Pause::Running,
                ..old(self)@
            }),
    {
        self.exit = false;
        self.overflow = false;
        self.pause = Pause::Running;
    }

    /// Says whether more input can come than the session holds. Where it
    /// can, a program that asks for input when all lines are read is paused;
    /// where it cannot, the program reads the empty text.
    pub fn expectInput(&mut self, open: bool)
        requires
            old(self).wf(),
        ensures
            final(self).wf(),
            final(self)@ == (RtsView { inputOpen: open, ..old(self)@ }),
    {
        self.inputOpen = open;
    }

    /// Sets the number of effects at which a run is paused.
    pub fn setEffectLimit(&mut self, effectLimit: usize)
        requires
            old(self).wf(),
        ensures
            final(self).wf(),
            final(self)@ == (RtsView { effectLimit, ..old(self)@ }),
    {
        self.effectLimit = effectLimit;
    }

    /// Gives the session the numbers to draw again before it draws new ones.
    pub fn setReplay(&mut self, replay: Vec<usize>)
        requires
            old(self).wf(),
        ensures
            final(self).wf(),
            final(self)@ == (RtsView { replay: replay@, ..old(self)@ }),
    {
        self.replay = replay;
    }

    /// Whether the output of the session begins with the effects `done`.
    pub fn continues(&self, done: &Vec<Effect>) -> (r: bool)
        ensures
            r == beginsWith(self@.output, effectsView(done@)),
    {
        repeats(&self.output, done)
    }

    /// Why the run stands still, if it does.
    pub fn pauseOf(&self) -> (r: Pause)
        ensures
            r == self@.pause,
    {
        self.pause
    }

    /// The number to draw again in place of a new one, if there is one
    /// between `least` and `greatest`.
    pub fn replayNumber(&self, least: usize, greatest: usize) -> (r: Option<usize>)
        ensures
            r == self@.replayed(least, greatest),
    {
        let at: usize = self.drawn.len();
        if at < self.replay.len() && least <= self.replay[at] && self.replay[at] <= greatest {
            Some(self.replay[at])
        } else {
            None
        }
    }

    /// A copy of the name of the namespace.
    pub fn namespaceName(&self) -> (r: Vec<u8>)
        ensures
            r@ == self@.namespace,
    {
        copyBytes(&self.namespace)
    }

    /// How many arguments the program has.
    pub fn argumentCount(&self) -> (r: usize)
        ensures
            r == self@.argv.len(),
    {
        self.argv.len()
    }

    /// A copy of argument `i` of the program.
    pub fn argument(&self, i: usize) -> (r: Vec<u8>)
        requires
            i < self@.argv.len(),
        ensures
            r@ == self@.argv[i as int],
    {
        copyBytes(&self.argv[i])
    }

    /// Adds a structure at the end of the arena and returns its index.
    pub fn addStructure(&mut self, structure: Structure) -> (id: usize)
        requires
            old(self).wf(),
            match structure.parent {
                Some(p) => p < old(self)@.structures.len(),
                None => true,
            },
            forall|k: int|
                0 <= k < structure.structures@.len() ==> structure.structures@[k] < old(
                    self,
                )@.structures.len(),
        ensures
            final(self).wf(),
            id == old(self)@.structures.len(),
            final(self)@ == old(self)@.added(structure@),
    {
        let id: usize = self.structures.len();
        proof {
            lemma_structuresView_push(self.structures@, structure);
        }
        self.structures.push(structure);
        id
    }

    /// Looks for a member of structure `id` by name.
    pub fn getMember(&self, id: usize, name: &Vec<u8>) -> (r: Option<usize>)
        requires
            self.wf(),
            self@.has(id as int),
        ensures
            match r {
                Some(k) => self@.memberIndex(id as int, name@, 0) == Some(k as int) && k
                    < self@.node(id as int).structures.len(),
                None => self@.memberIndex(id as int, name@, 0).is_none(),
            },
    {
        let count: usize = self.structures[id].structures.len();
        let mut k: usize = 0;
        while k < count
            invariant
                self.wf(),
                self@.has(id as int),
                k <= count == self@.node(id as int).structures.len(),
                self@.memberIndex(id as int, name@, k as int) == self@.memberIndex(
                    id as int,
                    name@,
                    0,
                ),
            decreases count - k,
        {
            let member: usize = self.structures[id].structures[k];
            assert(member == self@.structures[id as int].structures[k as int]);
            if sameBytes(&self.structures[member].name, name) {
                return Some(k);
            }
            k += 1;
        }
        None
    }

    /// Resolves a name from scope `id`: searches the members of the scope,
    /// then those of each enclosing scope in turn.
    pub fn getStructureByName(&self, id: usize, name: &Vec<u8>) -> (r: Option<usize>)
        requires
            self.wf(),
            self@.has(id as int),
        ensures
            r == self@.resolved(id as int, name@),
            match r {
                Some(found) => self@.has(found as int),
                None => true,
            },
    {
        let mut scope: usize = id;
        loop
            invariant
                self.wf(),
                self@.has(scope as int),
                self@.resolved(scope as int, name@) == self@.resolved(id as int, name@),
            decreases scope,
        {
            match self.getMember(scope, name) {
                Some(k) => {
                    return Some(self.structures[scope].structures[k]);
                },
                None => {},
            }
            match self.structures[scope].parent {
                Some(p) => {
                    scope = p;
                },
                None => {
                    return None;
                },
            }
        }
    }

    /// Makes structure `id` a member of `scope`, in the place of the member
    /// that has its name, if there is one.
    pub fn pushStructure(&mut self, scope: usize, id: usize)
        requires
            old(self).wf(),
            old(self)@.has(scope as int),
            old(self)@.has(id as int),
        ensures
            final(self).wf(),
            final(self)@ == old(self)@.attached(scope as int, id),
    {
        let name = copyBytes(&self.structures[id].name);
        let place = self.getMember(scope, &name);
        let ghost before = self@;
        match place {
            Some(k) => {
                self.structures[scope].structures[k] = id;
            },
            None => {
                self.structures[scope].structures.push(id);
            },
        }
        assert(self@.structures =~= before.attached(scope as int, id).structures);
        assert(self@.output =~= before.output);
        assert(self@.input =~= before.input);
        assert(self@.argv =~= before.argv);
    }

    /// Replaces the body of structure `id`.
    pub fn setLines(&mut self, id: usize, lines: Vec<Line>)
        requires
            old(self).wf(),
            old(self)@.has(id as int),
        ensures
            final(self).wf(),
            final(self)@ == old(self)@.withLines(id as int, linesView(lines@)),
    {
        let ghost before = self@;
        self.structures[id].lines = lines;
        assert(self@.structures =~= before.withLines(id as int, linesView(lines@)).structures);
        assert(self@.output =~= before.output);
        assert(self@.input =~= before.input);
        assert(self@.argv =~= before.argv);
    }

    /// Replaces the result slot of structure `id`.
    pub fn setResult(&mut self, id: usize, result: Option<Token>)
        requires
            old(self).wf(),
            old(self)@.has(id as int),
        ensures
            final(self).wf(),
            final(self)@ == old(self)@.withResult(id as int, resultView(result)),
    {
        let ghost before = self@;
        self.structures[id].result = result;
        assert(self@.structures =~= before.withResult(id as int, resultView(result)).structures);
        assert(self@.output =~= before.output);
        assert(self@.input =~= before.input);
        assert(self@.argv =~= before.argv);
    }

    /// Moves the cursor of structure `id`.
    pub fn setLineIndex(&mut self, id: usize, lineIndex: usize)
        requires
            old(self).wf(),
            old(self)@.has(id as int),
        ensures
            final(self).wf(),
            final(self)@ == old(self)@.withLineIndex(id as int, lineIndex),
    {
        let ghost before = self@;
        self.structures[id].lineIndex = lineIndex;
        assert(self@.structures =~= before.withLineIndex(id as int, lineIndex).structures);
        assert(self@.output =~= before.output);
        assert(self@.input =~= before.input);
        assert(self@.argv =~= before.argv);
    }

    /// Records an effect.
    pub fn emit(&mut self, effect: Effect)
        requires
            old(self).wf(),
        ensures
            final(self).wf(),
            final(self)@ == old(self)@.emitted(effect@),
    {
        let ghost before = self@;
        if self.pause == Pause::Running {
            self.output.push(effect);
            if self.output.len() >= self.effectLimit {
                self.exit = true;
                self.pause = Pause::ForEffect;
            }
            assert(self@.output =~= before.output.push(effect@));
        } else {
            assert(self@.output =~= before.output);
        }
        assert(self@.structures =~= before.structures);
        assert(self@.input =~= before.input);
        assert(self@.argv =~= before.argv);
    }

    /// Halts the run with a result code.
    pub fn halt(&mut self, code: i32)
        ensures
            final(self)@ == old(self)@.halted(code),
            old(self).wf() ==> final(self).wf(),
    {
        self.exit = true;
        self.exitCode = code;
    }

    /// Halts the run for exceeding a limit.
    pub fn haltOverflow(&mut self)
        ensures
            final(self)@ == old(self)@.overflowed(),
            old(self).wf() ==> final(self).wf(),
    {
        self.exit = true;
        self.exitCode = OVERFLOW_CODE;
        self.overflow = true;
    }

    /// Reads the next line of input: the empty text when all input is read.
    /// Where all input is read and more can come, the run is paused for it.
    pub fn readInput(&mut self) -> (text: Vec<u8>)
        requires
            old(self).wf(),
        ensures
            final(self).wf(),
            text@ == old(self)@.nextInput(),
            final(self)@ == old(self)@.inputRead(),
    {
        if self.pause != Pause::Running {
            Vec::new()
        } else if self.inputIndex < self.input.len() {
            let text = copyBytes(&self.input[self.inputIndex]);
            self.inputIndex += 1;
            text
        } else {
            if self.inputOpen {
                self.exit = true;
                self.pause = Pause::ForInput;
            }
            Vec::new()
        }
    }

    /// Whether `id` names a structure of the tree.
    pub fn hasStructure(&self, id: usize) -> (r: bool)
        ensures
            r == self@.has(id as int),
    {
        id < self.structures.len()
    }

    /// How many structures the arena holds.
    pub fn structureCount(&self) -> (r: usize)
        ensures
            r == self@.structures.len(),
    {
        self.structures.len()
    }

    /// The cursor of structure `id`.
    pub fn lineIndexOf(&self, id: usize) -> (r: usize)
        requires
            self@.has(id as int),
        ensures
            r == self@.node(id as int).lineIndex,
    {
        self.structures[id].lineIndex
    }

    /// How many lines the body of structure `id` has.
    pub fn lineCount(&self, id: usize) -> (r: usize)
        requires
            self@.has(id as int),
        ensures
            r == self@.node(id as int).lines.len(),
    {
        self.structures[id].lines.len()
    }

    /// A copy of line `i` of the body of structure `id`.
    pub fn copyLine(&self, id: usize, i: usize) -> (r: Line)
        requires
            self@.has(id as int),
            i < self@.node(id as int).lines.len(),
        ensures
            r@ == self@.node(id as int).lines[i as int],
    {
        self.structures[id].lines[i].copy()
    }

    /// A copy of the result slot of structure `id`.
    pub fn resultOf(&self, id: usize) -> (r: Option<Token>)
        requires
            self@.has(id as int),
        ensures
            resultView(r) == self@.node(id as int).result,
    {
        match &self.structures[id].result {
            Some(t) => Some(t.copy()),
            None => None,
        }
    }

    /// Whether the run is halted.
    pub fn isHalted(&self) -> (r: bool)
        ensures
            r == self@.exit,
    {
        self.exit
    }

    /// How many steps may still be run.
    pub fn stepsLeft(&self) -> (r: u64)
        ensures
            r == self@.steps,
    {
        self.steps
    }

    /// The greatest nesting that the session allows.
    pub fn depthLimit(&self) -> (r: usize)
        ensures
            r == self@.maxDepth,
    {
        self.maxDepth
    }

    /// Takes one step.
    pub fn step(&mut self)
        requires
            old(self).wf(),
            old(self)@.steps > 0,
        ensures
            final(self).wf(),
            final(self)@ == old(self)@.stepped(),
    {
        self.steps = self.steps - 1;
    }

    /// Records a random number as drawn.
    pub fn recordDraw(&mut self, value: usize)
        requires
            old(self).wf(),
        ensures
            final(self).wf(),
            final(self)@ == old(self)@.drew(value),
    {
        self.drawn.push(value);
    }
}

/// A line at depth 0 with the given tokens and no nested lines.
pub fn newLine(tokens: Vec<Token>) -> (r: Line)
    ensures
        r@ == plainLine(tokensView(tokens@)),
{
    Line::new(tokens)
}

/// The body of a value: one line that holds one token.
pub fn valueBody(token: Token) -> (lines: Vec<Line>)
    ensures
        linesView(lines@) == seq![plainLine(seq![token@])],
{
    let mut tokens: Vec<Token> = Vec::new();
    proof {
        lemma_tokensView_push(tokens@, token);
    }
    tokens.push(token);
    assert(tokensView(tokens@) =~= seq![token@]);
    let line = newLine(tokens);
    let mut lines: Vec<Line> = Vec::new();
    proof {
        lemma_linesView_push(lines@, line);
    }
    lines.push(line);
    assert(linesView(lines@) =~= seq![plainLine(seq![token@])]);
    lines
}

/// The tokens of element `i` of structure `id`.
pub fn elementTokens(rts: &RTS, id: usize, i: usize) -> (tokens: Vec<Token>)
    requires
        rts.wf(),
        rts@.has(id as int),
    ensures
        tokensView(tokens@) == rts@.elementTokens(id as int, i as int),
{
    if i < rts.structures[id].lines.len() {
        copyTokens(&rts.structures[id].lines[i].tokens)
    } else {
        let tokens: Vec<Token> = Vec::new();
        assert(tokensView(tokens@) =~= Seq::empty());
        tokens
    }
}

/// Binds the first parameters of structure `id` to the given values.
pub fn bindParameters(rts: &mut RTS, id: usize, values: &Vec<Token>)
    requires
        old(rts).wf(),
        old(rts)@.has(id as int),
    ensures
        grows(old(rts)@, final(rts)@),
        final(rts)@ == old(rts)@.bound(id as int, tokensView(values@), 0),
        final(rts)@.drawn == old(rts)@.drawn,
{
    let ghost before = rts@;
    let mut k: usize = 0;
    while k < values.len() && k < rts.structures[id].parameters && k
        < rts.structures[id].structures.len()
        invariant
            rts.wf(),
            rts@.has(id as int),
            grows(before, rts@),
            rts@.drawn == before.drawn,
            rts@.bound(id as int, tokensView(values@), k as int) == before.bound(
                id as int,
                tokensView(values@),
                0,
            ),
        decreases values.len() - k,
    {
        let param: usize = rts.structures[id].structures[k];
        assert(param == rts@.structures[id as int].structures[k as int]);
        let value = values[k].copy();
        rts.setLines(param, valueBody(value));
        k += 1;
    }
}

/// Adds one parameter structure for each name as a member of structure `id`.
pub fn addParameters(rts: &mut RTS, id: usize, names: &Vec<Vec<u8>>)
    requires
        old(rts).wf(),
        old(rts)@.has(id as int),
        old(rts)@.node(id as int).parameters == 0,
    ensures
        grows(old(rts)@, final(rts)@),
        final(rts)@ == old(rts)@.withParameters(id as int, namesView(names@), 0),
        final(rts)@.drawn == old(rts)@.drawn,
{
    let ghost before = rts@;
    let mut k: usize = 0;
    while k < names.len()
        invariant
            k <= names.len(),
            rts.wf(),
            rts@.has(id as int),
            grows(before, rts@),
            rts@.drawn == before.drawn,
            rts@.node(id as int).parameters == k,
            rts@.withParameters(id as int, namesView(names@), k as int) == before.withParameters(
                id as int,
                namesView(names@),
                0,
            ),
        decreases names.len() - k,
    {
        let body: Vec<Line> = Vec::new();
        assert(linesView(body@) =~= Seq::empty());
        let param = rts.addStructure(Structure::new(copyBytes(&names[k]), body, Some(id)));
        let ghost added = rts@;
        rts.structures[id].structures.push(param);
        rts.structures[id].parameters = rts.structures[id].parameters + 1;
        proof {
            let node = added.structures[id as int];
            assert(rts@.structures =~= added.withNode(
                id as int,
                StructureView {
                    structures: node.structures.push(param),
                    parameters: (node.parameters + 1) as usize,
                    ..node
                },
            ).structures);
            assert(rts@.output =~= added.output);
            assert(rts@.input =~= added.input);
            assert(rts@.argv =~= added.argv);
        }
        k += 1;
    }
}

/// The structure and element that a path names.
pub fn findPlace(rts: &RTS, scope: usize, path: &Vec<Vec<u8>>) -> (r: Option<(usize, usize)>)
    requires
        rts.wf(),
        rts@.has(scope as int),
    ensures
        match r {
            Some(p) => rts@.place(scope as int, namesView(path@), 0, None) == Some(
                Place { id: p.0, element: p.1 },
            ) && rts@.has(p.0 as int),
            None => rts@.place(scope as int, namesView(path@), 0, None).is_none(),
        },
{
    let mut at: Option<usize> = None;
    let mut k: usize = 0;
    while k < path.len()
        invariant
            k <= path.len(),
            rts.wf(),
            rts@.has(scope as int),
            match at {
                Some(id) => rts@.has(id as int),
                None => k == 0,
            },
            rts@.place(scope as int, namesView(path@), k as int, at) == rts@.place(
                scope as int,
                namesView(path@),
                0,
                None,
            ),
        decreases path.len() - k,
    {
        match at {
            None => {
                match rts.getStructureByName(scope, &path[k]) {
                    Some(id) => {
                        at = Some(id);
                    },
                    None => {
                        return None;
                    },
                }
            },
            Some(id) => {
                if isWholeNumber(&path[k]) {
                    match parseInteger(&path[k]) {
                        Some(v) => {
                            if v as u64 <= usize::MAX as u64 {
                                return Some((id, v as usize));
                            } else {
                                return None;
                            }
                        },
                        None => {
                            return None;
                        },
                    }
                } else {
                    match rts.getMember(id, &path[k]) {
                        Some(m) => {
                            let next: usize = rts.structures[id].structures[m];
                            assert(next == rts@.structures[id as int].structures[m as int]);
                            at = Some(next);
                        },
                        None => {
                            return None;
                        },
                    }
                }
            },
        }
        k += 1;
    }
    match at {
        Some(id) => Some((id, 0)),
        None => None,
    }
}

} // verus!
