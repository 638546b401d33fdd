//! The interpreter: runs the body of a structure line by line and evaluates
//! token sequences against the structure tree.
use vstd::prelude::*;
use vstd::string::*;
use crate::token::{
    Token, TokenType, TokenView, tokensView, copyData, copyTokens, lemma_nested_view,
};
use crate::line::{Line, linesView, copyLines, lemma_nested_lines, lemma_linesView_push};
use crate::structure::{
    Effect, Pause, RTS, RtsView, Structure, StructureMut, StructureType, grows, follows,
    plainLine,
    newLine,
    valueBody, elementTokens, bindParameters, addParameters, findPlace, lemma_root,
};
use crate::value::{calculate, decimalBytes, integerBytes};
use crate::tokenizer::{sameText, readTokens, NEWLINE, LBRACE, RBRACE};
use crate::semantics::{
    Outcome, Rewrite, Interpolation, Handled, payload, compoundOperator, stepOperator, declaredMut,
    declaredType, conditionGroup, advanced, argumentLines, drawMin, drawMax, builtin,
};
use crate::rewrite::{
    groupsView, namesView, removeToken, setToken, pushToken, nestedOf, literal, nothing, payloadOf,
    firstOf, indexValue, numberValue, typeName, reduceAll, splitTokens, getStructureParameters,
    trimEnd, findOperator, splitPath,
};

verus! {

/// Draws a number between `min` and `max`, both included, with
/// `rand::Rng::gen_range` on the generator of the thread
/// (`rand::thread_rng`). The contract claims only that the number lies in that
/// range; an empty range, on which `gen_range` panics, is left out.
#[verifier::external_body]
fn drawNumber(min: usize, max: usize) -> (r: usize)
    requires
        min <= max,
    ensures
        min <= r <= max,
{
    rand::Rng::gen_range(&mut rand::thread_rng(), min..=max)
}

/// The token of a number that was drawn.
#[verifier::spinoff_prover]
pub fn randomToken(value: usize) -> (r: Token)
    ensures
        r@ == TokenView::literal(TokenType::UInt, integerBytes(value as int)),
{
    Token::new(TokenType::UInt, decimalBytes(value as u64))
}

/// A cursor moved on by `n` lines, as far as a cursor can go.
#[verifier::spinoff_prover]
fn advance(lineIndex: usize, n: usize) -> (r: usize)
    ensures
        r == advanced(lineIndex, n as int),
{
    match lineIndex.checked_add(n) {
        Some(v) => v,
        None => usize::MAX,
    }
}

/// The value of element `i` of structure `id`.
#[verifier::spinoff_prover]
pub fn elementValue(rts: &mut RTS, id: usize, i: usize, depth: usize) -> (r: Token)
    requires
        old(rts).wf(),
        old(rts)@.has(id as int),
    ensures
        grows(old(rts)@, final(rts)@),
        forall|oracle: Seq<usize>|
            #![trigger old(rts)@.elementValue(id as int, i as int, depth as nat, oracle)]
            follows(final(rts)@.drawn, oracle) ==> (Outcome { state: final(rts)@, token: r@ })
                == old(rts)@.elementValue(id as int, i as int, depth as nat, oracle),
    decreases depth, 2nat,
{
    reveal_with_fuel(RtsView::elementValue, 1);
    if depth == 0 {
        rts.haltOverflow();
        return nothing();
    }
    let tokens = elementTokens(rts, id, i);
    let value = expression(rts, id, tokens, depth - 1);
    literal(&value)
}

/// The value of an optional index expression.
pub open spec fn indexView(index: Option<Vec<Token>>) -> Option<Seq<TokenView>> {
    match index {
        Some(tokens) => Some(tokensView(tokens@)),
        None => None,
    }
}

/// The value that a name stands for in `scope`, element `index` of it where
/// an index expression is given.
#[verifier::spinoff_prover]
pub fn replaceMemoryCellByName(
    rts: &mut RTS,
    scope: usize,
    name: &Vec<u8>,
    index: Option<Vec<Token>>,
    depth: usize,
) -> (r: Token)
    requires
        old(rts).wf(),
        old(rts)@.has(scope as int),
    ensures
        grows(old(rts)@, final(rts)@),
        forall|oracle: Seq<usize>|
            #![trigger old(rts)@.named(scope as int, name@, indexView(index), depth as nat, oracle)]
            follows(final(rts)@.drawn, oracle) ==> (Outcome { state: final(rts)@, token: r@ })
                == old(rts)@.named(
                scope as int,
                name@,
                indexView(index),
                depth as nat,
                oracle,
            ),
    decreases depth, 3nat,
{
    reveal_with_fuel(RtsView::named, 1);
    match rts.getStructureByName(scope, name) {
        None => nothing(),
        Some(id) => match index {
            None => elementValue(rts, id, 0, depth),
            Some(tokens) => {
                if depth == 0 {
                    rts.haltOverflow();
                    return nothing();
                }
                let at = expression(rts, scope, tokens, depth - 1);
                match indexValue(&at) {
                    Some(i) => elementValue(rts, id, i, depth),
                    None => nothing(),
                }
            },
        },
    }
}

/// The value that a path stands for in `scope`.
#[verifier::spinoff_prover]
pub fn linkValue(rts: &mut RTS, scope: usize, path: &Vec<u8>, depth: usize) -> (r: Token)
    requires
        old(rts).wf(),
        old(rts)@.has(scope as int),
    ensures
        grows(old(rts)@, final(rts)@),
        forall|oracle: Seq<usize>|
            #![trigger old(rts)@.linked(scope as int, path@, depth as nat, oracle)]
            follows(final(rts)@.drawn, oracle) ==> (Outcome { state: final(rts)@, token: r@ })
                == old(rts)@.linked(scope as int, path@, depth as nat, oracle),
    decreases depth, 3nat,
{
    reveal_with_fuel(RtsView::linked, 1);
    let parts = splitPath(path);
    match findPlace(rts, scope, &parts) {
        Some(p) => elementValue(rts, p.0, p.1, depth),
        None => nothing(),
    }
}

/// Evaluates each group of an argument list in `scope`.
#[verifier::spinoff_prover]
pub fn getExpressionParameters(
    rts: &mut RTS,
    scope: usize,
    groups: &Vec<Vec<Token>>,
    depth: usize,
) -> (values: Vec<Token>)
    requires
        old(rts).wf(),
        old(rts)@.has(scope as int),
    ensures
        grows(old(rts)@, final(rts)@),
        forall|oracle: Seq<usize>|
            #![trigger old(rts)@.arguments(scope as int, groupsView(groups@), 0, Seq::empty(), depth as nat, oracle)]
            follows(final(rts)@.drawn, oracle) ==> (Rewrite {
                state: final(rts)@,
                tokens: tokensView(values@),
            }) == old(rts)@.arguments(
                scope as int,
                groupsView(groups@),
                0,
                Seq::empty(),
                depth as nat,
                oracle,
            ),
    decreases depth, 3nat,
{
    reveal_with_fuel(RtsView::arguments, 1);
    let ghost before = rts@;
    let ghost all = groupsView(groups@);
    let mut values: Vec<Token> = Vec::new();
    let mut k: usize = 0;
    assert(tokensView(values@) =~= Seq::empty());
    while k < groups.len()
        invariant
            k <= groups.len(),
            rts.wf(),
            rts@.has(scope as int),
            grows(before, rts@),
            before == old(rts)@,
            all == groupsView(groups@),
            forall|oracle: Seq<usize>|
                #![trigger before.arguments(scope as int, all, 0, Seq::empty(), depth as nat, oracle)]
                follows(rts@.drawn, oracle) ==> rts@.arguments(
                    scope as int,
                    all,
                    k as int,
                    tokensView(values@),
                    depth as nat,
                    oracle,
                ) == before.arguments(scope as int, all, 0, Seq::empty(), depth as nat, oracle),
        decreases groups.len() - k,
    {
        proof {
            reveal_with_fuel(RtsView::arguments, 1);
        }
        if depth == 0 {
            rts.haltOverflow();
            return values;
        }
        let group = copyTokens(&groups[k]);
        let value = expression(rts, scope, group, depth - 1);
        pushToken(&mut values, value);
        k += 1;
    }
    values
}

/// Calls the callable `name` with the argument values `args`: one of the
/// built-in calls, or else the structure that the name resolves to.
#[verifier::spinoff_prover]
#[verifier::rlimit(60)]
pub fn methodCall(rts: &mut RTS, scope: usize, name: &Vec<u8>, args: &Vec<Token>, depth: usize) -> (r: Token)
    requires
        old(rts).wf(),
        old(rts)@.has(scope as int),
    ensures
        grows(old(rts)@, final(rts)@),
        forall|oracle: Seq<usize>|
            #![trigger old(rts)@.called(scope as int, name@, tokensView(args@), depth as nat, oracle)]
            follows(final(rts)@.drawn, oracle) ==> (Outcome { state: final(rts)@, token: r@ })
                == old(rts)@.called(scope as int, name@, tokensView(args@), depth as nat, oracle),
        old(rts)@.draws(name@, tokensView(args@)) ==> final(rts)@.drawn.len() == old(
            rts,
        )@.drawn.len() + 1 && drawMin(tokensView(args@)) <= final(rts)@.drawn.last() <= drawMax(
            tokensView(args@),
        ),
        !old(rts)@.draws(name@, tokensView(args@)) && !old(rts)@.calls(
            scope as int,
            name@,
        ) ==> final(rts)@.drawn == old(rts)@.drawn,
    decreases depth, 4nat,
{
    reveal_with_fuel(RtsView::called, 1);
    let ghost before = rts@;
    if sameText(name, "randUInt") {
        if args.len() > 1 {
            let min: usize = match indexValue(&args[0]) {
                Some(v) => v,
                None => 0,
            };
            let max: usize = match indexValue(&args[1]) {
                Some(v) => v,
                None => 0,
            };
            if min <= max && rts.pauseOf() == Pause::Running {
                let value: usize = match rts.replayNumber(min, max) {
                    Some(again) => again,
                    None => drawNumber(min, max),
                };
                rts.recordDraw(value);
                randomToken(value)
            } else {
                nothing()
            }
        } else {
            nothing()
        }
    } else if sameText(name, "int") {
        if args.len() > 0 {
            let mut r = literal(&args[0]);
            r.setDataType(TokenType::Int);
            r
        } else {
            nothing()
        }
    } else if sameText(name, "str") {
        if args.len() > 0 {
            let mut r = literal(&args[0]);
            r.setDataType(TokenType::String);
            r
        } else {
            nothing()
        }
    } else if sameText(name, "char") {
        if args.len() > 0 {
            match indexValue(&args[0]) {
                Some(v) => {
                    if v <= 255 {
                        let mut text: Vec<u8> = Vec::new();
                        text.push(v as u8);
                        assert(text@ =~= seq![v as u8]);
                        Token::new(TokenType::Char, text)
                    } else {
                        nothing()
                    }
                },
                None => nothing(),
            }
        } else {
            nothing()
        }
    } else if sameText(name, "type") {
        if args.len() > 0 {
            Token::new(TokenType::String, typeName(args[0].dataType))
        } else {
            nothing()
        }
    } else if sameText(name, "input") {
        if args.len() > 0 {
            rts.emit(Effect::Write(payloadOf(&args[0])));
        }
        let text = rts.readInput();
        Token::new(TokenType::String, trimEnd(text))
    } else if sameText(name, "println") {
        let mut text = payloadOf(&firstOf(args));
        text.push(NEWLINE);
        rts.emit(Effect::Print(text));
        nothing()
    } else if sameText(name, "print") {
        rts.emit(Effect::Print(payloadOf(&firstOf(args))));
        nothing()
    } else if sameText(name, "sleep") {
        let ms: i64 = numberValue(&firstOf(args));
        rts.emit(
            Effect::Sleep(
                if ms >= 0 {
                    ms as u64
                } else {
                    0
                },
            ),
        );
        nothing()
    } else if sameText(name, "exec") {
        rts.emit(Effect::Exec(payloadOf(&firstOf(args))));
        nothing()
    } else if sameText(name, "exit") {
        let code: i64 = numberValue(&firstOf(args));
        rts.halt(
            if -2147483648 <= code && code <= 2147483647 {
                code as i32
            } else {
                0
            },
        );
        nothing()
    } else if sameText(name, "ex") {
        let mut text = "ex".as_bytes_vec();
        text.push(NEWLINE);
        rts.emit(Effect::Write(text));
        nothing()
    } else {
        match rts.getStructureByName(scope, name) {
            None => nothing(),
            Some(id) => {
                if depth == 0 {
                    rts.haltOverflow();
                    return nothing();
                }
                bindParameters(rts, id, args);
                runLines(rts, id, depth - 1);
                match rts.resultOf(id) {
                    Some(r) => literal(&r),
                    None => nothing(),
                }
            },
        }
    }
}

/// The first rewrite pass: resolves the calls, names and paths of a token
/// sequence.
#[verifier::spinoff_prover]
pub fn resolveNames(rts: &mut RTS, scope: usize, tokens: &mut Vec<Token>, depth: usize)
    requires
        old(rts).wf(),
        old(rts)@.has(scope as int),
    ensures
        grows(old(rts)@, final(rts)@),
        forall|oracle: Seq<usize>|
            #![trigger old(rts)@.namesResolved(scope as int, tokensView(old(tokens)@), 0, depth as nat, oracle)]
            follows(final(rts)@.drawn, oracle) ==> (Rewrite {
                state: final(rts)@,
                tokens: tokensView(final(tokens)@),
            }) == old(rts)@.namesResolved(scope as int, tokensView(old(tokens)@), 0, depth as nat, oracle),
    decreases depth, 5nat,
{
    reveal_with_fuel(RtsView::namesResolved, 1);
    let ghost before = rts@;
    let ghost orig = tokensView(tokens@);
    let mut i: usize = 0;
    while i < tokens.len()
        invariant
            rts.wf(),
            rts@.has(scope as int),
            grows(before, rts@),
            forall|oracle: Seq<usize>|
                #![trigger before.namesResolved(scope as int, orig, 0, depth as nat, oracle)]
                follows(rts@.drawn, oracle) ==> rts@.namesResolved(
                    scope as int,
                    tokensView(tokens@),
                    i as int,
                    depth as nat,
                    oracle,
                ) == before.namesResolved(scope as int, orig, 0, depth as nat, oracle),
        decreases tokens.len() - i,
    {
        proof {
            reveal_with_fuel(RtsView::namesResolved, 1);
        }
        let kind: TokenType = tokens[i].dataType;
        if kind == TokenType::Word {
            let name = payloadOf(&tokens[i]);
            if i + 1 < tokens.len() && tokens[i + 1].dataType == TokenType::CircleBracketBegin {
                let bracket = removeToken(tokens, i + 1);
                let groups = splitTokens(&nestedOf(bracket));
                let args = getExpressionParameters(rts, scope, &groups, depth);
                let result = methodCall(rts, scope, &name, &args, depth);
                setToken(tokens, i, result);
            } else if i + 1 < tokens.len() && tokens[i + 1].dataType
                == TokenType::SquareBracketBegin && rts.getStructureByName(scope, &name).is_some() {
                let bracket = removeToken(tokens, i + 1);
                let result = replaceMemoryCellByName(
                    rts,
                    scope,
                    &name,
                    Some(nestedOf(bracket)),
                    depth,
                );
                setToken(tokens, i, result);
            } else {
                let result = replaceMemoryCellByName(rts, scope, &name, None, depth);
                setToken(tokens, i, result);
            }
        } else if kind == TokenType::Link {
            let path = payloadOf(&tokens[i]);
            let result = linkValue(rts, scope, &path, depth);
            setToken(tokens, i, result);
        }
        i += 1;
    }
}

/// The second rewrite pass: evaluates the round brackets of a token
/// sequence.
#[verifier::spinoff_prover]
pub fn resolveGroups(rts: &mut RTS, scope: usize, tokens: &mut Vec<Token>, depth: usize)
    requires
        old(rts).wf(),
        old(rts)@.has(scope as int),
    ensures
        grows(old(rts)@, final(rts)@),
        forall|oracle: Seq<usize>|
            #![trigger old(rts)@.grouped(scope as int, tokensView(old(tokens)@), 0, depth as nat, oracle)]
            follows(final(rts)@.drawn, oracle) ==> (Rewrite {
                state: final(rts)@,
                tokens: tokensView(final(tokens)@),
            }) == old(rts)@.grouped(scope as int, tokensView(old(tokens)@), 0, depth as nat, oracle),
    decreases depth, 5nat,
{
    reveal_with_fuel(RtsView::grouped, 1);
    let ghost before = rts@;
    let ghost orig = tokensView(tokens@);
    let mut i: usize = 0;
    while i < tokens.len()
        invariant
            rts.wf(),
            rts@.has(scope as int),
            grows(before, rts@),
            forall|oracle: Seq<usize>|
                #![trigger before.grouped(scope as int, orig, 0, depth as nat, oracle)]
                follows(rts@.drawn, oracle) ==> rts@.grouped(
                    scope as int,
                    tokensView(tokens@),
                    i as int,
                    depth as nat,
                    oracle,
                ) == before.grouped(scope as int, orig, 0, depth as nat, oracle),
        decreases tokens.len() - i,
    {
        proof {
            reveal_with_fuel(RtsView::grouped, 1);
        }
        if tokens[i].dataType == TokenType::CircleBracketBegin {
            if depth == 0 {
                rts.haltOverflow();
                setToken(tokens, i, nothing());
            } else {
                proof {
                    lemma_nested_view(tokens@[i as int]);
                }
                let inner = copyTokens(&tokens[i].tokens);
                let result = expression(rts, scope, inner, depth - 1);
                setToken(tokens, i, result);
            }
        }
        i += 1;
    }
}

/// The text of a formatted literal with each `{ .. }` span replaced by the
/// payload of what the span evaluates to.
#[verifier::spinoff_prover]
pub fn formatQuote(rts: &mut RTS, scope: usize, quote: &Vec<u8>, depth: usize) -> (r: Vec<u8>)
    requires
        old(rts).wf(),
        old(rts)@.has(scope as int),
    ensures
        grows(old(rts)@, final(rts)@),
        forall|oracle: Seq<usize>|
            #![trigger old(rts)@.formatted(scope as int, quote@, 0, false, Seq::empty(), Seq::empty(), depth as nat, oracle)]
            follows(final(rts)@.drawn, oracle) ==> (Interpolation { state: final(rts)@, text: r@ })
                == old(rts)@.formatted(
                scope as int,
                quote@,
                0,
                false,
                Seq::empty(),
                Seq::empty(),
                depth as nat,
                oracle,
            ),
    decreases depth, 2nat,
{
    reveal_with_fuel(RtsView::formatted, 1);
    let ghost before = rts@;
    let mut result: Vec<u8> = Vec::new();
    let mut buffer: Vec<u8> = Vec::new();
    let mut reading: bool = false;
    let mut i: usize = 0;
    while i < quote.len()
        invariant
            i <= quote.len(),
            rts.wf(),
            rts@.has(scope as int),
            grows(before, rts@),
            forall|oracle: Seq<usize>|
                #![trigger before.formatted(scope as int, quote@, 0, false, Seq::empty(), Seq::empty(), depth as nat, oracle)]
                follows(rts@.drawn, oracle) ==> rts@.formatted(
                    scope as int,
                    quote@,
                    i as int,
                    reading,
                    buffer@,
                    result@,
                    depth as nat,
                    oracle,
                ) == before.formatted(
                    scope as int,
                    quote@,
                    0,
                    false,
                    Seq::empty(),
                    Seq::empty(),
                    depth as nat,
                    oracle,
                ),
        decreases quote.len() - i,
    {
        proof {
            reveal_with_fuel(RtsView::formatted, 1);
        }
        let c: u8 = quote[i];
        if c == LBRACE {
            reading = true;
        } else if c == RBRACE {
            reading = false;
            if depth == 0 {
                rts.haltOverflow();
                buffer = Vec::new();
            } else {
                let mut source: Vec<u8> = Vec::new();
                std::mem::swap(&mut source, &mut buffer);
                source.push(NEWLINE);
                let mut lines = readTokens(source);
                let tokens: Vec<Token> = if lines.len() > 0 {
                    proof {
                        lemma_nested_lines(lines@[0]);
                    }
                    copyTokens(&lines[0].tokens)
                } else {
                    Vec::new()
                };
                assert(tokensView(tokens@) =~= if linesView(lines@).len() > 0 {
                    linesView(lines@)[0].tokens
                } else {
                    Seq::empty()
                });
                let value = expression(rts, scope, tokens, depth - 1);
                let mut text = payloadOf(&value);
                result.append(&mut text);
            }
            assert(buffer@ =~= Seq::empty());
        } else if reading {
            buffer.push(c);
        } else {
            result.push(c);
        }
        i += 1;
    }
    result
}

/// Evaluates a token sequence in `scope` to one token.
#[verifier::spinoff_prover]
pub fn expression(rts: &mut RTS, scope: usize, tokens: Vec<Token>, depth: usize) -> (r: Token)
    requires
        old(rts).wf(),
        old(rts)@.has(scope as int),
    ensures
        grows(old(rts)@, final(rts)@),
        forall|oracle: Seq<usize>|
            #![trigger old(rts)@.evaluated(scope as int, tokensView(tokens@), depth as nat, oracle)]
            follows(final(rts)@.drawn, oracle) ==> (Outcome { state: final(rts)@, token: r@ })
                == old(rts)@.evaluated(scope as int, tokensView(tokens@), depth as nat, oracle),
    decreases depth, 6nat,
{
    reveal_with_fuel(RtsView::evaluated, 1);
    let mut tokens = tokens;
    if tokens.len() == 1 && tokens[0].dataType != TokenType::CircleBracketBegin {
        let kind: TokenType = tokens[0].dataType;
        if kind == TokenType::Word {
            let name = payloadOf(&tokens[0]);
            replaceMemoryCellByName(rts, scope, &name, None, depth)
        } else if kind == TokenType::Link {
            let path = payloadOf(&tokens[0]);
            linkValue(rts, scope, &path, depth)
        } else if kind == TokenType::FormattedString || kind == TokenType::FormattedRawString
            || kind == TokenType::FormattedChar {
            let quote = payloadOf(&tokens[0]);
            let text = formatQuote(rts, scope, &quote, depth);
            let mut r = removeToken(&mut tokens, 0);
            r.setData(Some(text));
            r
        } else {
            removeToken(&mut tokens, 0)
        }
    } else {
        resolveNames(rts, scope, &mut tokens, depth);
        resolveGroups(rts, scope, &mut tokens, depth);
        reduceAll(&mut tokens);
        firstOf(&tokens)
    }
}

/// Applies an assignment operator to the structure `id`.
#[verifier::spinoff_prover]
pub fn structureOp(
    rts: &mut RTS,
    scope: usize,
    id: usize,
    op: TokenType,
    right: Vec<Token>,
    depth: usize,
)
    requires
        old(rts).wf(),
        old(rts)@.has(scope as int),
        old(rts)@.has(id as int),
    ensures
        grows(old(rts)@, final(rts)@),
        forall|oracle: Seq<usize>|
            #![trigger old(rts)@.operated(scope as int, id as int, op, tokensView(right@), depth as nat, oracle)]
            follows(final(rts)@.drawn, oracle) ==> final(rts)@ == old(rts)@.operated(
                scope as int,
                id as int,
                op,
                tokensView(right@),
                depth as nat,
                oracle,
            ),
    decreases depth, 8nat,
{
    reveal_with_fuel(RtsView::operated, 1);
    let compound: Option<TokenType> = match op {
        TokenType::PlusEquals => Some(TokenType::Plus),
        TokenType::MinusEquals => Some(TokenType::Minus),
        TokenType::MultiplyEquals => Some(TokenType::Multiply),
        TokenType::DivideEquals => Some(TokenType::Divide),
        TokenType::ModuloEquals => Some(TokenType::Modulo),
        _ => None,
    };
    let step: Option<TokenType> = match op {
        TokenType::UnaryPlus => Some(TokenType::Plus),
        TokenType::UnaryMinus => Some(TokenType::Minus),
        _ => None,
    };
    assert(compound == compoundOperator(op));
    assert(step == stepOperator(op));
    if op == TokenType::Equals {
        let value = expression(rts, scope, right, depth);
        rts.setLines(id, valueBody(literal(&value)));
    } else if compound.is_some() {
        let before = elementValue(rts, id, 0, depth);
        let value = expression(rts, scope, right, depth);
        let result = calculate(&compound.unwrap(), &before, &value);
        rts.setLines(id, valueBody(literal(&result)));
    } else if step.is_some() {
        let before = elementValue(rts, id, 0, depth);
        let one = Token::fromStr(TokenType::UInt, "1");
        let result = calculate(&step.unwrap(), &before, &one);
        rts.setLines(id, valueBody(literal(&result)));
    }
}

/// The mutability and the type that the target of an assignment declares.
#[verifier::spinoff_prover]
fn declaration(left: &Vec<Token>) -> (r: (StructureMut, StructureType))
    ensures
        r.0 == declaredMut(tokensView(left@)),
        r.1 == declaredType(tokensView(left@)),
{
    let isMarked: bool = left.len() > 1 && (left[1].dataType == TokenType::Tilde
        || left[1].dataType == TokenType::DoubleTilde);
    let at: usize = if isMarked {
        2
    } else {
        1
    };
    let mutability = if isMarked {
        StructureMut::Variable
    } else {
        StructureMut::Constant
    };
    let dataType = if left.len() >= 2 && at < left.len() - 1 && left[at].dataType
        == TokenType::Colon {
        match left[at + 1].dataType {
            TokenType::UInt => StructureType::UInt,
            TokenType::Int => StructureType::Int,
            TokenType::UFloat => StructureType::UFloat,
            TokenType::Float => StructureType::Float,
            TokenType::Rational => StructureType::Rational,
            TokenType::Bool => StructureType::Bool,
            TokenType::Char => StructureType::Char,
            TokenType::String => StructureType::String,
            TokenType::RawString => StructureType::RawString,
            _ => StructureType::Unset,
        }
    } else {
        StructureType::Unset
    };
    (mutability, dataType)
}

/// Runs a linear record: assigns to the structure that the first token
/// names, or creates it as a member of `scope`.
#[verifier::spinoff_prover]
fn assign(rts: &mut RTS, scope: usize, tokens: &Vec<Token>, at: usize, depth: usize)
    requires
        old(rts).wf(),
        old(rts)@.has(scope as int),
        1 <= at < tokens@.len(),
    ensures
        grows(old(rts)@, final(rts)@),
        forall|oracle: Seq<usize>|
            #![trigger old(rts)@.assigned(scope as int, tokensView(tokens@), at as int, depth as nat, oracle)]
            follows(final(rts)@.drawn, oracle) ==> final(rts)@ == old(rts)@.assigned(
                scope as int,
                tokensView(tokens@),
                at as int,
                depth as nat,
                oracle,
            ),
    decreases depth, 9nat,
{
    reveal_with_fuel(RtsView::assigned, 1);
    let ghost all = tokensView(tokens@);
    let name = payloadOf(&tokens[0]);
    let mut left = copyTokens(tokens);
    left.truncate(at);
    assert(tokensView(left@) =~= all.take(at as int));
    let mut right: Vec<Token> = Vec::new();
    assert(at < tokens.len());
    let mut k: usize = at + 1;
    assert(tokensView(right@) =~= all.subrange(at + 1, k as int));
    while k < tokens.len()
        invariant
            at < k <= tokens.len(),
            all == tokensView(tokens@),
            tokensView(right@) == all.subrange(at + 1, k as int),
        decreases tokens.len() - k,
    {
        pushToken(&mut right, tokens[k].copy());
        k += 1;
        assert(tokensView(right@) =~= all.subrange(at + 1, k as int));
    }
    assert(tokensView(right@) =~= all.skip(at + 1));
    match rts.getStructureByName(scope, &name) {
        Some(id) => {
            structureOp(rts, scope, id, tokens[at].dataType, right, depth);
        },
        None => {
            let declared = declaration(&left);
            let mut lines: Vec<Line> = Vec::new();
            let line = newLine(right);
            proof {
                lemma_linesView_push(lines@, line);
            }
            lines.push(line);
            assert(linesView(lines@) =~= seq![plainLine(all.skip(at + 1))]);
            let mut node = Structure::new(name, lines, Some(scope));
            node.mutability = declared.0;
            node.dataType = declared.1;
            let id = rts.addStructure(node);
            rts.pushStructure(scope, id);
        },
    }
}

/// Runs a declaration: creates the structure that the line declares as a
/// member of `scope` and runs its body at once.
#[verifier::spinoff_prover]
fn declare(rts: &mut RTS, scope: usize, line: &Line, depth: usize)
    requires
        old(rts).wf(),
        old(rts)@.has(scope as int),
        line@.tokens.len() > 0,
    ensures
        grows(old(rts)@, final(rts)@),
        forall|oracle: Seq<usize>|
            #![trigger old(rts)@.declared(scope as int, line@, depth as nat, oracle)]
            follows(final(rts)@.drawn, oracle) ==> final(rts)@ == old(rts)@.declared(
                scope as int,
                line@,
                depth as nat,
                oracle,
            ),
    decreases depth, 9nat,
{
    reveal_with_fuel(RtsView::declared, 1);
    proof {
        lemma_nested_lines(*line);
    }
    let count: usize = line.tokens.len();
    let names: Vec<Vec<u8>> = if count > 1 && line.tokens[1].dataType
        == TokenType::CircleBracketBegin {
        proof {
            lemma_nested_view(line.tokens@[1]);
        }
        getStructureParameters(&line.tokens[1].tokens)
    } else {
        let names: Vec<Vec<u8>> = Vec::new();
        assert(namesView(names@) =~= Seq::empty());
        names
    };
    let at: usize = if count > 1 && line.tokens[1].dataType == TokenType::CircleBracketBegin {
        2
    } else {
        1
    };
    let result: Option<Token> = if count >= 2 && at < count - 1 && line.tokens[at].dataType
        == TokenType::Pointer && line.tokens[at + 1].dataType != TokenType::Nothing {
        Some(Token::newEmpty(line.tokens[at + 1].dataType))
    } else {
        None
    };
    let mut node = Structure::new(payloadOf(&line.tokens[0]), copyLines(&line.lines), Some(scope));
    node.result = result;
    let id = rts.addStructure(node);
    addParameters(rts, id, &names);
    rts.pushStructure(scope, id);
    if depth == 0 {
        rts.haltOverflow();
    } else {
        runLines(rts, id, depth - 1);
    }
}

/// Runs a block in a scope of its own below `scope`.
#[verifier::spinoff_prover]
fn runBlock(rts: &mut RTS, scope: usize, name: &str, lines: Vec<Line>, depth: usize)
    requires
        old(rts).wf(),
        old(rts)@.has(scope as int),
    ensures
        grows(old(rts)@, final(rts)@),
        forall|oracle: Seq<usize>|
            #![trigger old(rts)@.blockRun(scope as int, name.spec_bytes(), linesView(lines@), depth as nat, oracle)]
            follows(final(rts)@.drawn, oracle) ==> final(rts)@ == old(rts)@.blockRun(
                scope as int,
                name.spec_bytes(),
                linesView(lines@),
                depth as nat,
                oracle,
            ),
    decreases depth, 7nat,
{
    reveal_with_fuel(RtsView::blockRun, 1);
    if depth == 0 {
        rts.haltOverflow();
    } else {
        let id = rts.addStructure(Structure::new(name.as_bytes_vec(), lines, Some(scope)));
        runLines(rts, id, depth - 1);
    }
}

/// Runs the first block of a conditional group whose guard holds, or its
/// else block.
#[verifier::spinoff_prover]
fn branch(rts: &mut RTS, scope: usize, group: &Vec<Line>, depth: usize)
    requires
        old(rts).wf(),
        old(rts)@.has(scope as int),
    ensures
        grows(old(rts)@, final(rts)@),
        forall|oracle: Seq<usize>|
            #![trigger old(rts)@.branched(scope as int, linesView(group@), 0, depth as nat, oracle)]
            follows(final(rts)@.drawn, oracle) ==> final(rts)@ == old(rts)@.branched(
                scope as int,
                linesView(group@),
                0,
                depth as nat,
                oracle,
            ),
    decreases depth, 8nat,
{
    reveal_with_fuel(RtsView::branched, 1);
    let ghost before = rts@;
    let ghost all = linesView(group@);
    let mut k: usize = 0;
    while k < group.len()
        invariant
            k <= group.len(),
            rts.wf(),
            rts@.has(scope as int),
            grows(before, rts@),
            before == old(rts)@,
            all == linesView(group@),
            forall|oracle: Seq<usize>|
                #![trigger before.branched(scope as int, all, 0, depth as nat, oracle)]
                follows(rts@.drawn, oracle) ==> rts@.branched(scope as int, all, k as int, depth as nat, oracle)
                    == before.branched(scope as int, all, 0, depth as nat, oracle),
        decreases group.len() - k,
    {
        proof {
            reveal_with_fuel(RtsView::branched, 1);
        }
        proof {
            lemma_nested_lines(group@[k as int]);
        }
        if group[k].tokens.len() > 1 {
            let mut guard = copyTokens(&group[k].tokens);
            let _ = removeToken(&mut guard, 0);
            assert(tokensView(guard@) =~= all[k as int].tokens.skip(1));
            let value = expression(rts, scope, guard, depth);
            let truth: bool = match &value.data {
                Some(d) => sameText(d, "1"),
                None => false,
            };
            if truth {
                runBlock(rts, scope, "if-elif", copyLines(&group[k].lines), depth);
                return ;
            }
        } else {
            runBlock(rts, scope, "else", copyLines(&group[k].lines), depth);
            return ;
        }
        k += 1;
    }
}

/// Runs the conditional group that begins at the cursor of `scope`.
#[verifier::spinoff_prover]
fn searchCondition(rts: &mut RTS, scope: usize, depth: usize)
    requires
        old(rts).wf(),
        old(rts)@.has(scope as int),
    ensures
        grows(old(rts)@, final(rts)@),
        forall|oracle: Seq<usize>|
            #![trigger old(rts)@.conditional(scope as int, depth as nat, oracle)]
            follows(final(rts)@.drawn, oracle) ==> final(rts)@ == old(rts)@.conditional(
                scope as int,
                depth as nat,
                oracle,
            ),
    decreases depth, 9nat,
{
    reveal_with_fuel(RtsView::conditional, 1);
    let ghost lines = rts@.node(scope as int).lines;
    let start: usize = rts.lineIndexOf(scope);
    let total: usize = rts.lineCount(scope);
    let mut group: Vec<Line> = Vec::new();
    let mut i: usize = start;
    assert(linesView(group@) =~= Seq::empty());
    assert(linesView(group@) + conditionGroup(lines, i as int) =~= conditionGroup(
        lines,
        start as int,
    ));
    let mut more: bool = true;
    while more && i < total
        invariant
            rts.wf(),
            rts@.has(scope as int),
            rts@ == old(rts)@,
            lines == rts@.node(scope as int).lines,
            total == lines.len(),
            start <= i,
            linesView(group@) + conditionGroup(lines, i as int) == conditionGroup(
                lines,
                start as int,
            ),
            !more ==> conditionGroup(lines, i as int).len() == 0,
        decreases total - i + if more { 1int } else { 0int },
    {
        let line = rts.copyLine(scope, i);
        if line.tokens.len() > 0 && line.tokens[0].dataType == TokenType::Question {
            let ghost before = linesView(group@);
            proof {
                lemma_linesView_push(group@, line);
            }
            group.push(line);
            i += 1;
            assert(linesView(group@) + conditionGroup(lines, i as int) =~= before + conditionGroup(
                lines,
                i - 1,
            ));
        } else {
            more = false;
        }
    }
    assert(linesView(group@) =~= conditionGroup(lines, start as int));
    let count: usize = group.len();
    branch(rts, scope, &group, depth);
    if count > 0 {
        let cursor: usize = rts.lineIndexOf(scope);
        rts.setLineIndex(scope, advance(cursor, count - 1));
    }
}

/// Tries a line as a structure: a declaration, a linear record or a
/// conditional group. Says whether it was one.
#[verifier::spinoff_prover]
pub fn searchStructure(rts: &mut RTS, line: &Line, scope: usize, depth: usize) -> (r: bool)
    requires
        old(rts).wf(),
        old(rts)@.has(scope as int),
        line@.tokens.len() > 0,
    ensures
        grows(old(rts)@, final(rts)@),
        forall|oracle: Seq<usize>|
            #![trigger old(rts)@.structureSearched(scope as int, line@, depth as nat, oracle)]
            follows(final(rts)@.drawn, oracle) ==> (Handled { state: final(rts)@, handled: r })
                == old(rts)@.structureSearched(scope as int, line@, depth as nat, oracle),
    decreases depth, 10nat,
{
    reveal_with_fuel(RtsView::structureSearched, 1);
    proof {
        lemma_nested_lines(*line);
    }
    let first: TokenType = line.tokens[0].dataType;
    if first == TokenType::Word {
        if line.lines.len() > 0 {
            if line.tokens[0].data.is_some() {
                declare(rts, scope, line, depth);
                true
            } else {
                false
            }
        } else {
            match findOperator(&line.tokens) {
                Some(at) => {
                    if at >= 1 && line.tokens[0].data.is_some() {
                        assign(rts, scope, &line.tokens, at, depth);
                        true
                    } else {
                        false
                    }
                },
                None => false,
            }
        }
    } else if first == TokenType::Question && line.lines.len() > 0 {
        searchCondition(rts, scope, depth);
        true
    } else {
        false
    }
}

/// Tries a line as a return: `=` and the expression whose value goes into
/// the result slot of structure `id`. Says whether it was one.
#[verifier::spinoff_prover]
pub fn searchReturn(rts: &mut RTS, line: &Line, id: usize, depth: usize) -> (r: bool)
    requires
        old(rts).wf(),
        old(rts)@.has(id as int),
        line@.tokens.len() > 0,
    ensures
        grows(old(rts)@, final(rts)@),
        forall|oracle: Seq<usize>|
            #![trigger old(rts)@.returnSearched(id as int, line@, depth as nat, oracle)]
            follows(final(rts)@.drawn, oracle) ==> (Handled { state: final(rts)@, handled: r })
                == old(rts)@.returnSearched(id as int, line@, depth as nat, oracle),
    decreases depth, 9nat,
{
    reveal_with_fuel(RtsView::returnSearched, 1);
    if line.tokens[0].dataType == TokenType::Equals {
        let mut tokens = copyTokens(&line.tokens);
        let _ = removeToken(&mut tokens, 0);
        assert(tokensView(tokens@) =~= line@.tokens.skip(1));
        let value = expression(rts, id, tokens, depth);
        let slot: Option<Token> = match rts.resultOf(id) {
            Some(slot) => {
                let mut kept = slot;
                kept.setData(copyData(&value.data));
                Some(kept)
            },
            None => Some(value),
        };
        rts.setResult(id, slot);
        true
    } else {
        false
    }
}

/// Runs one line of the body of structure `id`.
#[verifier::spinoff_prover]
fn runLine(rts: &mut RTS, id: usize, line: &Line, depth: usize)
    requires
        old(rts).wf(),
        old(rts)@.has(id as int),
        line@.tokens.len() > 0,
    ensures
        grows(old(rts)@, final(rts)@),
        forall|oracle: Seq<usize>|
            #![trigger old(rts)@.lineRun(id as int, line@, depth as nat, oracle)]
            follows(final(rts)@.drawn, oracle) ==> final(rts)@ == old(rts)@.lineRun(
                id as int,
                line@,
                depth as nat,
                oracle,
            ),
    decreases depth, 11nat,
{
    reveal_with_fuel(RtsView::lineRun, 1);
    if !searchStructure(rts, line, id, depth) {
        if !searchReturn(rts, line, id, depth) {
            let _ = expression(rts, id, copyTokens(&line.tokens), depth);
        }
    }
}

/// Runs the body of structure `id` from its cursor on, with `depth` levels
/// of nesting left.
#[verifier::spinoff_prover]
pub fn runLines(rts: &mut RTS, id: usize, depth: usize)
    requires
        old(rts).wf(),
        old(rts)@.has(id as int),
    ensures
        grows(old(rts)@, final(rts)@),
        forall|oracle: Seq<usize>|
            #![trigger old(rts)@.ran(id as int, depth as nat, oracle)]
            follows(final(rts)@.drawn, oracle) ==> final(rts)@ == old(rts)@.ran(
                id as int,
                depth as nat,
                oracle,
            ),
        final(rts)@.node(id as int).lineIndex == 0,
    decreases depth, 12nat,
{
    reveal_with_fuel(RtsView::ran, 1);
    let ghost before = rts@;
    let mut running: bool = true;
    while running
        invariant
            rts.wf(),
            rts@.has(id as int),
            grows(before, rts@),
            forall|oracle: Seq<usize>|
                #![trigger before.ran(id as int, depth as nat, oracle)]
                follows(rts@.drawn, oracle) ==> if running {
                        rts@.ran(id as int, depth as nat, oracle) == before.ran(
                            id as int,
                            depth as nat,
                            oracle,
                        )
                    } else {
                        rts@ == before.ran(id as int, depth as nat, oracle)
                    },
            !running ==> rts@.node(id as int).lineIndex == 0,
        decreases rts@.steps + if running { 1int } else { 0int },
    {
        proof {
            reveal_with_fuel(RtsView::ran, 1);
        }
        let cursor: usize = rts.lineIndexOf(id);
        if rts.isHalted() || cursor >= rts.lineCount(id) {
            rts.setLineIndex(id, 0);
            running = false;
        } else if rts.stepsLeft() == 0 {
            rts.haltOverflow();
            rts.setLineIndex(id, 0);
            running = false;
        } else {
            let line = rts.copyLine(id, cursor);
            rts.step();
            if line.tokens.len() > 0 {
                runLine(rts, id, &line, depth);
            }
            let next: usize = rts.lineIndexOf(id);
            rts.setLineIndex(id, advance(next, 1));
        }
    }
}

/// Runs the body of a structure to its end or to a halt, with the nesting
/// that the session allows. Afterwards the cursor of the structure is back at
/// 0, so that the body can be run again.
#[verifier::spinoff_prover]
pub fn readLines(rts: &mut RTS, structure: usize)
    requires
        old(rts).wf(),
        old(rts)@.has(structure as int),
    ensures
        grows(old(rts)@, final(rts)@),
        forall|oracle: Seq<usize>|
            #![trigger old(rts)@.ran(structure as int, old(rts)@.maxDepth as nat, oracle)]
            follows(final(rts)@.drawn, oracle) ==> final(rts)@ == old(rts)@.ran(
                structure as int,
                old(rts)@.maxDepth as nat,
                oracle,
            ),
        final(rts)@.has(structure as int),
        final(rts)@.node(structure as int).lineIndex == 0,
{
    let depth: usize = rts.depthLimit();
    runLines(rts, structure, depth);
}

/// Runs a program: makes its lines the body of the root, gives the root
/// the members `argc` and `argv`, and runs the body of the root.
#[verifier::spinoff_prover]
pub fn parseLines(rts: &mut RTS, tokenizerLinesLinks: Vec<Line>)
    requires
        old(rts).wf(),
    ensures
        grows(old(rts)@, final(rts)@),
        forall|oracle: Seq<usize>|
            #![trigger old(rts)@.parsed(linesView(tokenizerLinesLinks@), oracle)]
            follows(final(rts)@.drawn, oracle) ==> final(rts)@ == old(rts)@.parsed(
                linesView(tokenizerLinesLinks@),
                oracle,
            ),
        final(rts)@.node(0).lineIndex == 0,
{
    proof {
        lemma_root(rts@);
    }
    let ghost argv = rts@.argv;
    rts.setLines(0, tokenizerLinesLinks);
    let count: usize = rts.argumentCount();
    let argc = rts.addStructure(
        Structure::new(
            "argc".as_bytes_vec(),
            valueBody(Token::new(TokenType::UInt, decimalBytes(count as u64))),
            Some(0),
        ),
    );
    rts.pushStructure(0, argc);
    let mut lines: Vec<Line> = Vec::new();
    let mut i: usize = 0;
    assert(linesView(lines@) =~= argumentLines(argv).take(0));
    while i < count
        invariant
            i <= count == argv.len(),
            rts@.argv == argv,
            linesView(lines@) == argumentLines(argv).take(i as int),
        decreases count - i,
    {
        let mut tokens: Vec<Token> = Vec::new();
        let token = Token::new(TokenType::String, rts.argument(i));
        pushToken(&mut tokens, token);
        assert(tokensView(tokens@) =~= seq![token@]);
        let line = newLine(tokens);
        proof {
            lemma_linesView_push(lines@, line);
        }
        lines.push(line);
        i += 1;
        assert(linesView(lines@) =~= argumentLines(argv).take(i as int));
    }
    assert(argumentLines(argv).take(count as int) =~= argumentLines(argv));
    let argvId = rts.addStructure(Structure::new("argv".as_bytes_vec(), lines, Some(0)));
    rts.pushStructure(0, argvId);
    assert(rts@ == old(rts)@.prepared(linesView(tokenizerLinesLinks@)));
    assert(rts@.maxDepth == old(rts)@.maxDepth);
    readLines(rts, 0);
}

} // verus!
