//! The pure steps of evaluation: reducing tiers of operators, splitting
//! argument lists and paths, and reading what a token holds.
use vstd::prelude::*;
use vstd::string::*;
use crate::token::{
    Token, TokenType, TokenView, tokensView, copyBytes, copyData, lemma_nested_view,
    lemma_tokensView_push, lemma_tokensView_remove, lemma_tokensView_update,
};
use crate::value::{calculate, parseInteger, wholeNumber};
use crate::tokenizer::{isDigit, allDigits, DOT, LBRACKET, RBRACKET};
use crate::semantics::{
    Tier, inTier, reduced, reducedAll, splitArguments, parameterNames, trimmedEnd, mathOperator,
    operatorPosition, kindName, literalOf, payload, indexOf, numberOr0, segments, firstOr,
};

verus! {

/// The values of a sequence of token sequences, one by one.
pub open spec fn groupsView(groups: Seq<Vec<Token>>) -> Seq<Seq<TokenView>> {
    Seq::new(groups.len(), |i: int| tokensView(groups[i]@))
}

/// The values of a sequence of texts, one by one.
pub open spec fn namesView(names: Seq<Vec<u8>>) -> Seq<Seq<u8>> {
    Seq::new(names.len(), |i: int| names[i]@)
}

/// Takes the token at position `i` out of the sequence.
pub fn removeToken(tokens: &mut Vec<Token>, i: usize) -> (token: Token)
    requires
        i < old(tokens).len(),
    ensures
        token@ == tokensView(old(tokens)@)[i as int],
        tokensView(final(tokens)@) == tokensView(old(tokens)@).remove(i as int),
        final(tokens)@.len() == old(tokens)@.len() - 1,
{
    proof {
        lemma_tokensView_remove(tokens@, i as int);
    }
    tokens.remove(i)
}

/// Puts a token in the place of the token at position `i`.
pub fn setToken(tokens: &mut Vec<Token>, i: usize, token: Token)
    requires
        i < old(tokens).len(),
    ensures
        tokensView(final(tokens)@) == tokensView(old(tokens)@).update(i as int, token@),
        final(tokens)@.len() == old(tokens)@.len(),
{
    proof {
        lemma_tokensView_update(tokens@, i as int, token);
    }
    tokens[i] = token;
}

/// Adds a token at the end of the sequence.
pub fn pushToken(tokens: &mut Vec<Token>, token: Token)
    ensures
        tokensView(final(tokens)@) == tokensView(old(tokens)@).push(token@),
        final(tokens)@.len() == old(tokens)@.len() + 1,
{
    proof {
        lemma_tokensView_push(tokens@, token);
    }
    tokens.push(token);
}

/// The nested tokens of a token.
pub fn nestedOf(token: Token) -> (tokens: Vec<Token>)
    ensures
        tokensView(tokens@) == token@.tokens,
{
    proof {
        lemma_nested_view(token);
    }
    token.tokens
}

/// The literal value of a token: its kind and payload, without nested tokens.
pub fn literal(token: &Token) -> (r: Token)
    ensures
        r@ == literalOf(token@),
{
    let r = Token { dataType: token.dataType, data: copyData(&token.data), tokens: Vec::new() };
    assert(r@.tokens =~= Seq::empty());
    r
}

/// A token without value.
pub fn nothing() -> (r: Token)
    ensures
        r@ == TokenView::none(),
{
    Token::newEmpty(TokenType::Nothing)
}

/// The payload of a token, or the empty text where it has none.
pub fn payloadOf(token: &Token) -> (r: Vec<u8>)
    ensures
        r@ == payload(token@),
{
    match &token.data {
        Some(d) => copyBytes(d),
        None => Vec::new(),
    }
}

/// The first token of a sequence, or no value for the empty sequence.
pub fn firstOf(tokens: &Vec<Token>) -> (r: Token)
    ensures
        r@ == firstOr(tokensView(tokens@)),
{
    if tokens.len() > 0 {
        tokens[0].copy()
    } else {
        nothing()
    }
}

/// The natural number that the payload of a token stands for.
pub fn indexValue(token: &Token) -> (r: Option<usize>)
    ensures
        r == indexOf(token@),
{
    match &token.data {
        Some(d) => match parseInteger(d) {
            Some(v) => {
                if v >= 0 && v as u64 <= usize::MAX as u64 {
                    Some(v as usize)
                } else {
                    None
                }
            },
            None => None,
        },
        None => None,
    }
}

/// The number that the payload of a token stands for, or 0.
pub fn numberValue(token: &Token) -> (r: i64)
    ensures
        r == numberOr0(token@),
{
    match &token.data {
        Some(d) => match parseInteger(d) {
            Some(v) => v,
            None => 0,
        },
        None => 0,
    }
}

/// The name of a kind.
pub fn typeName(kind: TokenType) -> (r: Vec<u8>)
    ensures
        r@ == kindName(kind),
{
    match kind {
        TokenType::Nothing => "None".as_bytes_vec(),
        TokenType::UInt => "UInt".as_bytes_vec(),
        TokenType::Int => "Int".as_bytes_vec(),
        TokenType::UFloat => "UFloat".as_bytes_vec(),
        TokenType::Float => "Float".as_bytes_vec(),
        TokenType::Rational => "Rational".as_bytes_vec(),
        TokenType::Complex => "Complex".as_bytes_vec(),
        TokenType::Bool => "Bool".as_bytes_vec(),
        TokenType::Char => "Char".as_bytes_vec(),
        TokenType::String => "String".as_bytes_vec(),
        TokenType::RawString => "RawString".as_bytes_vec(),
        TokenType::FormattedChar => "FormattedChar".as_bytes_vec(),
        TokenType::FormattedString => "FormattedString".as_bytes_vec(),
        TokenType::FormattedRawString => "FormattedRawString".as_bytes_vec(),
        TokenType::Word => "Word".as_bytes_vec(),
        TokenType::Link => "Link".as_bytes_vec(),
        TokenType::CircleBracketBegin => "CircleBracketBegin".as_bytes_vec(),
        TokenType::CircleBracketEnd => "CircleBracketEnd".as_bytes_vec(),
        TokenType::SquareBracketBegin => "SquareBracketBegin".as_bytes_vec(),
        TokenType::SquareBracketEnd => "SquareBracketEnd".as_bytes_vec(),
        TokenType::FigureBracketBegin => "FigureBracketBegin".as_bytes_vec(),
        TokenType::FigureBracketEnd => "FigureBracketEnd".as_bytes_vec(),
        TokenType::Plus => "Plus".as_bytes_vec(),
        TokenType::Minus => "Minus".as_bytes_vec(),
        TokenType::Multiply => "Multiply".as_bytes_vec(),
        TokenType::Divide => "Divide".as_bytes_vec(),
        TokenType::Modulo => "Modulo".as_bytes_vec(),
        TokenType::Exponent => "Exponent".as_bytes_vec(),
        TokenType::Equals => "Equals".as_bytes_vec(),
        TokenType::NotEquals => "NotEquals".as_bytes_vec(),
        TokenType::GreaterThan => "GreaterThan".as_bytes_vec(),
        TokenType::LessThan => "LessThan".as_bytes_vec(),
        TokenType::GreaterThanOrEquals => "GreaterThanOrEquals".as_bytes_vec(),
        TokenType::LessThanOrEquals => "LessThanOrEquals".as_bytes_vec(),
        TokenType::UnaryPlus => "UnaryPlus".as_bytes_vec(),
        TokenType::PlusEquals => "PlusEquals".as_bytes_vec(),
        TokenType::UnaryMinus => "UnaryMinus".as_bytes_vec(),
        TokenType::MinusEquals => "MinusEquals".as_bytes_vec(),
        TokenType::UnaryMultiply => "UnaryMultiply".as_bytes_vec(),
        TokenType::MultiplyEquals => "MultiplyEquals".as_bytes_vec(),
        TokenType::UnaryDivide => "UnaryDivide".as_bytes_vec(),
        TokenType::DivideEquals => "DivideEquals".as_bytes_vec(),
        TokenType::UnaryModulo => "UnaryModulo".as_bytes_vec(),
        TokenType::ModuloEquals => "ModuloEquals".as_bytes_vec(),
        TokenType::UnaryExponent => "UnaryExponent".as_bytes_vec(),
        TokenType::ExponentEquals => "ExponentEquals".as_bytes_vec(),
        TokenType::Pointer => "Pointer".as_bytes_vec(),
        TokenType::Tilde => "Tilde".as_bytes_vec(),
        TokenType::DoubleTilde => "DoubleTilde".as_bytes_vec(),
        TokenType::Inclusion => "Inclusion".as_bytes_vec(),
        TokenType::Joint => "Joint".as_bytes_vec(),
        TokenType::Disjoint => "Disjoint".as_bytes_vec(),
        TokenType::Exclusion => "Exclusion".as_bytes_vec(),
        TokenType::Endline => "Endline".as_bytes_vec(),
        TokenType::Colon => "Colon".as_bytes_vec(),
        TokenType::Comma => "Comma".as_bytes_vec(),
        TokenType::Dot => "Dot".as_bytes_vec(),
        TokenType::Question => "Question".as_bytes_vec(),
        TokenType::Comment => "Comment".as_bytes_vec(),
    }
}

/// Whether the operator belongs to the tier.
fn isInTier(op: TokenType, tier: Tier) -> (r: bool)
    ensures
        r == inTier(op, tier),
{
    match tier {
        Tier::Comparison => op == TokenType::Inclusion || op == TokenType::Joint || op
            == TokenType::Equals || op == TokenType::NotEquals || op == TokenType::GreaterThan
            || op == TokenType::LessThan || op == TokenType::GreaterThanOrEquals || op
            == TokenType::LessThanOrEquals,
        Tier::Multiplicative => op == TokenType::Multiply || op == TokenType::Divide,
        Tier::Additive => op == TokenType::Plus || op == TokenType::Minus,
    }
}

/// Reduces one tier of binary operators from left to right.
pub fn reduceTier(tokens: &mut Vec<Token>, tier: Tier)
    ensures
        tokensView(final(tokens)@) == reduced(tokensView(old(tokens)@), 1, tier),
{
    let ghost orig = tokensView(tokens@);
    let mut i: usize = 1;
    while i < tokens.len()
        invariant
            1 <= i,
            reduced(tokensView(tokens@), i as int, tier) == reduced(orig, 1, tier),
        decreases tokens.len() - i,
    {
        let op: TokenType = tokens[i].dataType;
        if i + 1 < tokens.len() && isInTier(op, tier) {
            let result = calculate(&op, &tokens[i - 1], &tokens[i + 1]);
            setToken(tokens, i - 1, result);
            let _ = removeToken(tokens, i);
            let _ = removeToken(tokens, i);
        } else if tier == Tier::Additive && (op == TokenType::Int || op == TokenType::Float) {
            let result = calculate(&TokenType::Plus, &tokens[i - 1], &tokens[i]);
            setToken(tokens, i - 1, result);
            let _ = removeToken(tokens, i);
        } else {
            i += 1;
        }
    }
}

/// Reduces the three tiers of binary operators in their order.
pub fn reduceAll(tokens: &mut Vec<Token>)
    ensures
        tokensView(final(tokens)@) == reducedAll(tokensView(old(tokens)@)),
{
    reduceTier(tokens, Tier::Comparison);
    reduceTier(tokens, Tier::Multiplicative);
    reduceTier(tokens, Tier::Additive);
}

proof fn lemma_groupsView_push(groups: Seq<Vec<Token>>, group: Vec<Token>)
    ensures
        groupsView(groups.push(group)) == groupsView(groups).push(tokensView(group@)),
{
    assert(groupsView(groups.push(group)) =~= groupsView(groups).push(tokensView(group@)));
}

/// Splits a token sequence at its commas, empty groups left out.
pub fn splitTokens(tokens: &Vec<Token>) -> (groups: Vec<Vec<Token>>)
    ensures
        groupsView(groups@) == splitArguments(
            tokensView(tokens@),
            0,
            Seq::empty(),
            Seq::empty(),
        ),
{
    let ghost all = tokensView(tokens@);
    let mut groups: Vec<Vec<Token>> = Vec::new();
    let mut current: Vec<Token> = Vec::new();
    let mut i: usize = 0;
    assert(groupsView(groups@) =~= Seq::empty());
    assert(tokensView(current@) =~= Seq::empty());
    while i < tokens.len()
        invariant
            i <= tokens.len(),
            all == tokensView(tokens@),
            splitArguments(all, i as int, tokensView(current@), groupsView(groups@))
                == splitArguments(all, 0, Seq::empty(), Seq::empty()),
        decreases tokens.len() - i,
    {
        if tokens[i].dataType == TokenType::Comma {
            if current.len() > 0 {
                let mut group: Vec<Token> = Vec::new();
                std::mem::swap(&mut group, &mut current);
                proof {
                    lemma_groupsView_push(groups@, group);
                    assert(tokensView(current@) =~= Seq::empty());
                }
                groups.push(group);
            } else {
                assert(tokensView(current@) =~= Seq::empty());
            }
        } else {
            let t = tokens[i].copy();
            pushToken(&mut current, t);
        }
        i += 1;
    }
    if current.len() > 0 {
        proof {
            lemma_groupsView_push(groups@, current);
        }
        groups.push(current);
    }
    groups
}

/// The names of the parameters in a parameter list.
pub fn getStructureParameters(tokens: &Vec<Token>) -> (names: Vec<Vec<u8>>)
    ensures
        namesView(names@) == parameterNames(tokensView(tokens@), 0, Seq::empty()),
{
    let ghost all = tokensView(tokens@);
    let mut names: Vec<Vec<u8>> = Vec::new();
    let mut i: usize = 0;
    assert(namesView(names@) =~= Seq::empty());
    while i < tokens.len()
        invariant
            i <= tokens.len(),
            all == tokensView(tokens@),
            parameterNames(all, i as int, namesView(names@)) == parameterNames(
                all,
                0,
                Seq::empty(),
            ),
        decreases tokens.len() - i,
    {
        if tokens[i].dataType == TokenType::Word && tokens[i].data.is_some() && (i == 0 || tokens[i
            - 1].dataType == TokenType::Comma) {
            let name = payloadOf(&tokens[i]);
            let ghost before = namesView(names@);
            names.push(name);
            assert(namesView(names@) =~= before.push(name@));
        }
        i += 1;
    }
    names
}

/// Removes the white space at the end of a text.
pub fn trimEnd(text: Vec<u8>) -> (r: Vec<u8>)
    ensures
        r@ == trimmedEnd(text@),
{
    let ghost whole = text@;
    let mut text = text;
    while text.len() > 0 && (text[text.len() - 1] == 32 || (text[text.len() - 1] >= 9
        && text[text.len() - 1] <= 13))
        invariant
            trimmedEnd(text@) == trimmedEnd(whole),
        decreases text.len(),
    {
        let _ = text.pop();
    }
    text
}

/// Whether the kind is that of an assignment.
pub fn isMathOperator(dataType: TokenType) -> (r: bool)
    ensures
        r == mathOperator(dataType),
{
    dataType == TokenType::Equals || dataType == TokenType::UnaryPlus || dataType
        == TokenType::PlusEquals || dataType == TokenType::UnaryMinus || dataType
        == TokenType::MinusEquals || dataType == TokenType::UnaryMultiply || dataType
        == TokenType::MultiplyEquals || dataType == TokenType::UnaryDivide || dataType
        == TokenType::DivideEquals || dataType == TokenType::UnaryModulo || dataType
        == TokenType::ModuloEquals || dataType == TokenType::UnaryExponent || dataType
        == TokenType::ExponentEquals
}

/// The position of the first assignment operator of a line.
pub fn findOperator(tokens: &Vec<Token>) -> (r: Option<usize>)
    ensures
        match r {
            Some(at) => operatorPosition(tokensView(tokens@), 0) == Some(at as int) && at
                < tokens@.len(),
            None => operatorPosition(tokensView(tokens@), 0).is_none(),
        },
{
    let mut i: usize = 0;
    while i < tokens.len()
        invariant
            i <= tokens.len(),
            operatorPosition(tokensView(tokens@), i as int) == operatorPosition(
                tokensView(tokens@),
                0,
            ),
        decreases tokens.len() - i,
    {
        if isMathOperator(tokens[i].dataType) {
            return Some(i);
        }
        i += 1;
    }
    None
}

/// Splits a path at its dots and square brackets, empty segments left out.
pub fn splitPath(path: &Vec<u8>) -> (parts: Vec<Vec<u8>>)
    ensures
        namesView(parts@) == segments(path@, 0, Seq::empty(), Seq::empty()),
{
    let mut parts: Vec<Vec<u8>> = Vec::new();
    let mut current: Vec<u8> = Vec::new();
    let mut i: usize = 0;
    assert(namesView(parts@) =~= Seq::empty());
    while i < path.len()
        invariant
            i <= path.len(),
            segments(path@, i as int, current@, namesView(parts@)) == segments(
                path@,
                0,
                Seq::empty(),
                Seq::empty(),
            ),
        decreases path.len() - i,
    {
        let c: u8 = path[i];
        if c == DOT || c == LBRACKET || c == RBRACKET {
            if current.len() > 0 {
                let mut part: Vec<u8> = Vec::new();
                std::mem::swap(&mut part, &mut current);
                let ghost before = namesView(parts@);
                parts.push(part);
                assert(namesView(parts@) =~= before.push(part@));
                assert(current@ =~= Seq::empty());
            } else {
                assert(current@ =~= Seq::empty());
            }
        } else {
            current.push(c);
        }
        i += 1;
    }
    if current.len() > 0 {
        let ghost before = namesView(parts@);
        parts.push(current);
        assert(namesView(parts@) =~= before.push(current@));
    }
    parts
}

/// Whether the text is a run of one or more digits.
pub fn isWholeNumber(text: &Vec<u8>) -> (r: bool)
    ensures
        r == wholeNumber(text@),
{
    if text.len() == 0 {
        return false;
    }
    let mut i: usize = 0;
    while i < text.len()
        invariant
            i <= text.len(),
            allDigits(text@, 0, i as int),
        decreases text.len() - i,
    {
        if !isDigit(&text[i]) {
            return false;
        }
        i += 1;
    }
    true
}

} // verus!
