//! Tokens: one lexical unit, tagged with a kind and carrying either a literal
//! payload or a nested token sequence.
use vstd::prelude::*;
use vstd::string::*;

verus! {

/// The kind of a token.
#[derive(Clone, Copy, Debug, PartialEq, Eq, Structural, Hash)]
pub enum TokenType {
    /// No value: the result of malformed input or of an undefined operation.
    Nothing,
    UInt,
    Int,
    UFloat,
    Float,
    Rational,
    Complex,
    Bool,
    Char,
    String,
    RawString,
    FormattedChar,
    FormattedString,
    FormattedRawString,
    /// A plain identifier.
    Word,
    /// A dotted or indexed path such as `a.b[0]`.
    Link,
    CircleBracketBegin,
    CircleBracketEnd,
    SquareBracketBegin,
    SquareBracketEnd,
    FigureBracketBegin,
    FigureBracketEnd,
    Plus,
    Minus,
    Multiply,
    Divide,
    Modulo,
    Exponent,
    Equals,
    NotEquals,
    GreaterThan,
    LessThan,
    GreaterThanOrEquals,
    LessThanOrEquals,
    UnaryPlus,
    PlusEquals,
    UnaryMinus,
    MinusEquals,
    UnaryMultiply,
    MultiplyEquals,
    UnaryDivide,
    DivideEquals,
    UnaryModulo,
    ModuloEquals,
    UnaryExponent,
    ExponentEquals,
    Pointer,
    Tilde,
    DoubleTilde,
    Inclusion,
    Joint,
    Disjoint,
    Exclusion,
    Endline,
    Colon,
    Comma,
    Dot,
    Question,
    Comment,
}

/// One lexical unit. `data` is the literal payload; `tokens` holds what stands
/// between a bracket and its match once the line has been nested.
#[derive(Debug, PartialEq, Eq)]
pub struct Token {
    pub dataType: TokenType,
    pub data: Option<Vec<u8>>,
    pub tokens: Vec<Token>,
}

/// The mathematical value of a [`Token`].
pub struct TokenView {
    pub dataType: TokenType,
    pub data: Option<Seq<u8>>,
    pub tokens: Seq<TokenView>,
}

/// The payload of a token as a sequence of bytes, if it has one.
pub open spec fn dataView(data: Option<Vec<u8>>) -> Option<Seq<u8>> {
    match data {
        Some(d) => Some(d@),
        None => None,
    }
}

/// The value of a token: its kind, its payload and the values of its nested
/// tokens.
pub open spec fn tokenView(token: Token) -> TokenView
    decreases token,
{
    TokenView {
        dataType: token.dataType,
        data: dataView(token.data),
        tokens: Seq::new(
            token.tokens.len() as nat,
            |i: int|
                if 0 <= i < token.tokens.len() {
                    tokenView(token.tokens[i])
                } else {
                    TokenView::none()
                },
        ),
    }
}

impl View for Token {
    type V = TokenView;

    open spec fn view(&self) -> TokenView {
        tokenView(*self)
    }
}

/// The values of a sequence of tokens, one by one.
pub open spec fn tokensView(tokens: Seq<Token>) -> Seq<TokenView> {
    Seq::new(tokens.len(), |i: int| tokens[i]@)
}

/// The nested tokens of a token's value are the values of its nested tokens.
pub proof fn lemma_nested_view(token: Token)
    ensures
        token@.tokens == tokensView(token.tokens@),
{
    assert(token@.tokens =~= tokensView(token.tokens@));
}

pub proof fn lemma_tokensView_push(tokens: Seq<Token>, token: Token)
    ensures
        tokensView(tokens.push(token)) == tokensView(tokens).push(token@),
{
    assert(tokensView(tokens.push(token)) =~= tokensView(tokens).push(token@));
}

pub proof fn lemma_tokensView_remove(tokens: Seq<Token>, i: int)
    requires
        0 <= i < tokens.len(),
    ensures
        tokensView(tokens.remove(i)) == tokensView(tokens).remove(i),
{
    assert(tokensView(tokens.remove(i)) =~= tokensView(tokens).remove(i));
}

pub proof fn lemma_tokensView_update(tokens: Seq<Token>, i: int, token: Token)
    requires
        0 <= i < tokens.len(),
    ensures
        tokensView(tokens.update(i, token)) == tokensView(tokens).update(i, token@),
{
    assert(tokensView(tokens.update(i, token)) =~= tokensView(tokens).update(i, token@));
}

impl TokenView {
    /// A token of kind `Nothing` with no payload.
    pub open spec fn none() -> TokenView {
        TokenView { dataType: TokenType::Nothing, data: None, tokens: Seq::empty() }
    }

    /// A token of the given kind with no payload.
    pub open spec fn empty(dataType: TokenType) -> TokenView {
        TokenView { dataType, data: None, tokens: Seq::empty() }
    }

    /// A token of the given kind with a payload.
    pub open spec fn literal(dataType: TokenType, data: Seq<u8>) -> TokenView {
        TokenView { dataType, data: Some(data), tokens: Seq::empty() }
    }
}

/// A copy of a byte string.
pub fn copyBytes(bytes: &Vec<u8>) -> (r: Vec<u8>)
    ensures
        r@ == bytes@,
{
    let mut r: Vec<u8> = Vec::new();
    let mut i: usize = 0;
    while i < bytes.len()
        invariant
            i <= bytes.len(),
            r@ == bytes@.subrange(0, i as int),
        decreases bytes.len() - i,
    {
        r.push(bytes[i]);
        i += 1;
        assert(r@ =~= bytes@.subrange(0, i as int));
    }
    assert(bytes@.subrange(0, bytes.len() as int) =~= bytes@);
    r
}

/// Whether two byte strings hold the same bytes.
pub fn sameBytes(a: &Vec<u8>, b: &Vec<u8>) -> (r: bool)
    ensures
        r == (a@ == b@),
{
    if a.len() != b.len() {
        return false;
    }
    let mut i: usize = 0;
    while i < a.len()
        invariant
            i <= a.len(),
            a.len() == b.len(),
            a@.subrange(0, i as int) == b@.subrange(0, i as int),
        decreases a.len() - i,
    {
        if a[i] != b[i] {
            return false;
        }
        i += 1;
        assert(a@.subrange(0, i as int) =~= a@.subrange(0, i - 1).push(a@[i - 1]));
        assert(b@.subrange(0, i as int) =~= b@.subrange(0, i - 1).push(b@[i - 1]));
    }
    assert(a@ =~= a@.subrange(0, a.len() as int));
    assert(b@ =~= b@.subrange(0, b.len() as int));
    true
}

/// A copy of an optional payload.
pub fn copyData(data: &Option<Vec<u8>>) -> (r: Option<Vec<u8>>)
    ensures
        dataView(r) == dataView(*data),
{
    match data {
        Some(d) => Some(copyBytes(d)),
        None => None,
    }
}

/// A deep copy of a sequence of tokens.
pub fn copyTokens(tokens: &Vec<Token>) -> (r: Vec<Token>)
    ensures
        tokensView(r@) == tokensView(tokens@),
        r@.len() == tokens@.len(),
    decreases tokens,
{
    let mut r: Vec<Token> = Vec::new();
    let mut i: usize = 0;
    while i < tokens.len()
        invariant
            i <= tokens.len(),
            r@.len() == i,
            tokensView(r@) == tokensView(tokens@).subrange(0, i as int),
        decreases tokens.len() - i,
    {
        let t = tokens[i].copy();
        proof {
            lemma_tokensView_push(r@, t);
        }
        r.push(t);
        i += 1;
        assert(tokensView(r@) =~= tokensView(tokens@).subrange(0, i as int));
    }
    assert(tokensView(tokens@).subrange(0, tokens.len() as int) =~= tokensView(tokens@));
    r
}

impl Token {
    /// A token of the given kind that carries a payload.
    pub fn new(dataType: TokenType, data: Vec<u8>) -> (r: Token)
        ensures
            r@ == TokenView::literal(dataType, data@),
    {
        let r = Token { dataType, data: Some(data), tokens: Vec::new() };
        assert(r@.tokens =~= Seq::empty());
        r
    }

    /// A token of the given kind without payload.
    pub fn newEmpty(dataType: TokenType) -> (r: Token)
        ensures
            r@ == TokenView::empty(dataType),
    {
        let r = Token { dataType, data: None, tokens: Vec::new() };
        assert(r@.tokens =~= Seq::empty());
        r
    }

    /// A token of the given kind whose payload is the given text.
    pub fn fromStr(dataType: TokenType, text: &str) -> (r: Token)
        ensures
            r@ == TokenView::literal(dataType, text.spec_bytes()),
    {
        Token::new(dataType, text.as_bytes_vec())
    }

    pub fn getDataType(&self) -> (r: TokenType)
        ensures
            r == self@.dataType,
    {
        self.dataType
    }

    pub fn setDataType(&mut self, dataType: TokenType)
        ensures
            final(self)@ == (TokenView { dataType, ..old(self)@ }),
    {
        self.dataType = dataType;
        assert(final(self)@.tokens =~= old(self)@.tokens);
    }

    pub fn getData(&self) -> (r: Option<Vec<u8>>)
        ensures
            dataView(r) == self@.data,
    {
        copyData(&self.data)
    }

    pub fn setData(&mut self, data: Option<Vec<u8>>)
        ensures
            final(self)@ == (TokenView { data: dataView(data), ..old(self)@ }),
    {
        self.data = data;
        assert(final(self)@.tokens =~= old(self)@.tokens);
    }

    /// A deep copy of the token.
    pub fn copy(&self) -> (r: Token)
        ensures
            r@ == self@,
        decreases self,
    {
        let tokens = copyTokens(&self.tokens);
        let r = Token { dataType: self.dataType, data: copyData(&self.data), tokens };
        proof {
            lemma_nested_view(r);
            lemma_nested_view(*self);
        }
        r
    }
}

} // verus!
