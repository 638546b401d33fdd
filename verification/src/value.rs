//! Values: what the payload of a literal token stands for, and the typed
//! binary operations on two literal tokens.
use vstd::prelude::*;
use vstd::string::*;
use crate::token::{Token, TokenType, TokenView, copyBytes, sameBytes};
use crate::tokenizer::{sameText, digit, isDigit, allDigits, MINUS, ZERO};
use crate::number::{ratOf, fractionOp, numberOf, calculateFraction};

verus! {

/// The number that a run of decimal digits stands for.
pub open spec fn digitsValue(s: Seq<u8>) -> nat
    decreases s.len(),
{
    if s.len() == 0 {
        0
    } else {
        (digitsValue(s.drop_last()) * 10 + (s.last() - ZERO)) as nat
    }
}

/// Whether `s` is a run of one or more decimal digits.
pub open spec fn wholeNumber(s: Seq<u8>) -> bool {
    s.len() > 0 && allDigits(s, 0, s.len() as int)
}

/// The integer that `s` stands for: digits, or a minus sign and digits.
pub open spec fn integerText(s: Seq<u8>) -> Option<int> {
    if wholeNumber(s) {
        Some(digitsValue(s) as int)
    } else if s.len() > 1 && s[0] == MINUS && wholeNumber(s.skip(1)) {
        Some(-(digitsValue(s.skip(1)) as int))
    } else {
        None
    }
}

/// Whether the integer fits the 64 bits that integer values have.
pub open spec fn inRange(v: int) -> bool {
    i64::MIN <= v <= i64::MAX
}

/// The integer that `s` stands for, if it stands for one that fits.
pub open spec fn integerValue(s: Seq<u8>) -> Option<int> {
    match integerText(s) {
        Some(v) => if inRange(v) {
            Some(v)
        } else {
            None
        },
        None => None,
    }
}

/// The decimal digits of a natural number, without leading zeros.
pub open spec fn decimalText(n: nat) -> Seq<u8>
    decreases n,
{
    if n < 10 {
        seq![(ZERO + n) as u8]
    } else {
        decimalText(n / 10).push((ZERO + n % 10) as u8)
    }
}

/// The text of an integer: its decimal digits, behind a minus sign if it is
/// negative.
pub open spec fn integerBytes(v: int) -> Seq<u8> {
    if v < 0 {
        seq![MINUS] + decimalText((-v) as nat)
    } else {
        decimalText(v as nat)
    }
}

proof fn lemma_digitsValue_grows(s: Seq<u8>, a: int, j: int, k: int)
    requires
        0 <= a <= j <= k <= s.len(),
        allDigits(s, a, k),
    ensures
        digitsValue(s.subrange(a, j)) <= digitsValue(s.subrange(a, k)),
    decreases k - j,
{
    if j < k {
        lemma_digitsValue_grows(s, a, j, k - 1);
        assert(s.subrange(a, k).drop_last() =~= s.subrange(a, k - 1));
        assert(digit(s[k - 1]));
        assert(s.subrange(a, k).last() == s[k - 1]);
    }
}

/// Reads an integer: `Some` exactly where the text is digits, or a minus sign
/// and digits, and the number fits 64 bits.
pub fn parseInteger(bytes: &Vec<u8>) -> (r: Option<i64>)
    ensures
        match r {
            Some(v) => integerValue(bytes@) == Some(v as int),
            None => integerValue(bytes@).is_none(),
        },
{
    let n: usize = bytes.len();
    if n == 0 {
        return None;
    }
    let negative: bool = bytes[0] == MINUS;
    let first: usize = if negative {
        1
    } else {
        0
    };
    if first >= n {
        return None;
    }
    let ghost s = bytes@;
    let mut acc: i64 = 0;
    let mut i: usize = first;
    assert(s.subrange(first as int, first as int) =~= Seq::empty());
    while i < n
        invariant
            first <= i <= n == s.len(),
            s == bytes@,
            first == if negative { 1int } else { 0int },
            negative == (s[0] == MINUS),
            allDigits(s, first as int, i as int),
            acc == -(digitsValue(s.subrange(first as int, i as int)) as int),
        decreases n - i,
    {
        let c: u8 = bytes[i];
        if !isDigit(&c) {
            proof {
                if negative {
                    assert(!digit(s.skip(1)[i - 1]));
                } else {
                    assert(!digit(s[i as int]));
                }
                assert(!digit(s[0]) || !negative);
            }
            return None;
        }
        let ghost before = digitsValue(s.subrange(first as int, i as int));
        proof {
            assert(s.subrange(first as int, i + 1).drop_last() =~= s.subrange(
                first as int,
                i as int,
            ));
            assert(s.subrange(first as int, i + 1).last() == c);
        }
        let next: Option<i64> = match acc.checked_mul(10) {
            Some(m) => m.checked_sub((c - ZERO) as i64),
            None => None,
        };
        match next {
            Some(v) => {
                acc = v;
            },
            None => {
                proof {
                    let whole = s.subrange(first as int, n as int);
                    if allDigits(s, first as int, n as int) {
                        lemma_digitsValue_grows(s, first as int, i + 1, n as int);
                    }
                    assert(s.skip(1) =~= s.subrange(1, n as int));
                    assert(s =~= s.subrange(0, n as int));
                    if negative {
                        assert(!digit(s[0]));
                        if wholeNumber(s.skip(1)) {
                            assert forall|k: int| 1 <= k < n implies digit(#[trigger] s[k]) by {
                                assert(digit(s.skip(1)[k - 1]));
                            }
                        }
                    }
                }
                return None;
            },
        }
        i += 1;
    }
    proof {
        assert(s.skip(1) =~= s.subrange(1, n as int));
        assert(s =~= s.subrange(0, n as int));
        if negative {
            assert(!digit(s[0]));
            assert forall|k: int| 0 <= k < s.skip(1).len() implies digit(
                #[trigger] s.skip(1)[k],
            ) by {
                assert(digit(s[k + 1]));
            }
        }
    }
    if negative {
        Some(acc)
    } else if acc == i64::MIN {
        None
    } else {
        Some(-acc)
    }
}

/// The decimal digits of a number.
pub fn decimalBytes(n: u64) -> (r: Vec<u8>)
    ensures
        r@ == decimalText(n as nat),
    decreases n,
{
    if n < 10 {
        let mut r: Vec<u8> = Vec::new();
        r.push(ZERO + n as u8);
        assert(r@ =~= seq![(ZERO + n) as u8]);
        r
    } else {
        let mut r = decimalBytes(n / 10);
        r.push(ZERO + (n % 10) as u8);
        r
    }
}

/// The text of an integer.
pub fn formatInteger(v: i64) -> (r: Vec<u8>)
    ensures
        r@ == integerBytes(v as int),
{
    if v < 0 {
        let magnitude: u64 = (-(v + 1)) as u64 + 1;
        let mut r: Vec<u8> = Vec::new();
        r.push(MINUS);
        let mut digits = decimalBytes(magnitude);
        r.append(&mut digits);
        assert(r@ =~= seq![MINUS] + decimalText((-v) as nat));
        r
    } else {
        decimalBytes(v as u64)
    }
}

/// The integer that a token stands for: one of kind `UInt` or `Int` whose
/// payload is the text of an integer that fits.
pub open spec fn intOf(token: TokenView) -> Option<int> {
    if (token.dataType == TokenType::UInt || token.dataType == TokenType::Int)
        && token.data.is_some() {
        integerValue(token.data.unwrap())
    } else {
        None
    }
}

/// Whether the kind is one of the kinds of text.
pub open spec fn textKind(kind: TokenType) -> bool {
    kind == TokenType::String || kind == TokenType::RawString || kind == TokenType::Char || kind
        == TokenType::FormattedString || kind == TokenType::FormattedRawString || kind
        == TokenType::FormattedChar
}

/// The text that a token stands for: the payload of a token of a text kind.
pub open spec fn textOf(token: TokenView) -> Option<Seq<u8>> {
    if textKind(token.dataType) {
        token.data
    } else {
        None
    }
}

/// The truth value that a token stands for: a `Bool` with payload `1` or `0`.
pub open spec fn boolOf(token: TokenView) -> Option<bool> {
    if token.dataType == TokenType::Bool && token.data == Some("1".spec_bytes()) {
        Some(true)
    } else if token.dataType == TokenType::Bool && token.data == Some("0".spec_bytes()) {
        Some(false)
    } else {
        None
    }
}

/// The token of a truth value: a `Bool` with payload `1` for true and `0` for
/// false.
pub open spec fn boolToken(b: bool) -> TokenView {
    TokenView::literal(
        TokenType::Bool,
        if b {
            "1".spec_bytes()
        } else {
            "0".spec_bytes()
        },
    )
}

/// Whether `a` stands before `b` in the order of texts, byte by byte from
/// position `i` on, a prefix before what it is a prefix of.
pub open spec fn textLess(a: Seq<u8>, b: Seq<u8>, i: int) -> bool
    decreases a.len() - i,
{
    if i < 0 || i >= a.len() {
        i < b.len()
    } else if i >= b.len() {
        false
    } else if a[i] != b[i] {
        a[i] < b[i]
    } else {
        textLess(a, b, i + 1)
    }
}

/// Whether the operator compares its operands.
pub open spec fn comparison(op: TokenType) -> bool {
    op == TokenType::Equals || op == TokenType::NotEquals || op == TokenType::GreaterThan || op
        == TokenType::LessThan || op == TokenType::GreaterThanOrEquals || op
        == TokenType::LessThanOrEquals
}

/// What a comparison says of two operands of which the left is less than the
/// right (`less`), or equal to it (`equal`), or neither.
pub open spec fn compared(op: TokenType, less: bool, equal: bool) -> bool {
    match op {
        TokenType::Equals => equal,
        TokenType::NotEquals => !equal,
        TokenType::LessThan => less,
        TokenType::GreaterThan => !less && !equal,
        TokenType::LessThanOrEquals => less || equal,
        TokenType::GreaterThanOrEquals => !less,
        _ => false,
    }
}

/// Division that rounds toward zero.
pub open spec fn quotient(x: int, d: int) -> int
    recommends
        d != 0,
{
    if x == 0 {
        0
    } else if x > 0 && d > 0 {
        x / d
    } else if x < 0 && d < 0 {
        (-x) / (-d)
    } else if x < 0 {
        -((-x) / d)
    } else {
        -(x / (-d))
    }
}

/// The remainder of the division that rounds toward zero: it has the sign of
/// the dividend.
pub open spec fn remainder(x: int, d: int) -> int
    recommends
        d != 0,
{
    if x == 0 {
        0
    } else if x > 0 && d > 0 {
        x % d
    } else if x < 0 && d < 0 {
        -((-x) % (-d))
    } else if x < 0 {
        -((-x) % d)
    } else {
        x % (-d)
    }
}

/// The kind of an integer result: `Int` where an operand is an `Int` or the
/// result is negative, else `UInt`.
pub open spec fn integerKind(left: TokenType, right: TokenType, v: int) -> TokenType {
    if left == TokenType::Int || right == TokenType::Int || v < 0 {
        TokenType::Int
    } else {
        TokenType::UInt
    }
}

/// The token of an integer result, or no value where it does not fit.
pub open spec fn integerToken(left: TokenType, right: TokenType, v: int) -> TokenView {
    if inRange(v) {
        TokenView::literal(integerKind(left, right, v), integerBytes(v))
    } else {
        TokenView::none()
    }
}

/// An operation on two integers. Division rounds toward zero; division and
/// remainder by zero have no value, nor has a result that does not fit.
pub open spec fn integerOp(op: TokenType, a: int, b: int, left: TokenType, right: TokenType) -> TokenView {
    if comparison(op) {
        boolToken(compared(op, a < b, a == b))
    } else {
        match op {
            TokenType::Plus => integerToken(left, right, a + b),
            TokenType::Minus => integerToken(left, right, a - b),
            TokenType::Multiply => integerToken(left, right, a * b),
            TokenType::Divide => if b == 0 {
                TokenView::none()
            } else {
                integerToken(left, right, quotient(a, b))
            },
            TokenType::Modulo => if b == 0 {
                TokenView::none()
            } else {
                integerToken(left, right, remainder(a, b))
            },
            _ => TokenView::none(),
        }
    }
}

/// An operation on two texts: `+` joins them into a `String`; the comparisons
/// go by the order of texts.
pub open spec fn textOp(op: TokenType, a: Seq<u8>, b: Seq<u8>) -> TokenView {
    if comparison(op) {
        boolToken(compared(op, textLess(a, b, 0), a == b))
    } else if op == TokenType::Plus {
        TokenView::literal(TokenType::String, a + b)
    } else {
        TokenView::none()
    }
}

/// An operation on two truth values: equality, inequality, `|` and `&`.
pub open spec fn boolOp(op: TokenType, a: bool, b: bool) -> TokenView {
    match op {
        TokenType::Equals => boolToken(a == b),
        TokenType::NotEquals => boolToken(a != b),
        TokenType::Inclusion => boolToken(a || b),
        TokenType::Joint => boolToken(a && b),
        _ => TokenView::none(),
    }
}

/// The result of a binary operation on two literal tokens: on two integers,
/// on two numbers of which one is a decimal or a rational number, on two
/// texts or on two truth values. Any other pair of operands has no value.
#[verifier::opaque]
pub open spec fn calculated(op: TokenType, left: TokenView, right: TokenView) -> TokenView {
    if intOf(left).is_some() && intOf(right).is_some() {
        integerOp(op, intOf(left).unwrap(), intOf(right).unwrap(), left.dataType, right.dataType)
    } else if ratOf(left).is_some() && ratOf(right).is_some() {
        fractionOp(op, ratOf(left).unwrap(), ratOf(right).unwrap(), left.dataType, right.dataType)
    } else if textOf(left).is_some() && textOf(right).is_some() {
        textOp(op, textOf(left).unwrap(), textOf(right).unwrap())
    } else if boolOf(left).is_some() && boolOf(right).is_some() {
        boolOp(op, boolOf(left).unwrap(), boolOf(right).unwrap())
    } else {
        TokenView::none()
    }
}

/// The token of a truth value.
pub fn newBool(b: bool) -> (r: Token)
    ensures
        r@ == boolToken(b),
{
    if b {
        Token::fromStr(TokenType::Bool, "1")
    } else {
        Token::fromStr(TokenType::Bool, "0")
    }
}

/// The integer that a token stands for.
pub fn integerOf(token: &Token) -> (r: Option<i64>)
    ensures
        match r {
            Some(v) => intOf(token@) == Some(v as int),
            None => intOf(token@).is_none(),
        },
{
    if token.dataType == TokenType::UInt || token.dataType == TokenType::Int {
        match &token.data {
            Some(d) => parseInteger(d),
            None => None,
        }
    } else {
        None
    }
}

/// The truth value that a token stands for.
pub fn truthOf(token: &Token) -> (r: Option<bool>)
    ensures
        r == boolOf(token@),
{
    if token.dataType == TokenType::Bool {
        match &token.data {
            Some(d) => {
                if sameText(d, "1") {
                    Some(true)
                } else if sameText(d, "0") {
                    Some(false)
                } else {
                    None
                }
            },
            None => None,
        }
    } else {
        None
    }
}

/// Whether text `a` stands before text `b`.
pub fn lessText(a: &Vec<u8>, b: &Vec<u8>) -> (r: bool)
    ensures
        r == textLess(a@, b@, 0),
{
    let mut i: usize = 0;
    while i < a.len() && i < b.len() && a[i] == b[i]
        invariant
            i <= a.len(),
            i <= b.len(),
            textLess(a@, b@, i as int) == textLess(a@, b@, 0),
        decreases a.len() - i,
    {
        i += 1;
    }
    if i >= a.len() {
        i < b.len()
    } else if i >= b.len() {
        false
    } else {
        a[i] < b[i]
    }
}

/// What a comparison says, from how the operands stand to each other.
fn compare(op: TokenType, less: bool, equal: bool) -> (r: bool)
    ensures
        r == compared(op, less, equal),
{
    match op {
        TokenType::Equals => equal,
        TokenType::NotEquals => !equal,
        TokenType::LessThan => less,
        TokenType::GreaterThan => !less && !equal,
        TokenType::LessThanOrEquals => less || equal,
        TokenType::GreaterThanOrEquals => !less,
        _ => false,
    }
}

/// Whether the operator compares its operands.
fn isComparison(op: TokenType) -> (r: bool)
    ensures
        r == comparison(op),
{
    op == TokenType::Equals || op == TokenType::NotEquals || op == TokenType::GreaterThan || op
        == TokenType::LessThan || op == TokenType::GreaterThanOrEquals || op
        == TokenType::LessThanOrEquals
}

/// The token of an integer result from the operand kinds, or no value where
/// the operation gave none.
fn integerResult(left: TokenType, right: TokenType, value: Option<i64>) -> (r: Token)
    ensures
        r@ == match value {
            Some(v) => integerToken(left, right, v as int),
            None => TokenView::none(),
        },
{
    match value {
        Some(v) => {
            let kind = if left == TokenType::Int || right == TokenType::Int || v < 0 {
                TokenType::Int
            } else {
                TokenType::UInt
            };
            Token::new(kind, formatInteger(v))
        },
        None => Token::newEmpty(TokenType::Nothing),
    }
}

/// Applies a binary operator to two literal tokens.
pub fn calculate(op: &TokenType, left: &Token, right: &Token) -> (r: Token)
    ensures
        r@ == calculated(*op, left@, right@),
{
    reveal(calculated);
    let op: TokenType = *op;
    let li = integerOf(left);
    let ri = integerOf(right);
    if li.is_some() && ri.is_some() {
        let a: i64 = li.unwrap();
        let b: i64 = ri.unwrap();
        if isComparison(op) {
            return newBool(compare(op, a < b, a == b));
        }
        let lk = left.dataType;
        let rk = right.dataType;
        if op == TokenType::Plus {
            return integerResult(lk, rk, a.checked_add(b));
        } else if op == TokenType::Minus {
            return integerResult(lk, rk, a.checked_sub(b));
        } else if op == TokenType::Multiply {
            return integerResult(lk, rk, a.checked_mul(b));
        } else if op == TokenType::Divide {
            if b == 0 {
                return Token::newEmpty(TokenType::Nothing);
            }
            let q = a.checked_div(b);
            assert(q == if inRange(quotient(a as int, b as int)) {
                Some(quotient(a as int, b as int) as i64)
            } else {
                None
            });
            return integerResult(lk, rk, q);
        } else if op == TokenType::Modulo {
            if b == 0 {
                return Token::newEmpty(TokenType::Nothing);
            } else if b == -1 {
                assert(remainder(a as int, b as int) == 0);
                return integerResult(lk, rk, Some(0));
            }
            let m = a.checked_rem(b);
            assert(m == if inRange(remainder(a as int, b as int)) {
                Some(remainder(a as int, b as int) as i64)
            } else {
                None
            });
            return integerResult(lk, rk, m);
        } else {
            return Token::newEmpty(TokenType::Nothing);
        }
    }
    let ln = numberOf(left);
    let rn = numberOf(right);
    if ln.is_some() && rn.is_some() {
        return calculateFraction(op, ln.unwrap(), rn.unwrap(), left.dataType, right.dataType);
    }
    let lt = textKindOf(left.dataType);
    let rt = textKindOf(right.dataType);
    if lt && rt && left.data.is_some() && right.data.is_some() {
        let a: &Vec<u8> = left.data.as_ref().unwrap();
        let b: &Vec<u8> = right.data.as_ref().unwrap();
        if isComparison(op) {
            return newBool(compare(op, lessText(a, b), sameBytes(a, b)));
        } else if op == TokenType::Plus {
            let mut joined = copyBytes(a);
            let mut tail = copyBytes(b);
            joined.append(&mut tail);
            return Token::new(TokenType::String, joined);
        } else {
            return Token::newEmpty(TokenType::Nothing);
        }
    }
    let lb = truthOf(left);
    let rb = truthOf(right);
    if lb.is_some() && rb.is_some() {
        let a: bool = lb.unwrap();
        let b: bool = rb.unwrap();
        return match op {
            TokenType::Equals => newBool(a == b),
            TokenType::NotEquals => newBool(a != b),
            TokenType::Inclusion => newBool(a || b),
            TokenType::Joint => newBool(a && b),
            _ => Token::newEmpty(TokenType::Nothing),
        };
    }
    Token::newEmpty(TokenType::Nothing)
}

/// Whether the kind is one of the kinds of text.
fn textKindOf(kind: TokenType) -> (r: bool)
    ensures
        r == textKind(kind),
{
    kind == TokenType::String || kind == TokenType::RawString || kind == TokenType::Char || kind
        == TokenType::FormattedString || kind == TokenType::FormattedRawString || kind
        == TokenType::FormattedChar
}

} // verus!
