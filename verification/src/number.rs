//! Fractions: the exact values of decimal and rational literals and the
//! arithmetic on them.
use vstd::prelude::*;
use vstd::string::*;
use crate::token::{Token, TokenType, TokenView};
use crate::value::{
    digitsValue, wholeNumber, integerValue, integerBytes, decimalText, parseInteger, formatInteger,
    decimalBytes, comparison, compared, boolToken, newBool,
};
use crate::tokenizer::{DOT, MINUS, SLASH, ZERO};
use crate::rewrite::isWholeNumber;

verus! {

/// A fraction with a positive denominator.
pub struct Rat {
    pub num: int,
    pub den: int,
}

/// The greatest magnitude of the numerator and of the denominator of a
/// fraction that has a value.
pub const LIMIT: i64 = 9223372036854775807;

/// The number of digits behind the dot in the result of an operation on
/// decimal numbers.
pub const PLACES: u32 = 6;

/// Ten to the sixth: the scale of the digits behind the dot.
pub const SCALE: u64 = 1000000;

/// Ten to the power `k`.
pub open spec fn pow10(k: nat) -> nat
    decreases k,
{
    if k == 0 {
        1
    } else {
        10 * pow10((k - 1) as nat)
    }
}

/// The first position from `i` on that holds the byte `c`, or the length of
/// the text.
pub open spec fn indexOfByte(s: Seq<u8>, c: u8, i: int) -> int
    decreases s.len() - i,
{
    if i < 0 || i >= s.len() || s[i] == c {
        i
    } else {
        indexOfByte(s, c, i + 1)
    }
}

/// Whether the text begins with a minus sign.
pub open spec fn signed(s: Seq<u8>) -> bool {
    s.len() > 0 && s[0] == MINUS
}

/// The text without the minus sign at its start.
pub open spec fn unsignedPart(s: Seq<u8>) -> Seq<u8> {
    if signed(s) {
        s.skip(1)
    } else {
        s
    }
}

/// The number with the sign of the text.
pub open spec fn withSign(s: Seq<u8>, magnitude: int) -> int {
    if signed(s) {
        -magnitude
    } else {
        magnitude
    }
}

/// The fraction that a decimal text stands for: digits, a dot and digits,
/// with or without a minus sign before them. Its denominator is the power of
/// ten of the digits behind the dot.
pub open spec fn decimalRat(s: Seq<u8>) -> Option<Rat> {
    let u = unsignedPart(s);
    let dot = indexOfByte(u, DOT, 0);
    if 0 <= dot < u.len() && wholeNumber(u.take(dot)) && wholeNumber(u.skip(dot + 1))
        && digitsValue(u.take(dot) + u.skip(dot + 1)) <= LIMIT && pow10(
        u.skip(dot + 1).len(),
    ) <= LIMIT {
        Some(
            Rat {
                num: withSign(s, digitsValue(u.take(dot) + u.skip(dot + 1)) as int),
                den: pow10(u.skip(dot + 1).len()) as int,
            },
        )
    } else {
        None
    }
}

/// The fraction that a rational text stands for: digits, two slashes and
/// digits that are no zero, with or without a minus sign before them.
pub open spec fn fractionRat(s: Seq<u8>) -> Option<Rat> {
    let u = unsignedPart(s);
    let slash = indexOfByte(u, SLASH, 0);
    if 0 <= slash && slash + 1 < u.len() && u[slash + 1] == SLASH && wholeNumber(u.take(slash))
        && wholeNumber(u.skip(slash + 2)) && digitsValue(u.take(slash)) <= LIMIT && 0
        < digitsValue(u.skip(slash + 2)) <= LIMIT {
        Some(
            Rat {
                num: withSign(s, digitsValue(u.take(slash)) as int),
                den: digitsValue(u.skip(slash + 2)) as int,
            },
        )
    } else {
        None
    }
}

/// The fraction that a numeric token stands for.
pub open spec fn ratOf(token: TokenView) -> Option<Rat> {
    match token.data {
        None => None,
        Some(data) => match token.dataType {
            TokenType::UInt | TokenType::Int => match integerValue(data) {
                Some(v) => if -LIMIT <= v <= LIMIT {
                    Some(Rat { num: v, den: 1 })
                } else {
                    None
                },
                None => None,
            },
            TokenType::UFloat | TokenType::Float => decimalRat(data),
            TokenType::Rational => fractionRat(data),
            _ => None,
        },
    }
}

/// The greatest common divisor, by Euclid's algorithm.
pub open spec fn gcd(a: nat, b: nat) -> nat
    decreases b,
{
    if b == 0 {
        a
    } else {
        gcd(b, a % b)
    }
}

/// The magnitude of an integer.
pub open spec fn magnitude(v: int) -> nat {
    if v < 0 {
        (-v) as nat
    } else {
        v as nat
    }
}

/// The numerator and the denominator of a fraction, each divided by their
/// greatest common divisor.
pub open spec fn lowestNum(r: Rat) -> nat {
    magnitude(r.num) / gcd(magnitude(r.num), r.den as nat)
}

pub open spec fn lowestDen(r: Rat) -> nat {
    (r.den as nat) / gcd(magnitude(r.num), r.den as nat)
}

/// Whether the fraction in lowest terms fits: numerator and denominator
/// within the limit.
pub open spec fn fits(r: Rat) -> bool {
    lowestNum(r) <= LIMIT && 0 < lowestDen(r) <= LIMIT
}

/// The six digits of a number below a million, with leading zeros, from digit
/// `i` on.
pub open spec fn placeDigits(f: nat, i: nat) -> Seq<u8>
    decreases 6 - i,
{
    if i >= 6 {
        Seq::empty()
    } else {
        seq![(ZERO + (f / pow10((5 - i) as nat)) % 10) as u8] + placeDigits(f, i + 1)
    }
}

/// The digits without the zeros at their end, of which the first digit
/// always stays.
pub open spec fn trimmedZeros(s: Seq<u8>) -> Seq<u8>
    decreases s.len(),
{
    if s.len() > 1 && s.last() == ZERO {
        trimmedZeros(s.drop_last())
    } else {
        s
    }
}

/// The text of a decimal number from its millionths: the whole part, a dot
/// and up to six digits, without zeros at the end.
pub open spec fn decimalBytesOf(negative: bool, millionths: nat) -> Seq<u8> {
    (if negative && millionths > 0 {
        seq![MINUS]
    } else {
        Seq::empty()
    }) + decimalText(millionths / (SCALE as nat)) + seq![DOT] + trimmedZeros(
        placeDigits(millionths % (SCALE as nat), 0),
    )
}

/// The millionths of a fraction, rounded toward zero.
pub open spec fn millionths(r: Rat) -> nat {
    ((lowestNum(r) * (SCALE as nat)) as int / (lowestDen(r) as int)) as nat
}

/// Whether the kind is that of a number with a sign.
pub open spec fn signedKind(kind: TokenType) -> bool {
    kind == TokenType::Int || kind == TokenType::Float
}

/// The token of a result among rationals: the fraction in lowest terms, as
/// numerator, two slashes and denominator.
pub open spec fn rationalToken(r: Rat) -> TokenView {
    if r.den > 0 && fits(r) {
        TokenView::literal(
            TokenType::Rational,
            integerBytes(if r.num < 0 { -(lowestNum(r) as int) } else { lowestNum(r) as int })
                + seq![SLASH, SLASH] + decimalText(lowestDen(r)),
        )
    } else {
        TokenView::none()
    }
}

/// The token of a result among decimal numbers: the fraction to six digits
/// behind the dot, rounded toward zero. Its kind is `Float` where an operand
/// has a sign or the result is negative, else `UFloat`.
pub open spec fn decimalToken(left: TokenType, right: TokenType, r: Rat) -> TokenView {
    if r.den > 0 && fits(r) {
        TokenView::literal(
            if signedKind(left) || signedKind(right) || (r.num < 0 && millionths(r) > 0) {
                TokenType::Float
            } else {
                TokenType::UFloat
            },
            decimalBytesOf(r.num < 0, millionths(r)),
        )
    } else {
        TokenView::none()
    }
}

/// The result of an arithmetic operation on two fractions, as a fraction:
/// none for a division by zero and for what is no arithmetic operation.
pub open spec fn ratResult(op: TokenType, a: Rat, b: Rat) -> Option<Rat> {
    match op {
        TokenType::Plus => Some(Rat { num: a.num * b.den + b.num * a.den, den: a.den * b.den }),
        TokenType::Minus => Some(Rat { num: a.num * b.den - b.num * a.den, den: a.den * b.den }),
        TokenType::Multiply => Some(Rat { num: a.num * b.num, den: a.den * b.den }),
        TokenType::Divide => if b.num > 0 {
            Some(Rat { num: a.num * b.den, den: a.den * b.num })
        } else if b.num < 0 {
            Some(Rat { num: -(a.num * b.den), den: a.den * (-b.num) })
        } else {
            None
        },
        _ => None,
    }
}

/// An operation on two numbers of which one at least is no integer. The
/// comparisons compare the fractions. The arithmetic is exact; its result is a
/// rational where an operand is one, else a decimal number.
pub open spec fn fractionOp(op: TokenType, a: Rat, b: Rat, left: TokenType, right: TokenType) -> TokenView {
    if comparison(op) {
        boolToken(compared(op, a.num * b.den < b.num * a.den, a.num * b.den == b.num * a.den))
    } else {
        match ratResult(op, a, b) {
            Some(r) => if left == TokenType::Rational || right == TokenType::Rational {
                rationalToken(r)
            } else {
                decimalToken(left, right, r)
            },
            None => TokenView::none(),
        }
    }
}

proof fn lemma_pow10_grows(a: nat, b: nat)
    requires
        a <= b,
    ensures
        pow10(a) <= pow10(b),
        pow10(a) >= 1,
    decreases b,
{
    if a < b {
        lemma_pow10_grows(a, (b - 1) as nat);
    } else if a > 0 {
        lemma_pow10_grows((a - 1) as nat, (a - 1) as nat);
    }
}

/// Ten to the power `k`, where it fits.
fn powerOfTen(k: usize) -> (r: Option<i64>)
    ensures
        match r {
            Some(v) => v == pow10(k as nat) && v <= LIMIT,
            None => pow10(k as nat) > LIMIT,
        },
{
    if k > 18 {
        proof {
            lemma_pow10_grows(19, k as nat);
            reveal_with_fuel(pow10, 20);
            assert(pow10(19) == 10000000000000000000);
        }
        return None;
    }
    let mut v: i64 = 1;
    let mut i: usize = 0;
    proof {
        lemma_pow10_grows(0, 18);
    }
    while i < k
        invariant
            i <= k <= 18,
            v == pow10(i as nat),
            v <= pow10(18),
        decreases k - i,
    {
        proof {
            lemma_pow10_grows((i + 1) as nat, 18);
            reveal_with_fuel(pow10, 20);
            assert(pow10(18) == 1000000000000000000);
        }
        v = v * 10;
        i += 1;
    }
    proof {
        reveal_with_fuel(pow10, 20);
        assert(pow10(18) == 1000000000000000000);
    }
    Some(v)
}

/// The first position from `i` on that holds the byte `c`.
fn findByte(s: &Vec<u8>, c: u8, from: usize) -> (r: usize)
    requires
        from <= s@.len(),
    ensures
        r == indexOfByte(s@, c, from as int),
        from <= r <= s@.len(),
{
    let mut i: usize = from;
    while i < s.len() && s[i] != c
        invariant
            from <= i <= s.len(),
            indexOfByte(s@, c, i as int) == indexOfByte(s@, c, from as int),
        decreases s.len() - i,
    {
        i += 1;
    }
    i
}

/// The bytes from position `from` up to position `to`.
fn part(s: &Vec<u8>, from: usize, to: usize) -> (r: Vec<u8>)
    requires
        from <= to <= s@.len(),
    ensures
        r@ == s@.subrange(from as int, to as int),
{
    let mut r: Vec<u8> = Vec::new();
    let mut i: usize = from;
    assert(r@ =~= s@.subrange(from as int, i as int));
    while i < to
        invariant
            from <= i <= to <= s@.len(),
            r@ == s@.subrange(from as int, i as int),
        decreases to - i,
    {
        r.push(s[i]);
        i += 1;
        assert(r@ =~= s@.subrange(from as int, i as int));
    }
    r
}

/// The magnitude that a run of digits stands for, where it is within the
/// limit.
fn parseDigits(s: &Vec<u8>) -> (r: Option<i64>)
    requires
        wholeNumber(s@),
    ensures
        match r {
            Some(v) => v == digitsValue(s@) && 0 <= v <= LIMIT,
            None => digitsValue(s@) > LIMIT,
        },
{
    parseInteger(s)
}

/// Reads a decimal text as a fraction.
fn parseDecimal(s: &Vec<u8>) -> (r: Option<(i64, i64)>)
    ensures
        match r {
            Some(p) => decimalRat(s@) == Some(Rat { num: p.0 as int, den: p.1 as int }) && -LIMIT
                <= p.0 <= LIMIT && 0 < p.1 <= LIMIT,
            None => decimalRat(s@).is_none(),
        },
{
    let negative: bool = s.len() > 0 && s[0] == MINUS;
    let u: Vec<u8> = if negative {
        part(s, 1, s.len())
    } else {
        part(s, 0, s.len())
    };
    assert(u@ =~= unsignedPart(s@));
    let dot: usize = findByte(&u, DOT, 0);
    if dot >= u.len() {
        return None;
    }
    let whole = part(&u, 0, dot);
    let frac = part(&u, dot + 1, u.len());
    assert(whole@ =~= u@.take(dot as int));
    assert(frac@ =~= u@.skip(dot + 1));
    if !isWholeNumber(&whole) || !isWholeNumber(&frac) {
        return None;
    }
    let mut digits = part(&u, 0, dot);
    let mut tail = part(&u, dot + 1, u.len());
    digits.append(&mut tail);
    assert(digits@ =~= whole@ + frac@);
    assert(wholeNumber(digits@));
    let value = parseDigits(&digits);
    let scale = powerOfTen(frac.len());
    match (value, scale) {
        (Some(v), Some(d)) => {
            proof {
                lemma_pow10_grows(0, frac@.len());
            }
            Some((
                if negative {
                    -v
                } else {
                    v
                },
                d,
            ))
        },
        _ => None,
    }
}

/// Reads a rational text as a fraction.
fn parseFraction(s: &Vec<u8>) -> (r: Option<(i64, i64)>)
    ensures
        match r {
            Some(p) => fractionRat(s@) == Some(Rat { num: p.0 as int, den: p.1 as int }) && -LIMIT
                <= p.0 <= LIMIT && 0 < p.1 <= LIMIT,
            None => fractionRat(s@).is_none(),
        },
{
    let negative: bool = s.len() > 0 && s[0] == MINUS;
    let u: Vec<u8> = if negative {
        part(s, 1, s.len())
    } else {
        part(s, 0, s.len())
    };
    assert(u@ =~= unsignedPart(s@));
    let slash: usize = findByte(&u, SLASH, 0);
    if u.len() < 2 || slash >= u.len() - 1 || u[slash + 1] != SLASH {
        return None;
    }
    let top = part(&u, 0, slash);
    let bottom = part(&u, slash + 2, u.len());
    assert(top@ =~= u@.take(slash as int));
    assert(bottom@ =~= u@.skip(slash + 2));
    if !isWholeNumber(&top) || !isWholeNumber(&bottom) {
        return None;
    }
    match (parseDigits(&top), parseDigits(&bottom)) {
        (Some(n), Some(d)) => {
            if d == 0 {
                None
            } else {
                Some((
                    if negative {
                        -n
                    } else {
                        n
                    },
                    d,
                ))
            }
        },
        _ => None,
    }
}

/// The fraction that a numeric token stands for.
pub fn numberOf(token: &Token) -> (r: Option<(i64, i64)>)
    ensures
        match r {
            Some(p) => ratOf(token@) == Some(Rat { num: p.0 as int, den: p.1 as int }) && -LIMIT
                <= p.0 <= LIMIT && 0 < p.1 <= LIMIT,
            None => ratOf(token@).is_none(),
        },
{
    match &token.data {
        None => None,
        Some(data) => match token.dataType {
            TokenType::UInt | TokenType::Int => match parseInteger(data) {
                Some(v) => {
                    if -LIMIT <= v {
                        Some((v, 1))
                    } else {
                        None
                    }
                },
                None => None,
            },
            TokenType::UFloat | TokenType::Float => parseDecimal(data),
            TokenType::Rational => parseFraction(data),
            _ => None,
        },
    }
}

/// The greatest common divisor.
fn greatestDivisor(a: u128, b: u128) -> (r: u128)
    ensures
        r == gcd(a as nat, b as nat),
{
    let mut x: u128 = a;
    let mut y: u128 = b;
    while y != 0
        invariant
            gcd(x as nat, y as nat) == gcd(a as nat, b as nat),
        decreases y,
    {
        let next: u128 = x % y;
        x = y;
        y = next;
    }
    x
}

/// The six digits of a number below a million, without the zeros at their
/// end.
fn places(f: u64) -> (r: Vec<u8>)
    requires
        f < SCALE,
    ensures
        r@ == trimmedZeros(placeDigits(f as nat, 0)),
{
    let mut digits: Vec<u8> = Vec::new();
    let mut i: usize = 0;
    let mut unit: u64 = 100000;
    assert(digits@ + placeDigits(f as nat, 0) =~= placeDigits(f as nat, 0));
    proof {
        reveal_with_fuel(pow10, 7);
    }
    while i < 6
        invariant
            i <= 6,
            f < SCALE,
            i < 6 ==> unit == pow10((5 - i) as nat),
            unit <= 100000,
            digits@ + placeDigits(f as nat, i as nat) == placeDigits(f as nat, 0),
        decreases 6 - i,
    {
        proof {
            reveal_with_fuel(pow10, 7);
        }
        let ghost before = digits@;
        assert(unit > 0);
        digits.push(ZERO + ((f / unit) % 10) as u8);
        i += 1;
        unit = unit / 10;
        assert(digits@ + placeDigits(f as nat, i as nat) =~= before + placeDigits(
            f as nat,
            (i - 1) as nat,
        ));
    }
    assert(digits@ + Seq::<u8>::empty() =~= digits@);
    let ghost all = digits@;
    while digits.len() > 1 && digits[digits.len() - 1] == ZERO
        invariant
            trimmedZeros(digits@) == trimmedZeros(all),
        decreases digits.len(),
    {
        let _ = digits.pop();
    }
    digits
}

/// The numerator and the denominator of a fraction in lowest terms, where
/// they fit.
fn lowest(num: i128, den: i128) -> (r: Option<(u64, u64)>)
    requires
        den > 0,
        num > i128::MIN,
    ensures
        match r {
            Some(p) => fits(Rat { num: num as int, den: den as int }) && p.0 == lowestNum(
                Rat { num: num as int, den: den as int },
            ) && p.1 == lowestDen(Rat { num: num as int, den: den as int }),
            None => !fits(Rat { num: num as int, den: den as int }),
        },
{
    let top: u128 = if num < 0 {
        (-num) as u128
    } else {
        num as u128
    };
    let bottom: u128 = den as u128;
    let g = greatestDivisor(top, bottom);
    if g == 0 {
        assert(gcd(top as nat, bottom as nat) == 0);
        proof {
            lemma_gcd_positive(top as nat, bottom as nat);
        }
        return None;
    }
    let n: u128 = top / g;
    let d: u128 = bottom / g;
    if n <= LIMIT as u128 && 0 < d && d <= LIMIT as u128 {
        Some((n as u64, d as u64))
    } else {
        None
    }
}

proof fn lemma_gcd_positive(a: nat, b: nat)
    requires
        b > 0,
    ensures
        gcd(a, b) > 0,
    decreases b,
{
    reveal_with_fuel(gcd, 3);
    if a % b != 0 {
        lemma_gcd_positive(b, a % b);
    }
}

/// The token of a result among rationals.
fn newRational(num: i128, den: i128) -> (r: Token)
    requires
        den > 0,
        num > i128::MIN,
    ensures
        r@ == rationalToken(Rat { num: num as int, den: den as int }),
{
    match lowest(num, den) {
        Some(p) => {
            let mut text: Vec<u8> = if num < 0 {
                formatInteger(-(p.0 as i64))
            } else {
                formatInteger(p.0 as i64)
            };
            text.push(SLASH);
            text.push(SLASH);
            let mut bottom = decimalBytes(p.1);
            text.append(&mut bottom);
            assert(text@ =~= integerBytes(
                if num < 0 {
                    -(p.0 as int)
                } else {
                    p.0 as int
                },
            ) + seq![SLASH, SLASH] + decimalText(p.1 as nat));
            Token::new(TokenType::Rational, text)
        },
        None => Token::newEmpty(TokenType::Nothing),
    }
}

/// The token of a result among decimal numbers.
fn newDecimal(left: TokenType, right: TokenType, num: i128, den: i128) -> (r: Token)
    requires
        den > 0,
        num > i128::MIN,
    ensures
        r@ == decimalToken(left, right, Rat { num: num as int, den: den as int }),
{
    match lowest(num, den) {
        Some(p) => {
            assert(p.0 * SCALE <= LIMIT * SCALE) by (nonlinear_arith)
                requires
                    p.0 <= LIMIT,
            ;
            let scaled: u128 = (p.0 as u128) * (SCALE as u128);
            let parts: u128 = scaled / (p.1 as u128);
            assert(parts <= scaled);
            let whole: u128 = parts / (SCALE as u128);
            let behind: u128 = parts % (SCALE as u128);
            let negative: bool = num < 0;
            let mut text: Vec<u8> = Vec::new();
            if negative && parts > 0 {
                text.push(MINUS);
            }
            let mut first = decimalBytes(whole as u64);
            text.append(&mut first);
            text.push(DOT);
            let mut last = places(behind as u64);
            text.append(&mut last);
            assert(text@ =~= decimalBytesOf(negative, parts as nat));
            let kind = if left == TokenType::Int || left == TokenType::Float || right
                == TokenType::Int || right == TokenType::Float || (negative && parts > 0) {
                TokenType::Float
            } else {
                TokenType::UFloat
            };
            Token::new(kind, text)
        },
        None => Token::newEmpty(TokenType::Nothing),
    }
}

proof fn lemma_product_bound(x: int, y: int)
    requires
        -LIMIT <= x <= LIMIT,
        -LIMIT <= y <= LIMIT,
    ensures
        -(LIMIT * LIMIT) <= x * y <= LIMIT * LIMIT,
{
    assert(-(LIMIT * LIMIT) <= x * y <= LIMIT * LIMIT) by (nonlinear_arith)
        requires
            -LIMIT <= x <= LIMIT,
            -LIMIT <= y <= LIMIT,
            LIMIT >= 0,
    ;
}

proof fn lemma_product_positive(x: int, y: int)
    requires
        0 < x,
        0 < y,
    ensures
        0 < x * y,
{
    assert(0 < x * y) by (nonlinear_arith)
        requires
            0 < x,
            0 < y,
    ;
}

/// Applies a binary operator to two fractions.
pub fn calculateFraction(
    op: TokenType,
    a: (i64, i64),
    b: (i64, i64),
    left: TokenType,
    right: TokenType,
) -> (r: Token)
    requires
        -LIMIT <= a.0 <= LIMIT,
        0 < a.1 <= LIMIT,
        -LIMIT <= b.0 <= LIMIT,
        0 < b.1 <= LIMIT,
    ensures
        r@ == fractionOp(
            op,
            Rat { num: a.0 as int, den: a.1 as int },
            Rat { num: b.0 as int, den: b.1 as int },
            left,
            right,
        ),
{
    proof {
        lemma_product_bound(a.0 as int, b.1 as int);
        lemma_product_bound(b.0 as int, a.1 as int);
        lemma_product_bound(a.0 as int, b.0 as int);
        lemma_product_bound(a.1 as int, b.1 as int);
        lemma_product_bound(a.1 as int, b.0 as int);
        lemma_product_positive(a.1 as int, b.1 as int);
        assert(LIMIT * LIMIT == 85070591730234615847396907784232501249);
    }
    let cross1: i128 = (a.0 as i128) * (b.1 as i128);
    let cross2: i128 = (b.0 as i128) * (a.1 as i128);
    let isComparison: bool = op == TokenType::Equals || op == TokenType::NotEquals || op
        == TokenType::GreaterThan || op == TokenType::LessThan || op
        == TokenType::GreaterThanOrEquals || op == TokenType::LessThanOrEquals;
    if isComparison {
        let less: bool = cross1 < cross2;
        let equal: bool = cross1 == cross2;
        let truth: bool = match op {
            TokenType::Equals => equal,
            TokenType::NotEquals => !equal,
            TokenType::LessThan => less,
            TokenType::GreaterThan => !less && !equal,
            TokenType::LessThanOrEquals => less || equal,
            TokenType::GreaterThanOrEquals => !less,
            _ => false,
        };
        return newBool(truth);
    }
    let dens: i128 = (a.1 as i128) * (b.1 as i128);
    let found: Option<(i128, i128)> = match op {
        TokenType::Plus => Some((cross1 + cross2, dens)),
        TokenType::Minus => Some((cross1 - cross2, dens)),
        TokenType::Multiply => Some(((a.0 as i128) * (b.0 as i128), dens)),
        TokenType::Divide => {
            if b.0 > 0 {
                proof {
                    lemma_product_positive(a.1 as int, b.0 as int);
                }
                Some((cross1, (a.1 as i128) * (b.0 as i128)))
            } else if b.0 < 0 {
                proof {
                    lemma_product_bound(a.1 as int, -(b.0 as int));
                    lemma_product_positive(a.1 as int, -(b.0 as int));
                }
                Some((-cross1, (a.1 as i128) * (-(b.0 as i128))))
            } else {
                None
            }
        },
        _ => None,
    };
    match found {
        Some(p) => {
            if left == TokenType::Rational || right == TokenType::Rational {
                newRational(p.0, p.1)
            } else {
                newDecimal(left, right, p.0, p.1)
            }
        },
        None => Token::newEmpty(TokenType::Nothing),
    }
}

} // verus!
