use vstd::prelude::*;

use crate::my_math::{pow10, ten_to_the_power_of};
use crate::number::{
    difference_of, product_of, quotient_of, raised_to, rv, sum_of, view_add, view_div, view_mul,
    view_neg, view_pow, view_sub,
};
use crate::types::{view_of, TokenView};
use vstd::string::StringSliceAdditionalSpecFns;
use crate::types::{
    checked, checked_add, checked_mul, checked_sub, fits, BasicToken, Fraction, MathError, Token,
};

verus! {

pub open spec fn is_digit(c: u8) -> bool {
    48 <= c <= 57
}

/// The number written by the decimal digits `s`.
pub open spec fn digits_value(s: Seq<u8>) -> int
    decreases s.len(),
{
    if s.len() == 0 {
        0
    } else {
        digits_value(s.drop_last()) * 10 + (s.last() - 48)
    }
}

proof fn lemma_digits_value_grows(s: Seq<u8>, j: int, k: int)
    requires
        0 <= j <= k <= s.len(),
        forall|i: int| 0 <= i < s.len() ==> is_digit(#[trigger] s[i]),
    ensures
        0 <= digits_value(s.subrange(0, j)) <= digits_value(s.subrange(0, k)),
    decreases k - j,
{
    if j < k {
        lemma_digits_value_grows(s, j, k - 1);
        assert(s.subrange(0, k).drop_last() =~= s.subrange(0, k - 1));
        assert(s.subrange(0, k).last() == s[k - 1]);
    } else {
        lemma_digits_nonneg(s.subrange(0, j));
    }
}

proof fn lemma_digits_nonneg(s: Seq<u8>)
    requires
        forall|i: int| 0 <= i < s.len() ==> is_digit(#[trigger] s[i]),
    ensures
        digits_value(s) >= 0,
    decreases s.len(),
{
    if s.len() > 0 {
        assert forall|i: int| 0 <= i < s.drop_last().len() implies is_digit(
            #[trigger] s.drop_last()[i],
        ) by {
            assert(s.drop_last()[i] == s[i]);
        }
        lemma_digits_nonneg(s.drop_last());
    }
}

/// The digits `b[start..end]` read as a number, negated when `negative`;
/// `Overflow` when that does not fit an `i128`.
pub fn parse_digits(b: &[u8], start: usize, end: usize, negative: bool) -> (r: Result<
    i128,
    MathError,
>)
    requires
        start <= end <= b@.len(),
        forall|i: int| start <= i < end ==> is_digit(#[trigger] b@[i]),
    ensures
        r == checked(
            if negative {
                -digits_value(b@.subrange(start as int, end as int))
            } else {
                digits_value(b@.subrange(start as int, end as int))
            },
        ),
{
    let ghost s = b@.subrange(start as int, end as int);
    assert forall|i: int| 0 <= i < s.len() implies is_digit(#[trigger] s[i]) by {
        assert(s[i] == b@[start + i]);
    }
    let mut acc: i128 = 0;
    let mut j: usize = start;
    assert(s.subrange(0, 0).len() == 0);
    while j < end
        invariant
            start <= j <= end <= b@.len(),
            s == b@.subrange(start as int, end as int),
            forall|i: int| start <= i < end ==> is_digit(#[trigger] b@[i]),
            forall|i: int| 0 <= i < s.len() ==> is_digit(#[trigger] s[i]),
            acc == (if negative {
                -digits_value(s.subrange(0, j - start))
            } else {
                digits_value(s.subrange(0, j - start))
            }),
        decreases end - j,
    {
        assert(is_digit(b@[j as int]));
        let d = (b[j] - 48) as i128;
        proof {
            assert(s.subrange(0, j + 1 - start).drop_last() =~= s.subrange(0, j - start));
            assert(s[j - start] == b@[j as int]);
        }
        let t = checked_mul(acc, 10);
        let next = match t {
            Ok(t) => if negative {
                checked_sub(t, d)
            } else {
                checked_add(t, d)
            },
            Err(e) => Err(e),
        };
        match next {
            Ok(v) => {
                acc = v;
            },
            Err(e) => {
                proof {
                    lemma_digits_value_grows(s, j + 1 - start, s.len() as int);
                    lemma_digits_value_grows(s, j - start, j + 1 - start);
                    assert(s.subrange(0, s.len() as int) =~= s);
                }
                return Err(e);
            },
        }
        j = j + 1;
    }
    proof {
        assert(s.subrange(0, end - start) =~= s);
    }
    Ok(acc)
}

/// A numeric literal of an expression, as positions in its text: an optional
/// sign, integer digits, decimal digits after a point, a signed exponent
/// after `e`, and a trailing `pi` (or `π`).  A bare `pi` has no digits.
#[derive(Debug, PartialEq, Eq, Structural, Copy, Clone)]
pub struct Literal {
    pub start: usize,
    pub end: usize,
    pub negative: bool,
    pub int_start: usize,
    pub int_end: usize,
    pub frac_start: usize,
    pub frac_end: usize,
    pub exp_negative: bool,
    pub exp_start: usize,
    pub exp_end: usize,
    pub pi: bool,
}

/// Its parts stand inside the text and hold digits only.
pub open spec fn literal_wf(b: Seq<u8>, lit: Literal) -> bool {
    &&& lit.int_start <= lit.int_end <= b.len()
    &&& lit.frac_start <= lit.frac_end <= b.len()
    &&& lit.exp_start <= lit.exp_end <= b.len()
    &&& forall|i: int| lit.int_start <= i < lit.int_end ==> is_digit(#[trigger] b[i])
    &&& forall|i: int| lit.frac_start <= i < lit.frac_end ==> is_digit(#[trigger] b[i])
    &&& forall|i: int| lit.exp_start <= i < lit.exp_end ==> is_digit(#[trigger] b[i])
}

pub open spec fn has_digits(lit: Literal) -> bool {
    lit.int_start < lit.int_end || lit.frac_start < lit.frac_end
}

/// The literal of digits `i..n` with a sign at `start` (or none).
pub open spec fn integer_literal(start: usize, i: usize, n: usize, negative: bool) -> Literal {
    Literal {
        start,
        end: n,
        negative,
        int_start: i,
        int_end: n,
        frac_start: n,
        frac_end: n,
        exp_negative: false,
        exp_start: n,
        exp_end: n,
        pi: false,
    }
}

/// The text of an integer: an optional sign, then at least one decimal digit.
pub open spec fn integer_text(b: Seq<u8>) -> bool {
    let i: int = if b.len() > 0 && (b[0] == 43 || b[0] == 45) {
        1
    } else {
        0
    };
    i < b.len() && forall|k: int| i <= k < b.len() ==> is_digit(#[trigger] b[k])
}

/// The value of an integer text.
pub open spec fn integer_text_value(b: Seq<u8>) -> int {
    if b.len() > 0 && b[0] == 45 {
        -digits_value(b.subrange(1, b.len() as int))
    } else if b.len() > 0 && b[0] == 43 {
        digits_value(b.subrange(1, b.len() as int))
    } else {
        digits_value(b)
    }
}

/// The literal that an integer text reads as.
pub open spec fn integer_text_literal(b: Seq<u8>) -> Literal {
    if b.len() > 0 && (b[0] == 43 || b[0] == 45) {
        integer_literal(0, 1, b.len() as usize, b[0] == 45)
    } else {
        integer_literal(0, 0, b.len() as usize, false)
    }
}

/// The literal of a postfix sequence that is one integer literal alone.
pub open spec fn single_integer(items: Seq<Item>) -> Option<Literal> {
    if items.len() == 1 {
        match items[0] {
            Item::Number(lit) => if is_integer_literal(lit) {
                Some(lit)
            } else {
                None
            },
            _ => None,
        }
    } else {
        None
    }
}

/// A plain integer literal: digits with an optional sign, nothing else.
pub open spec fn is_integer_literal(lit: Literal) -> bool {
    lit.int_start < lit.int_end && lit.frac_start == lit.frac_end && lit.exp_start == lit.exp_end
        && !lit.pi
}

/// The value of the integer digits, with the literal's sign.
pub open spec fn integer_part(b: Seq<u8>, lit: Literal) -> int {
    let v = digits_value(b.subrange(lit.int_start as int, lit.int_end as int));
    if lit.negative {
        -v
    } else {
        v
    }
}

/// The number of decimal digits after the point.
pub open spec fn decimals(lit: Literal) -> nat {
    if lit.frac_end >= lit.frac_start {
        (lit.frac_end - lit.frac_start) as nat
    } else {
        0
    }
}

/// The exponent after `e` (zero where there is none), without its sign.
pub open spec fn exponent(b: Seq<u8>, lit: Literal) -> nat {
    let e = digits_value(b.subrange(lit.exp_start as int, lit.exp_end as int));
    if e >= 0 {
        e as nat
    } else {
        0
    }
}

/// The numerator of the literal's exact value over `literal_denominator`:
/// `±(int·10^k + frac)`, times `10^e` for a positive exponent.
pub open spec fn literal_numerator(b: Seq<u8>, lit: Literal) -> int {
    let k = decimals(lit);
    let m = integer_part(b, lit) * pow10(k) + (if lit.negative {
        -digits_value(b.subrange(lit.frac_start as int, lit.frac_end as int))
    } else {
        digits_value(b.subrange(lit.frac_start as int, lit.frac_end as int))
    });
    if lit.exp_negative {
        m
    } else {
        m * pow10(exponent(b, lit))
    }
}

/// `10^k`, times `10^e` for a negative exponent.
pub open spec fn literal_denominator(b: Seq<u8>, lit: Literal) -> int {
    pow10(decimals(lit)) * (if lit.exp_negative {
        pow10(exponent(b, lit))
    } else {
        1
    })
}

/// Whether the parts of a literal's value fit the native integers: its
/// integer and decimal digits, `10^k` for `k` decimals, the exponent and
/// `10^e`, and the numerator and denominator of its value.
pub open spec fn literal_fits(b: Seq<u8>, lit: Literal) -> bool {
    let has_frac = lit.frac_start < lit.frac_end;
    let has_exp = lit.exp_start < lit.exp_end;
    let w = integer_part(b, lit);
    let d = digits_value(b.subrange(lit.frac_start as int, lit.frac_end as int));
    let e = exponent(b, lit);
    let t = w * pow10(decimals(lit));
    &&& fits(w)
    &&& (has_frac || has_exp) ==> {
        &&& fits(if lit.negative {
            -d
        } else {
            d
        })
        &&& decimals(lit) <= 38
        &&& e <= 38
        &&& fits(t)
        &&& fits(t + (if lit.negative {
            -d
        } else {
            d
        }))
        &&& fits(literal_numerator(b, lit))
        &&& fits(literal_denominator(b, lit))
    }
}

/// The exact value of a literal: `Integer` or a normalised `Fraction` of
/// `literal_numerator / literal_denominator`, times π for a `pi` literal
/// (zero stays a plain zero); a bare `pi` is `π·1`.  `Overflow` when a part
/// does not fit.
pub open spec fn literal_token(b: Seq<u8>, lit: Literal) -> Result<Token, MathError> {
    if !has_digits(lit) {
        Ok(Token::Pi(BasicToken::Integer(1)))
    } else if !literal_fits(b, lit) {
        Err(MathError::Overflow)
    } else {
        let v = if lit.frac_start >= lit.frac_end && lit.exp_start >= lit.exp_end {
            Ok(BasicToken::Integer(integer_part(b, lit) as i128))
        } else {
            crate::types::normal_form(0, literal_numerator(b, lit), literal_denominator(b, lit))
        };
        match v {
            Ok(v) => Ok(
                if lit.pi && v != BasicToken::Integer(0) {
                    Token::Pi(v)
                } else {
                    Token::Basic(v)
                },
            ),
            Err(_) => Err(MathError::Overflow),
        }
    }
}

/// The exact value of a literal.  `Overflow` when it does not fit the
/// native integers, and then has to be read as a floating-point number.
pub fn literal_value(b: &[u8], lit: Literal) -> (r: Result<Token, MathError>)
    requires
        literal_wf(b@, lit),
    ensures
        r == literal_token(b@, lit),
        is_integer_literal(lit) ==> r == (match checked(integer_part(b@, lit)) {
            Ok(v) => Ok(Token::Basic(BasicToken::Integer(v))),
            Err(e) => Err(e),
        }),
{
    if !(lit.int_start < lit.int_end || lit.frac_start < lit.frac_end) {
        return Ok(Token::Pi(BasicToken::Integer(1)));
    }
    let ghost k = decimals(lit);
    let whole = parse_digits(b, lit.int_start, lit.int_end, lit.negative)?;
    let has_frac = lit.frac_start < lit.frac_end;
    let has_exp = lit.exp_start < lit.exp_end;
    proof {
        if !has_frac {
            assert(b@.subrange(lit.frac_start as int, lit.frac_end as int).len() == 0);
        }
        if !has_exp {
            assert(b@.subrange(lit.exp_start as int, lit.exp_end as int).len() == 0);
            assert(exponent(b@, lit) == 0);
        }
        lemma_digits_nonneg(b@.subrange(lit.frac_start as int, lit.frac_end as int));
        lemma_digits_nonneg(b@.subrange(lit.exp_start as int, lit.exp_end as int));
        assert(pow10(0) == 1);
    }
    let value: BasicToken = if !has_frac && !has_exp {
        BasicToken::Integer(whole)
    } else {
        let d = parse_digits(b, lit.frac_start, lit.frac_end, lit.negative)?;
        let kk = lit.frac_end - lit.frac_start;
        let den = match ten_to_the_power_of(kk as i128) {
            Some(v) => v,
            None => {
                return Err(MathError::Overflow);
            },
        };
        let e = parse_digits(b, lit.exp_start, lit.exp_end, false)?;
        let p = match ten_to_the_power_of(e) {
            Some(v) => v,
            None => {
                return Err(MathError::Overflow);
            },
        };
        assert(p == pow10(exponent(b@, lit)));
        assert(den == pow10(k));
        let t = checked_mul(whole, den)?;
        let n = checked_add(t, d)?;
        let (num, dd) = if lit.exp_negative {
            (n, checked_mul(den, p)?)
        } else {
            (checked_mul(n, p)?, den)
        };
        assert(num == literal_numerator(b@, lit) && dd == literal_denominator(b@, lit));
        match Fraction::new(0, num, dd).normalise() {
            Ok(v) => v,
            Err(_) => {
                return Err(MathError::Overflow);
            },
        }
    };
    if lit.pi && value != BasicToken::Integer(0) {
        Ok(Token::Pi(value))
    } else {
        Ok(Token::Basic(value))
    }
}

/// The operators of an expression; `Negate` is the prefix minus.
#[derive(Debug, PartialEq, Eq, Structural, Copy, Clone)]
pub enum Operator {
    Add,
    Subtract,
    Multiply,
    Divide,
    Power,
    Negate,
}

/// One step of an expression in postfix order.
#[derive(Debug, PartialEq, Eq, Structural, Copy, Clone)]
pub enum Item {
    Number(Literal),
    Op(Operator),
}

/// An operator waiting for its right operand, or an open bracket.
#[derive(Debug, PartialEq, Eq, Structural, Copy, Clone)]
pub enum Pending {
    Op(Operator),
    Open,
}

/// How many values the postfix sequence `items` leaves on a stack, or `None`
/// where an operator finds too few operands.
pub open spec fn rpn_depth(items: Seq<Item>) -> Option<int>
    decreases items.len(),
{
    if items.len() == 0 {
        Some(0)
    } else {
        match rpn_depth(items.drop_last()) {
            None => None,
            Some(d) => match items.last() {
                Item::Number(_) => Some(d + 1),
                Item::Op(Operator::Negate) => if d >= 1 {
                    Some(d)
                } else {
                    None
                },
                Item::Op(_) => if d >= 2 {
                    Some(d - 1)
                } else {
                    None
                },
            },
        }
    }
}

/// The number of binary operators among the pending ones.
spec fn binary_pending(ops: Seq<Pending>) -> int
    decreases ops.len(),
{
    if ops.len() == 0 {
        0
    } else {
        binary_pending(ops.drop_last()) + (if ops.last() == Pending::Op(Operator::Negate)
            || ops.last() == Pending::Open {
            0int
        } else {
            1int
        })
    }
}

proof fn lemma_binary_pending_nonneg(s: Seq<Pending>)
    ensures
        binary_pending(s) >= 0,
    decreases s.len(),
{
    if s.len() > 0 {
        lemma_binary_pending_nonneg(s.drop_last());
    }
}

proof fn lemma_push_item(s: Seq<Item>, x: Item)
    ensures
        s.push(x).drop_last() == s,
        s.push(x).last() == x,
{
    assert(s.push(x).drop_last() =~= s);
}

proof fn lemma_push_pending(s: Seq<Pending>, x: Pending)
    ensures
        s.push(x).drop_last() == s,
        s.push(x).last() == x,
{
    assert(s.push(x).drop_last() =~= s);
}

/// Binds tighter when larger: `+ -`, then `* /`, then `^`, then the prefix
/// minus.
pub open spec fn precedence(o: Operator) -> int {
    match o {
        Operator::Add | Operator::Subtract => 1,
        Operator::Multiply | Operator::Divide => 2,
        Operator::Power => 3,
        Operator::Negate => 4,
    }
}

fn binds(o: Operator) -> (r: u8)
    ensures
        r == precedence(o),
{
    match o {
        Operator::Add | Operator::Subtract => 1,
        Operator::Multiply | Operator::Divide => 2,
        Operator::Power => 3,
        Operator::Negate => 4,
    }
}

/// The first position from `i` on that holds no digit.
pub open spec fn digits_stop(b: Seq<u8>, i: int) -> int
    decreases b.len() - i,
{
    if 0 <= i < b.len() && is_digit(b[i]) {
        digits_stop(b, i + 1)
    } else {
        i
    }
}

/// `pi` or `π` (bytes `CF 80`) at `i`.
pub open spec fn pi_spec(b: Seq<u8>, i: int) -> bool {
    0 <= i && i + 1 < b.len() && ((b[i] == 112 && b[i + 1] == 105) || (b[i] == 207 && b[i + 1]
        == 128))
}

/// The literal whose digits start at `i` (its sign, if any, at `start`) and
/// the position after it: digits, optionally `.` and at least one digit, a
/// signed exponent after `e` or `E` with at least one digit, a trailing
/// `pi`/`π`.  A signed literal needs a digit first; `None` when malformed.
pub open spec fn scan_spec(b: Seq<u8>, start: int, i: int, negative: bool, signed: bool) -> Option<
    (Literal, int),
> {
    let int_end = digits_stop(b, i);
    let has_point = int_end < b.len() && b[int_end] == 46;
    let frac_start = if has_point {
        int_end + 1
    } else {
        int_end
    };
    let frac_end = if has_point {
        digits_stop(b, int_end + 1)
    } else {
        int_end
    };
    let j = frac_end;
    if has_point && frac_end == frac_start {
        None
    } else if int_end == i && (signed || frac_start == frac_end) {
        None
    } else {
        let has_e = j < b.len() && (b[j] == 101 || b[j] == 69);
        let has_sign = has_e && j + 1 < b.len() && (b[j + 1] == 43 || b[j + 1] == 45);
        let exp_negative = has_sign && b[j + 1] == 45;
        let exp_start = if !has_e {
            j
        } else if has_sign {
            j + 2
        } else {
            j + 1
        };
        let exp_end = if has_e {
            digits_stop(b, exp_start)
        } else {
            j
        };
        if has_e && exp_end == exp_start {
            None
        } else {
            let pi = pi_spec(b, exp_end);
            let end = if pi {
                exp_end + 2
            } else {
                exp_end
            };
            Some(
                (
                    Literal {
                        start: start as usize,
                        end: end as usize,
                        negative,
                        int_start: i as usize,
                        int_end: int_end as usize,
                        frac_start: frac_start as usize,
                        frac_end: frac_end as usize,
                        exp_negative,
                        exp_start: exp_start as usize,
                        exp_end: exp_end as usize,
                        pi,
                    },
                    end,
                ),
            )
        }
    }
}

/// Moves the pending operators that bind at least as tightly as `o`
/// (strictly tighter for `^`) to the output.
pub open spec fn pop_spec(out: Seq<Item>, ops: Seq<Pending>, o: Operator) -> (Seq<Item>, Seq<Pending>)
    decreases ops.len(),
{
    if ops.len() == 0 {
        (out, ops)
    } else {
        match ops.last() {
            Pending::Op(t) => if precedence(t) > precedence(o) || (precedence(t) == precedence(o)
                && o != Operator::Power) {
                pop_spec(out.push(Item::Op(t)), ops.drop_last(), o)
            } else {
                (out, ops)
            },
            Pending::Open => (out, ops),
        }
    }
}

/// Moves pending operators to the output down to the open bracket, which
/// is dropped; `None` when there is none.
pub open spec fn close_spec(out: Seq<Item>, ops: Seq<Pending>) -> Option<(Seq<Item>, Seq<Pending>)>
    decreases ops.len(),
{
    if ops.len() == 0 {
        None
    } else {
        match ops.last() {
            Pending::Open => Some((out, ops.drop_last())),
            Pending::Op(t) => close_spec(out.push(Item::Op(t)), ops.drop_last()),
        }
    }
}

/// Moves all pending operators to the output; `None` for an open bracket.
pub open spec fn flush_spec(out: Seq<Item>, ops: Seq<Pending>) -> Option<Seq<Item>>
    decreases ops.len(),
{
    if ops.len() == 0 {
        Some(out)
    } else {
        match ops.last() {
            Pending::Op(t) => flush_spec(out.push(Item::Op(t)), ops.drop_last()),
            Pending::Open => None,
        }
    }
}

/// The bare `pi` literal at `i`.
pub open spec fn pi_literal(i: int) -> Literal {
    Literal {
        start: i as usize,
        end: (i + 2) as usize,
        negative: false,
        int_start: i as usize,
        int_end: i as usize,
        frac_start: i as usize,
        frac_end: i as usize,
        exp_negative: false,
        exp_start: i as usize,
        exp_end: i as usize,
        pi: true,
    }
}

/// The binary operator written as `c`.
pub open spec fn operator_of(c: u8) -> Option<Operator> {
    if c == 43 {
        Some(Operator::Add)
    } else if c == 45 {
        Some(Operator::Subtract)
    } else if c == 42 {
        Some(Operator::Multiply)
    } else if c == 47 {
        Some(Operator::Divide)
    } else if c == 94 {
        Some(Operator::Power)
    } else {
        None
    }
}

/// Reads the text `b` from position `i` into postfix order (operator
/// precedence, `^` to the right, brackets), with the output `out`, the
/// pending operators `ops`, and whether an operand is expected next.
/// Spaces are skipped; in operand position come `(`, a literal, a sign
/// before a digit (a signed literal) or before `(` or `pi` (a prefix minus),
/// or `pi`; in operator position `+ - * / ^` or `)`.  Anything else, an
/// unmatched bracket or a missing operand is a `SyntaxError`.
pub open spec fn parse_from(b: Seq<u8>, i: int, out: Seq<Item>, ops: Seq<Pending>, expect: bool) -> Result<
    Seq<Item>,
    MathError,
>
    decreases b.len() - i,
{
    if i < 0 || i >= b.len() {
        if expect {
            Err(MathError::SyntaxError)
        } else {
            match flush_spec(out, ops) {
                Some(o) => Ok(o),
                None => Err(MathError::SyntaxError),
            }
        }
    } else {
        let c = b[i];
        if c == 32 {
            parse_from(b, i + 1, out, ops, expect)
        } else if expect {
            if c == 40 {
                parse_from(b, i + 1, out, ops.push(Pending::Open), true)
            } else if is_digit(c) || c == 46 {
                match scan_spec(b, i, i, false, false) {
                    Some((lit, next)) => if i < next <= b.len() {
                        parse_from(b, next, out.push(Item::Number(lit)), ops, false)
                    } else {
                        Err(MathError::SyntaxError)
                    },
                    None => Err(MathError::SyntaxError),
                }
            } else if c == 43 || c == 45 {
                if i + 1 < b.len() && is_digit(b[i + 1]) {
                    match scan_spec(b, i, i + 1, c == 45, true) {
                        Some((lit, next)) => if i < next <= b.len() {
                            parse_from(b, next, out.push(Item::Number(lit)), ops, false)
                        } else {
                            Err(MathError::SyntaxError)
                        },
                        None => Err(MathError::SyntaxError),
                    }
                } else if i + 1 < b.len() && (b[i + 1] == 40 || pi_spec(b, i + 1)) {
                    parse_from(
                        b,
                        i + 1,
                        out,
                        if c == 45 {
                            ops.push(Pending::Op(Operator::Negate))
                        } else {
                            ops
                        },
                        true,
                    )
                } else {
                    Err(MathError::SyntaxError)
                }
            } else if pi_spec(b, i) {
                parse_from(b, i + 2, out.push(Item::Number(pi_literal(i))), ops, false)
            } else {
                Err(MathError::SyntaxError)
            }
        } else {
            match operator_of(c) {
                Some(o) => {
                    let popped = pop_spec(out, ops, o);
                    parse_from(b, i + 1, popped.0, popped.1.push(Pending::Op(o)), true)
                },
                None => if c != 41 {
                    Err(MathError::SyntaxError)
                } else {
                    match close_spec(out, ops) {
                        Some((o2, p2)) => parse_from(b, i + 1, o2, p2, false),
                        None => Err(MathError::SyntaxError),
                    }
                },
            }
        }
    }
}

/// The postfix order of the expression `b`, or `SyntaxError`.
pub open spec fn postfix(b: Seq<u8>) -> Result<Seq<Item>, MathError> {
    parse_from(b, 0, Seq::empty(), Seq::empty(), true)
}

/// The literals of `items` stand inside the text `b`.
pub open spec fn items_wf(b: Seq<u8>, items: Seq<Item>) -> bool {
    forall|k: int|
        0 <= k < items.len() ==> (#[trigger] items[k] matches Item::Number(lit) ==> literal_wf(
            b,
            lit,
        ))
}

fn digits_end(b: &[u8], i: usize) -> (r: usize)
    requires
        i <= b@.len(),
    ensures
        i <= r <= b@.len(),
        forall|k: int| i <= k < r ==> is_digit(#[trigger] b@[k]),
        r < b@.len() ==> !is_digit(b@[r as int]),
        (forall|k: int| i <= k < b@.len() ==> is_digit(#[trigger] b@[k])) ==> r == b@.len(),
        r == digits_stop(b@, i as int),
{
    let mut j = i;
    while j < b.len() && b[j] >= 48 && b[j] <= 57
        invariant
            i <= j <= b@.len(),
            digits_stop(b@, j as int) == digits_stop(b@, i as int),
            forall|k: int| i <= k < j ==> is_digit(#[trigger] b@[k]),
        decreases b@.len() - j,
    {
        j = j + 1;
    }
    j
}

/// `pi` or `π` (bytes `CF 80`) at `i`.
fn pi_at(b: &[u8], i: usize) -> (r: bool)
    ensures
        r ==> i + 2 <= b@.len(),
        r == pi_spec(b@, i as int),
{
    i < b.len() && b.len() - i >= 2 && ((b[i] == 112 && b[i + 1] == 105) || (b[i] == 207 && b[i + 1] == 128))
}

/// Reads the literal whose digits start at `i` (after its sign, if any, which
/// starts at `start`); `None` when it is malformed.
fn scan_number(b: &[u8], start: usize, i: usize, negative: bool, signed: bool) -> (r: Option<
    (Literal, usize),
>)
    requires
        start <= i <= b@.len(),
    ensures
        r matches Some((lit, next)) ==> literal_wf(b@, lit) && i < next <= b@.len(),
        i < b@.len() && (forall|k: int| i <= k < b@.len() ==> is_digit(#[trigger] b@[k])) ==> r
            == Some((integer_literal(start, i, b@.len() as usize, negative), b@.len() as usize)),
        match scan_spec(b@, start as int, i as int, negative, signed) {
            Some((lit, next)) => r matches Some((l2, n2)) && l2 == lit && n2 as int == next,
            None => r is None,
        },
{
    let int_end = digits_end(b, i);
    let mut j = int_end;
    let mut frac_start = j;
    let mut frac_end = j;
    if j < b.len() && b[j] == 46 {
        frac_start = j + 1;
        frac_end = digits_end(b, j + 1);
        if frac_end == frac_start {
            return None;
        }
        j = frac_end;
    }
    if int_end == i && (signed || frac_start == frac_end) {
        return None;
    }
    let mut exp_negative = false;
    let mut exp_start = j;
    let mut exp_end = j;
    if j < b.len() && (b[j] == 101 || b[j] == 69) {
        let mut m = j + 1;
        if m < b.len() && (b[m] == 43 || b[m] == 45) {
            exp_negative = b[m] == 45;
            m = m + 1;
        }
        exp_start = m;
        exp_end = digits_end(b, m);
        if exp_end == exp_start {
            return None;
        }
        j = exp_end;
    }
    let mut pi = false;
    if pi_at(b, j) {
        pi = true;
        j = j + 2;
    }
    let lit = Literal {
        start,
        end: j,
        negative,
        int_start: i,
        int_end,
        frac_start,
        frac_end,
        exp_negative,
        exp_start,
        exp_end,
        pi,
    };
    Some((lit, j))
}

/// Moves pending operators that bind at least as tightly as `o` (strictly
/// tighter for the right-associative `^`) to the output.
fn pop_tighter(out: &mut Vec<Item>, ops: &mut Vec<Pending>, o: Operator, ghost_b: Ghost<Seq<u8>>)
    requires
        items_wf(ghost_b@, old(out)@),
        rpn_depth(old(out)@) == Some(binary_pending(old(ops)@) + 1),
    ensures
        items_wf(ghost_b@, final(out)@),
        rpn_depth(final(out)@) == Some(binary_pending(final(ops)@) + 1),
        (final(out)@, final(ops)@) == pop_spec(old(out)@, old(ops)@, o),
{
    while ops.len() > 0
        invariant
            pop_spec(out@, ops@, o) == pop_spec(old(out)@, old(ops)@, o),
            items_wf(ghost_b@, out@),
            rpn_depth(out@) == Some(binary_pending(ops@) + 1),
        decreases ops.len(),
    {
        let top = ops[ops.len() - 1];
        match top {
            Pending::Op(t) => {
                let pt = binds(t);
                let po = binds(o);
                if pt > po || (pt == po && o != Operator::Power) {
                    proof {
                        assert(ops@.drop_last().push(top) =~= ops@);
                        lemma_push_pending(ops@.drop_last(), top);
                        lemma_push_item(out@, Item::Op(t));
                        lemma_binary_pending_nonneg(ops@.drop_last());
                    }
                    ops.pop();
                    out.push(Item::Op(t));
                } else {
                    return;
                }
            },
            Pending::Open => {
                return;
            },
        }
    }
}

/// An expression read into postfix order, with the text its literals point
/// into.
#[derive(Debug, PartialEq, Clone)]
pub struct Expression {
    pub text: Vec<u8>,
    pub items: Vec<Item>,
}

impl Expression {
    /// Reads `text`: numeric literals and `+ - * / ^ ( )`, with the usual
    /// precedence.  `SyntaxError` for anything else, for unmatched brackets
    /// and for a missing operand.
    pub fn parse(text: &str) -> (r: Result<Expression, MathError>)
        ensures
            r matches Ok(e) ==> items_wf(e.text@, e.items@) && e.text@ == text.spec_bytes()
                && rpn_depth(e.items@) == Some(1int),
            r matches Err(e) ==> e == MathError::SyntaxError,
            integer_text(text.spec_bytes()) ==> (r matches Ok(e) && e.items@ == seq![
                Item::Number(integer_text_literal(text.spec_bytes())),
            ]),
            match postfix(text.spec_bytes()) {
                Ok(s) => r matches Ok(e) && e.items@ == s,
                Err(e) => r == Err::<Expression, MathError>(e),
            },
    {
        let bytes = text.as_bytes();
        let mut b: Vec<u8> = Vec::new();
        let mut k: usize = 0;
        while k < bytes.len()
            invariant
                k <= bytes@.len(),
                b@ == bytes@.subrange(0, k as int),
            decreases bytes@.len() - k,
        {
            b.push(bytes[k]);
            k = k + 1;
        }
        assert(b@ =~= bytes@);
        let items = to_postfix(b.as_slice())?;
        Ok(Expression { text: b, items })
    }
}

/// The postfix order of the expression in `b`: every operator follows its
/// operands, and the whole sequence leaves exactly one value.  An integer
/// written alone becomes a single literal.
#[verifier::spinoff_prover]
#[verifier::rlimit(100)]
pub fn to_postfix(b: &[u8]) -> (r: Result<Vec<Item>, MathError>)
    ensures
        r matches Ok(items) ==> items_wf(b@, items@) && rpn_depth(items@) == Some(1int),
        r matches Err(e) ==> e == MathError::SyntaxError,
        integer_text(b@) ==> (r matches Ok(items) && items@ == seq![
            Item::Number(integer_text_literal(b@)),
        ]),
        match postfix(b@) {
            Ok(s) => r is Ok && r->Ok_0@ == s,
            Err(e) => r == Err::<Vec<Item>, MathError>(e),
        },
{
    let ghost gb = b@;
    let mut out: Vec<Item> = Vec::new();
    let mut ops: Vec<Pending> = Vec::new();
    let mut expect_operand = true;
    let mut i: usize = 0;
    let n = b.len();
    assert(out@ =~= Seq::<Item>::empty());
    assert(ops@ =~= Seq::<Pending>::empty());
    while i < n
        invariant
            parse_from(b@, i as int, out@, ops@, expect_operand) == postfix(b@),
            n == b@.len(),
            i <= n,
            gb == b@,
            items_wf(b@, out@),
            rpn_depth(out@) == Some(binary_pending(ops@) + (if expect_operand {
                0int
            } else {
                1int
            })),
            integer_text(b@) ==> (i == 0 && out@.len() == 0 && ops@.len() == 0 && expect_operand)
                || (i == n && out@ == seq![Item::Number(integer_text_literal(b@))] && ops@.len()
                == 0 && !expect_operand),
        decreases n - i,
    {
        let c = b[i];
        if c == 32 {
            i = i + 1;
        } else if expect_operand {
            if c == 40 {
                proof {
                    lemma_push_pending(ops@, Pending::Open);
                }
                ops.push(Pending::Open);
                assert(parse_from(b@, i + 1, out@, ops@, true) == postfix(b@));
                i = i + 1;
            } else if (c >= 48 && c <= 57) || c == 46 {
                match scan_number(b, i, i, false, false) {
                    Some((lit, next)) => {
                        proof {
                            lemma_push_item(out@, Item::Number(lit));
                        }
                        out.push(Item::Number(lit));
                        assert(out@.last() == Item::Number(lit));
                        assert(parse_from(b@, next as int, out@, ops@, false) == postfix(b@));
                        i = next;
                        expect_operand = false;
                    },
                    None => {
                        return Err(MathError::SyntaxError);
                    },
                }
            } else if c == 43 || c == 45 {
                if i + 1 < n && b[i + 1] >= 48 && b[i + 1] <= 57 {
                    match scan_number(b, i, i + 1, c == 45, true) {
                        Some((lit, next)) => {
                            proof {
                                lemma_push_item(out@, Item::Number(lit));
                            }
                            out.push(Item::Number(lit));
                            assert(out@.last() == Item::Number(lit));
                            assert(parse_from(b@, next as int, out@, ops@, false) == postfix(b@));
                            i = next;
                            expect_operand = false;
                        },
                        None => {
                            return Err(MathError::SyntaxError);
                        },
                    }
                } else if i + 1 < n && (b[i + 1] == 40 || pi_at(b, i + 1)) {
                    if c == 45 {
                        proof {
                            lemma_push_pending(ops@, Pending::Op(Operator::Negate));
                        }
                        ops.push(Pending::Op(Operator::Negate));
                    }
                    assert(parse_from(b@, i + 1, out@, ops@, true) == postfix(b@));
                    i = i + 1;
                } else {
                    return Err(MathError::SyntaxError);
                }
            } else if pi_at(b, i) {
                let lit = Literal {
                    start: i,
                    end: i + 2,
                    negative: false,
                    int_start: i,
                    int_end: i,
                    frac_start: i,
                    frac_end: i,
                    exp_negative: false,
                    exp_start: i,
                    exp_end: i,
                    pi: true,
                };
                proof {
                    lemma_push_item(out@, Item::Number(lit));
                }
                out.push(Item::Number(lit));
                assert(out@.last() == Item::Number(lit));
                assert(lit == pi_literal(i as int));
                assert(parse_from(b@, i + 2, out@, ops@, false) == postfix(b@));
                i = i + 2;
                expect_operand = false;
            } else {
                return Err(MathError::SyntaxError);
            }
        } else {
            let op = if c == 43 {
                Some(Operator::Add)
            } else if c == 45 {
                Some(Operator::Subtract)
            } else if c == 42 {
                Some(Operator::Multiply)
            } else if c == 47 {
                Some(Operator::Divide)
            } else if c == 94 {
                Some(Operator::Power)
            } else {
                None
            };
            match op {
                Some(o) => {
                    assert(operator_of(c) == Some(o));
                    pop_tighter(&mut out, &mut ops, o, Ghost(b@));
                    proof {
                        lemma_push_pending(ops@, Pending::Op(o));
                    }
                    ops.push(Pending::Op(o));
                    assert(parse_from(b@, i + 1, out@, ops@, true) == postfix(b@));
                    expect_operand = true;
                    i = i + 1;
                },
                None => {
                    if c != 41 {
                        return Err(MathError::SyntaxError);
                    }
                    assert(!integer_text(b@));
                    let ghost cs = close_spec(out@, ops@);
                    assert(match cs {
                        Some((o2, p2)) => parse_from(b@, i + 1, o2, p2, false) == postfix(b@),
                        None => postfix(b@) == Err::<Seq<Item>, MathError>(MathError::SyntaxError),
                    });
                    loop
                        invariant_except_break
                            close_spec(out@, ops@) == cs,
                        invariant
                            match cs {
                                Some((o2, p2)) => parse_from(b@, i + 1, o2, p2, false) == postfix(
                                    b@,
                                ),
                                None => postfix(b@) == Err::<Seq<Item>, MathError>(
                                    MathError::SyntaxError,
                                ),
                            },
                            !expect_operand,
                            i < n,
                            n == b@.len(),
                            items_wf(b@, out@),
                            !integer_text(b@),
                            rpn_depth(out@) == Some(binary_pending(ops@) + 1),
                        ensures
                            cs == Some((out@, ops@)),
                        decreases ops.len(),
                    {
                        let ghost before = ops@;
                        match ops.pop() {
                            Some(Pending::Open) => {
                                proof {
                                    assert(before =~= ops@.push(Pending::Open));
                                    lemma_push_pending(ops@, Pending::Open);
                                }
                                break;
                            },
                            Some(Pending::Op(t)) => {
                                proof {
                                    assert(before =~= ops@.push(Pending::Op(t)));
                                    lemma_push_pending(ops@, Pending::Op(t));
                                    lemma_push_item(out@, Item::Op(t));
                                    lemma_binary_pending_nonneg(ops@);
                                }
                                out.push(Item::Op(t));
                                assert(out@.last() == Item::Op(t));
                            },
                            None => {
                                return Err(MathError::SyntaxError);
                            },
                        }
                    }
                    i = i + 1;
                },
            }
        }
    }
    if expect_operand {
        return Err(MathError::SyntaxError);
    }
    let ghost fs = flush_spec(out@, ops@);
    assert(postfix(b@) == match fs {
        Some(o) => Ok::<Seq<Item>, MathError>(o),
        None => Err(MathError::SyntaxError),
    });
    while ops.len() > 0
        invariant
            flush_spec(out@, ops@) == fs,
            postfix(b@) == match fs {
                Some(o) => Ok::<Seq<Item>, MathError>(o),
                None => Err(MathError::SyntaxError),
            },
            items_wf(b@, out@),
            rpn_depth(out@) == Some(binary_pending(ops@) + 1),
            integer_text(b@) ==> ops@.len() == 0 && out@ == seq![
                Item::Number(integer_text_literal(b@)),
            ],
        decreases ops.len(),
    {
        let ghost before = ops@;
        match ops.pop() {
            Some(Pending::Op(t)) => {
                proof {
                    assert(before =~= ops@.push(Pending::Op(t)));
                    lemma_push_pending(ops@, Pending::Op(t));
                    lemma_push_item(out@, Item::Op(t));
                    lemma_binary_pending_nonneg(ops@);
                }
                out.push(Item::Op(t));
                assert(out@.last() == Item::Op(t));
            },
            _ => {
                return Err(MathError::SyntaxError);
            },
        }
    }
    Ok(out)
}

/// Applies a binary operator.
pub fn apply(o: Operator, l: Token, r: Token) -> (res: Result<Token, MathError>)
    requires
        o != Operator::Negate,
    ensures
        match o {
            Operator::Add => sum_of(l, r, res),
            Operator::Subtract => difference_of(l, r, res),
            Operator::Multiply => product_of(l, r, res),
            Operator::Divide => quotient_of(l, r, res),
            Operator::Power => raised_to(l, r, res),
            Operator::Negate => false,
        },
        rv(res) == view_apply(o, view_of(l), view_of(r)),
{
    let ghost (gl, gr) = (l, r);
    let res = match o {
        Operator::Add => crate::number::add(l, r),
        Operator::Subtract => crate::number::sub(l, r),
        Operator::Multiply => crate::number::mul(l, r),
        Operator::Divide => crate::number::div(l, r),
        Operator::Power => crate::number::exp(l, r),
        Operator::Negate => Err(MathError::SyntaxError),
    };
    proof {
        match o {
            Operator::Add => crate::number::lemma_sum_view(gl, gr, res),
            Operator::Subtract => crate::number::lemma_difference_view(gl, gr, res),
            Operator::Multiply => crate::number::lemma_product_view(gl, gr, res),
            Operator::Divide => crate::number::lemma_quotient_view(gl, gr, res),
            Operator::Power => crate::number::lemma_power_view(gl, gr, res),
            Operator::Negate => {},
        }
    }
    res
}

/// A binary operator on views, as `apply` computes it.
pub open spec fn view_apply(o: Operator, l: TokenView, r: TokenView) -> Result<TokenView, MathError> {
    match o {
        Operator::Add => view_add(l, r),
        Operator::Subtract => view_sub(l, r),
        Operator::Multiply => view_mul(l, r),
        Operator::Divide => view_div(l, r),
        Operator::Power => view_pow(l, r),
        Operator::Negate => Err(MathError::SyntaxError),
    }
}

/// The views of a stack of values.
pub open spec fn views(s: Seq<Token>) -> Seq<TokenView> {
    s.map_values(|t: Token| view_of(t))
}

/// Runs the postfix sequence `items` on a stack, left to right: a literal
/// pushes its value, `Negate` negates the top, a binary operator replaces
/// the two top values by its result.  The first error ends the run; an
/// operator without its operands is a `SyntaxError`.
pub open spec fn run(b: Seq<u8>, items: Seq<Item>) -> Result<Seq<TokenView>, MathError>
    decreases items.len(),
{
    if items.len() == 0 {
        Ok(Seq::empty())
    } else {
        match run(b, items.drop_last()) {
            Err(e) => Err(e),
            Ok(st) => run_step(b, st, items.last()),
        }
    }
}

/// One step of `run` on the stack `st`.
#[verifier::opaque]
pub open spec fn run_step(b: Seq<u8>, st: Seq<TokenView>, item: Item) -> Result<
    Seq<TokenView>,
    MathError,
> {
    match item {
        Item::Number(lit) => match rv(literal_token(b, lit)) {
            Ok(v) => Ok(st.push(v)),
            Err(e) => Err(e),
        },
        Item::Op(Operator::Negate) => if st.len() == 0 {
            Err(MathError::SyntaxError)
        } else {
            match view_neg(st.last()) {
                Ok(v) => Ok(st.drop_last().push(v)),
                Err(e) => Err(e),
            }
        },
        Item::Op(o) => if st.len() < 2 {
            Err(MathError::SyntaxError)
        } else {
            match view_apply(o, st[st.len() - 2], st.last()) {
                Ok(v) => Ok(st.drop_last().drop_last().push(v)),
                Err(e) => Err(e),
            }
        },
    }
}

/// The value of a postfix sequence: the one value its run leaves.
pub open spec fn evaluated(b: Seq<u8>, items: Seq<Item>) -> Result<TokenView, MathError> {
    match run(b, items) {
        Ok(st) => if st.len() == 1 {
            Ok(st[0])
        } else {
            Err(MathError::SyntaxError)
        },
        Err(e) => Err(e),
    }
}

proof fn lemma_run_err(b: Seq<u8>, items: Seq<Item>, k: int)
    requires
        0 <= k <= items.len(),
        run(b, items.subrange(0, k)) is Err,
    ensures
        run(b, items) == run(b, items.subrange(0, k)),
    decreases items.len() - k,
{
    if k < items.len() {
        assert(items.subrange(0, k + 1).drop_last() =~= items.subrange(0, k));
        lemma_run_err(b, items, k + 1);
    } else {
        assert(items.subrange(0, k) =~= items);
    }
}

/// Evaluates a parsed expression exactly: its value (as a view: a sum's
/// terms are in the order they were collected) is what running its postfix
/// items gives.  `Overflow` means that the value has no exact form here and
/// has to be computed in floating point.
#[verifier::spinoff_prover]
#[verifier::rlimit(60)]
pub fn eval(expression: &Expression) -> (r: Result<Token, MathError>)
    requires
        items_wf(expression.text@, expression.items@),
    ensures
        rv(r) == evaluated(expression.text@, expression.items@),
        match single_integer(expression.items@) {
            Some(lit) => r == (match checked(integer_part(expression.text@, lit)) {
                Ok(v) => Ok(Token::Basic(BasicToken::Integer(v))),
                Err(e) => Err(e),
            }),
            None => true,
        },
{
    let b = expression.text.as_slice();
    let items = &expression.items;
    let mut stack: Vec<Token> = Vec::new();
    let mut k: usize = 0;
    proof {
        reveal(run_step);
    }
    assert(items@.subrange(0, 0) =~= Seq::<Item>::empty());
    assert(views(stack@) =~= Seq::<TokenView>::empty());
    while k < items.len()
        invariant
            k <= items@.len(),
            b@ == expression.text@,
            items@ == expression.items@,
            items_wf(b@, items@),
            run(b@, items@.subrange(0, k as int)) == Ok::<Seq<TokenView>, MathError>(views(stack@)),
            match single_integer(items@) {
                Some(lit) => k == 0 && stack@.len() == 0 || k == 1 && stack@.len() == 1 && Ok::<
                    Token,
                    MathError,
                >(stack@[0]) == (match checked(integer_part(b@, lit)) {
                    Ok(v) => Ok(Token::Basic(BasicToken::Integer(v))),
                    Err(e) => Err(e),
                }),
                None => true,
            },
        decreases items@.len() - k,
    {
        let ghost st = views(stack@);
        let ghost s0 = stack@;
        proof {
            reveal(run_step);
            assert(items@.subrange(0, k + 1).drop_last() =~= items@.subrange(0, k as int));
            assert(items@.subrange(0, k + 1).last() == items@[k as int]);
        }
        match items[k] {
            Item::Number(lit) => {
                assert(items@[k as int] matches Item::Number(lit));
                let v = match literal_value(b, lit) {
                    Ok(v) => v,
                    Err(e) => {
                        proof {
                            lemma_run_err(b@, items@, k + 1);
                        }
                        return Err(e);
                    },
                };
                stack.push(v);
                assert(views(stack@) =~= st.push(view_of(v)));
            },
            Item::Op(Operator::Negate) => {
                let x = match stack.pop() {
                    Some(x) => x,
                    None => {
                        proof {
                            lemma_run_err(b@, items@, k + 1);
                        }
                        return Err(MathError::SyntaxError);
                    },
                };
                assert(st.last() == view_of(x));
                let n = match x.negate() {
                    Ok(n) => n,
                    Err(e) => {
                        proof {
                            lemma_run_err(b@, items@, k + 1);
                        }
                        return Err(e);
                    },
                };
                stack.push(n);
                assert(views(stack@) =~= st.drop_last().push(view_of(n)));
            },
            Item::Op(o) => {
                let r = match stack.pop() {
                    Some(x) => x,
                    None => {
                        proof {
                            lemma_run_err(b@, items@, k + 1);
                        }
                        return Err(MathError::SyntaxError);
                    },
                };
                let l = match stack.pop() {
                    Some(x) => x,
                    None => {
                        proof {
                            lemma_run_err(b@, items@, k + 1);
                        }
                        return Err(MathError::SyntaxError);
                    },
                };
                assert(st.last() == view_of(r));
                assert(st[st.len() - 2] == view_of(l));
                let v = match apply(o, l, r) {
                    Ok(v) => v,
                    Err(e) => {
                        proof {
                            lemma_run_err(b@, items@, k + 1);
                        }
                        return Err(e);
                    },
                };
                stack.push(v);
                assert(views(stack@) =~= st.drop_last().drop_last().push(view_of(v)));
            },
        }
        k = k + 1;
    }
    assert(items@.subrange(0, items@.len() as int) =~= items@);
    if stack.len() != 1 {
        return Err(MathError::SyntaxError);
    }
    match stack.pop() {
        Some(x) => Ok(x),
        None => Err(MathError::SyntaxError),
    }
}

/// Whether `c` ends a line.
pub fn is_newline(c: char) -> (r: bool)
    ensures
        r == (c == '\n' || c == '\r'),
{
    c == '\n' || c == '\r'
}

/// Parses and evaluates `text`: `SyntaxError` outside the grammar of
/// `postfix`, else the value of its postfix order (as a view).  An integer
/// written in decimal reads back as itself: `Integer(n)`, or `Overflow`
/// where `n` does not fit an `i128`.
pub fn evaluate(text: &str) -> (r: Result<Token, MathError>)
    ensures
        match postfix(text.spec_bytes()) {
            Ok(items) => rv(r) == evaluated(text.spec_bytes(), items),
            Err(e) => r == Err::<Token, MathError>(e),
        },
        integer_text(text.spec_bytes()) ==> r == (match checked(
            integer_text_value(text.spec_bytes()),
        ) {
            Ok(v) => Ok(Token::Basic(BasicToken::Integer(v))),
            Err(e) => Err(e),
        }),
{
    let e = Expression::parse(text)?;
    proof {
        let b = text.spec_bytes();
        assert(b.subrange(0, b.len() as int) =~= b);
    }
    eval(&e)
}

} // verus!
