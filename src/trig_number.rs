use vstd::prelude::*;

use crate::my_math::abs;
use crate::types::{
    is_sum, magnitude, negate_all, set_negated, BasicToken, Combined, Fraction, MathError, SRoot,
    TermSet, Token,
};

verus! {

pub open spec fn sq(num: int, den: int, base: int) -> BasicToken {
    BasicToken::SFracRoot(
        SRoot { mul: Fraction { int: 0, num: num as i128, den: den as i128 }, base: base as i128 },
    )
}

pub open spec fn si(mul: int, base: int) -> BasicToken {
    BasicToken::SIntRoot(SRoot { mul: mul as i128, base: base as i128 })
}

pub open spec fn fr(num: int, den: int) -> BasicToken {
    BasicToken::Fraction(Fraction { int: 0, num: num as i128, den: den as i128 })
}

pub open spec fn it(i: int) -> BasicToken {
    BasicToken::Integer(i as i128)
}

/// `sin(π·num/den)` for the angles of the table in `[0, π/2]`, as a sum of terms.
pub open spec fn sin_terms(num: int, den: int) -> Option<Seq<BasicToken>> {
    if num == 1 && den == 12 {
        Some(seq![sq(1, 4, 6), sq(-1, 4, 2)])
    } else if num == 1 && den == 10 {
        Some(seq![sq(1, 4, 5), fr(-1, 4)])
    } else if num == 1 && den == 6 {
        Some(seq![fr(1, 2)])
    } else if num == 1 && den == 4 {
        Some(seq![sq(1, 2, 2)])
    } else if num == 3 && den == 10 {
        Some(seq![sq(1, 4, 5), fr(1, 4)])
    } else if num == 1 && den == 3 {
        Some(seq![sq(1, 2, 3)])
    } else if num == 5 && den == 12 {
        Some(seq![sq(1, 4, 6), sq(1, 4, 2)])
    } else if num == 1 && den == 2 {
        Some(seq![it(1)])
    } else {
        None
    }
}

/// `tan(π·num/den)` for the angles of the table in `(0, π/2)`, as a sum of terms.
pub open spec fn tan_terms(num: int, den: int) -> Option<Seq<BasicToken>> {
    if num == 1 && den == 24 {
        Some(seq![si(1, 6), si(-1, 3), si(1, 2), it(-2)])
    } else if num == 1 && den == 12 {
        Some(seq![it(2), si(-1, 3)])
    } else if num == 1 && den == 8 {
        Some(seq![si(1, 2), it(-1)])
    } else if num == 1 && den == 6 {
        Some(seq![sq(1, 3, 3)])
    } else if num == 5 && den == 24 {
        Some(seq![si(1, 6), si(1, 3), si(-1, 2), it(-2)])
    } else if num == 1 && den == 4 {
        Some(seq![it(1)])
    } else if num == 7 && den == 24 {
        Some(seq![si(1, 6), si(-1, 3), si(-1, 2), it(2)])
    } else if num == 1 && den == 3 {
        Some(seq![si(1, 3)])
    } else if num == 3 && den == 8 {
        Some(seq![it(1), si(1, 2)])
    } else if num == 5 && den == 12 {
        Some(seq![it(2), si(1, 3)])
    } else if num == 11 && den == 24 {
        Some(seq![si(1, 6), si(1, 3), si(1, 2), it(2)])
    } else {
        None
    }
}

fn sin_table(num: i128, den: i128) -> (r: Option<Vec<BasicToken>>)
    ensures
        match sin_terms(num as int, den as int) {
            Some(t) => r matches Some(v) && v@ == t,
            None => r is None,
        },
{
    if num == 1 && den == 12 {
        {
            let mut v: Vec<BasicToken> = Vec::new();
            v.push(BasicToken::s_frac_root(0, 1, 4, 6));
            v.push(BasicToken::s_frac_root(0, -1, 4, 2));
            assert(v@ =~= seq![sq(1, 4, 6), sq(-1, 4, 2)]);
            Some(v)
        }
    } else if num == 1 && den == 10 {
        {
            let mut v: Vec<BasicToken> = Vec::new();
            v.push(BasicToken::s_frac_root(0, 1, 4, 5));
            v.push(BasicToken::fraction(0, -1, 4));
            assert(v@ =~= seq![sq(1, 4, 5), fr(-1, 4)]);
            Some(v)
        }
    } else if num == 1 && den == 6 {
        {
            let mut v: Vec<BasicToken> = Vec::new();
            v.push(BasicToken::fraction(0, 1, 2));
            assert(v@ =~= seq![fr(1, 2)]);
            Some(v)
        }
    } else if num == 1 && den == 4 {
        {
            let mut v: Vec<BasicToken> = Vec::new();
            v.push(BasicToken::s_frac_root(0, 1, 2, 2));
            assert(v@ =~= seq![sq(1, 2, 2)]);
            Some(v)
        }
    } else if num == 3 && den == 10 {
        {
            let mut v: Vec<BasicToken> = Vec::new();
            v.push(BasicToken::s_frac_root(0, 1, 4, 5));
            v.push(BasicToken::fraction(0, 1, 4));
            assert(v@ =~= seq![sq(1, 4, 5), fr(1, 4)]);
            Some(v)
        }
    } else if num == 1 && den == 3 {
        {
            let mut v: Vec<BasicToken> = Vec::new();
            v.push(BasicToken::s_frac_root(0, 1, 2, 3));
            assert(v@ =~= seq![sq(1, 2, 3)]);
            Some(v)
        }
    } else if num == 5 && den == 12 {
        {
            let mut v: Vec<BasicToken> = Vec::new();
            v.push(BasicToken::s_frac_root(0, 1, 4, 6));
            v.push(BasicToken::s_frac_root(0, 1, 4, 2));
            assert(v@ =~= seq![sq(1, 4, 6), sq(1, 4, 2)]);
            Some(v)
        }
    } else if num == 1 && den == 2 {
        {
            let mut v: Vec<BasicToken> = Vec::new();
            v.push(BasicToken::Integer(1));
            assert(v@ =~= seq![it(1)]);
            Some(v)
        }
    } else {
        None
    }
}

fn tan_table(num: i128, den: i128) -> (r: Option<Vec<BasicToken>>)
    ensures
        match tan_terms(num as int, den as int) {
            Some(t) => r matches Some(v) && v@ == t,
            None => r is None,
        },
{
    if num == 1 && den == 24 {
        {
            let mut v: Vec<BasicToken> = Vec::new();
            v.push(BasicToken::s_int_root(1, 6));
            v.push(BasicToken::s_int_root(-1, 3));
            v.push(BasicToken::s_int_root(1, 2));
            v.push(BasicToken::Integer(-2));
            assert(v@ =~= seq![si(1, 6), si(-1, 3), si(1, 2), it(-2)]);
            Some(v)
        }
    } else if num == 1 && den == 12 {
        {
            let mut v: Vec<BasicToken> = Vec::new();
            v.push(BasicToken::Integer(2));
            v.push(BasicToken::s_int_root(-1, 3));
            assert(v@ =~= seq![it(2), si(-1, 3)]);
            Some(v)
        }
    } else if num == 1 && den == 8 {
        {
            let mut v: Vec<BasicToken> = Vec::new();
            v.push(BasicToken::s_int_root(1, 2));
            v.push(BasicToken::Integer(-1));
            assert(v@ =~= seq![si(1, 2), it(-1)]);
            Some(v)
        }
    } else if num == 1 && den == 6 {
        {
            let mut v: Vec<BasicToken> = Vec::new();
            v.push(BasicToken::s_frac_root(0, 1, 3, 3));
            assert(v@ =~= seq![sq(1, 3, 3)]);
            Some(v)
        }
    } else if num == 5 && den == 24 {
        {
            let mut v: Vec<BasicToken> = Vec::new();
            v.push(BasicToken::s_int_root(1, 6));
            v.push(BasicToken::s_int_root(1, 3));
            v.push(BasicToken::s_int_root(-1, 2));
            v.push(BasicToken::Integer(-2));
            assert(v@ =~= seq![si(1, 6), si(1, 3), si(-1, 2), it(-2)]);
            Some(v)
        }
    } else if num == 1 && den == 4 {
        {
            let mut v: Vec<BasicToken> = Vec::new();
            v.push(BasicToken::Integer(1));
            assert(v@ =~= seq![it(1)]);
            Some(v)
        }
    } else if num == 7 && den == 24 {
        {
            let mut v: Vec<BasicToken> = Vec::new();
            v.push(BasicToken::s_int_root(1, 6));
            v.push(BasicToken::s_int_root(-1, 3));
            v.push(BasicToken::s_int_root(-1, 2));
            v.push(BasicToken::Integer(2));
            assert(v@ =~= seq![si(1, 6), si(-1, 3), si(-1, 2), it(2)]);
            Some(v)
        }
    } else if num == 1 && den == 3 {
        {
            let mut v: Vec<BasicToken> = Vec::new();
            v.push(BasicToken::s_int_root(1, 3));
            assert(v@ =~= seq![si(1, 3)]);
            Some(v)
        }
    } else if num == 3 && den == 8 {
        {
            let mut v: Vec<BasicToken> = Vec::new();
            v.push(BasicToken::Integer(1));
            v.push(BasicToken::s_int_root(1, 2));
            assert(v@ =~= seq![it(1), si(1, 2)]);
            Some(v)
        }
    } else if num == 5 && den == 12 {
        {
            let mut v: Vec<BasicToken> = Vec::new();
            v.push(BasicToken::Integer(2));
            v.push(BasicToken::s_int_root(1, 3));
            assert(v@ =~= seq![it(2), si(1, 3)]);
            Some(v)
        }
    } else if num == 11 && den == 24 {
        {
            let mut v: Vec<BasicToken> = Vec::new();
            v.push(BasicToken::s_int_root(1, 6));
            v.push(BasicToken::s_int_root(1, 3));
            v.push(BasicToken::s_int_root(1, 2));
            v.push(BasicToken::Integer(2));
            assert(v@ =~= seq![si(1, 6), si(1, 3), si(1, 2), it(2)]);
            Some(v)
        }
    } else {
        None
    }
}

/// The angles of the table, as multiples of π: the positive ones, then
/// their negatives.
pub open spec fn sin_angle(k: int) -> (int, int, bool) {
    if k == 0 || k == 8 {
        (1, 12, k >= 8)
    } else if k == 1 || k == 9 {
        (1, 10, k >= 8)
    } else if k == 2 || k == 10 {
        (1, 6, k >= 8)
    } else if k == 3 || k == 11 {
        (1, 4, k >= 8)
    } else if k == 4 || k == 12 {
        (3, 10, k >= 8)
    } else if k == 5 || k == 13 {
        (1, 3, k >= 8)
    } else if k == 6 || k == 14 {
        (5, 12, k >= 8)
    } else if k == 7 || k == 15 {
        (1, 2, k >= 8)
    } else {
        (0, 1, false)
    }
}

fn sin_angle_at(k: usize) -> (r: (i128, i128, bool))
    ensures
        (r.0 as int, r.1 as int, r.2) == sin_angle(k as int),
{
    let neg = k >= 8;
    let j = if neg { k - 8 } else { k };
    if j == 0 {
        (1, 12, neg)
    } else if j == 1 {
        (1, 10, neg)
    } else if j == 2 {
        (1, 6, neg)
    } else if j == 3 {
        (1, 4, neg)
    } else if j == 4 {
        (3, 10, neg)
    } else if j == 5 {
        (1, 3, neg)
    } else if j == 6 {
        (5, 12, neg)
    } else if j == 7 {
        (1, 2, neg)
    } else {
        (0, 1, false)
    }
}

/// The angles of the table, as multiples of π: the positive ones, then
/// their negatives.
pub open spec fn tan_angle(k: int) -> (int, int, bool) {
    if k == 0 || k == 11 {
        (1, 24, k >= 11)
    } else if k == 1 || k == 12 {
        (1, 12, k >= 11)
    } else if k == 2 || k == 13 {
        (1, 8, k >= 11)
    } else if k == 3 || k == 14 {
        (1, 6, k >= 11)
    } else if k == 4 || k == 15 {
        (5, 24, k >= 11)
    } else if k == 5 || k == 16 {
        (1, 4, k >= 11)
    } else if k == 6 || k == 17 {
        (7, 24, k >= 11)
    } else if k == 7 || k == 18 {
        (1, 3, k >= 11)
    } else if k == 8 || k == 19 {
        (3, 8, k >= 11)
    } else if k == 9 || k == 20 {
        (5, 12, k >= 11)
    } else if k == 10 || k == 21 {
        (11, 24, k >= 11)
    } else {
        (0, 1, false)
    }
}

fn tan_angle_at(k: usize) -> (r: (i128, i128, bool))
    ensures
        (r.0 as int, r.1 as int, r.2) == tan_angle(k as int),
{
    let neg = k >= 11;
    let j = if neg { k - 11 } else { k };
    if j == 0 {
        (1, 24, neg)
    } else if j == 1 {
        (1, 12, neg)
    } else if j == 2 {
        (1, 8, neg)
    } else if j == 3 {
        (1, 6, neg)
    } else if j == 4 {
        (5, 24, neg)
    } else if j == 5 {
        (1, 4, neg)
    } else if j == 6 {
        (7, 24, neg)
    } else if j == 7 {
        (1, 3, neg)
    } else if j == 8 {
        (3, 8, neg)
    } else if j == 9 {
        (5, 12, neg)
    } else if j == 10 {
        (11, 24, neg)
    } else {
        (0, 1, false)
    }
}

/// The terms of a table entry, negated when `neg`.
pub open spec fn signed(t: Option<Seq<BasicToken>>, neg: bool) -> Option<Seq<BasicToken>> {
    match t {
        Some(t) => if neg {
            match set_negated(t) {
                Ok(n) => Some(n),
                Err(_) => None,
            }
        } else {
            Some(t)
        },
        None => None,
    }
}

/// `cos(π·num/den)` on `[0, π/2]`, from the sine of the complementary angle.
pub open spec fn cos_terms(num: int, den: int) -> Option<Seq<BasicToken>> {
    if num == 5 && den == 12 {
        sin_terms(1, 12)
    } else if num == 2 && den == 5 {
        sin_terms(1, 10)
    } else if num == 1 && den == 3 {
        sin_terms(1, 6)
    } else if num == 1 && den == 4 {
        sin_terms(1, 4)
    } else if num == 1 && den == 5 {
        sin_terms(3, 10)
    } else if num == 1 && den == 6 {
        sin_terms(1, 3)
    } else if num == 1 && den == 12 {
        sin_terms(5, 12)
    } else if num == 1 && den == 2 {
        Some(seq![it(0)])
    } else {
        None
    }
}

fn cos_table(num: i128, den: i128) -> (r: Option<Vec<BasicToken>>)
    ensures
        match cos_terms(num as int, den as int) {
            Some(t) => r matches Some(v) && v@ == t,
            None => r is None,
        },
{
    if num == 5 && den == 12 {
        sin_table(1, 12)
    } else if num == 2 && den == 5 {
        sin_table(1, 10)
    } else if num == 1 && den == 3 {
        sin_table(1, 6)
    } else if num == 1 && den == 4 {
        sin_table(1, 4)
    } else if num == 1 && den == 5 {
        sin_table(3, 10)
    } else if num == 1 && den == 6 {
        sin_table(1, 3)
    } else if num == 1 && den == 12 {
        sin_table(5, 12)
    } else if num == 1 && den == 2 {
        let mut v: Vec<BasicToken> = Vec::new();
        v.push(BasicToken::Integer(0));
        assert(v@ =~= seq![it(0)]);
        Some(v)
    } else {
        None
    }
}

/// A fraction usable as an angle: `den > 1`, `0 < |num| < den`.
pub open spec fn angle_ok(f: Fraction) -> bool {
    f.den > 1 && 0 < abs(f.num as int) < f.den
}

/// `sin(π·f)` from the table: a whole number of half turns flips the sign,
/// as does a negative fraction, and `sin(π - x) = sin(x)`.
pub open spec fn sin_exact(f: Fraction) -> Option<Seq<BasicToken>> {
    if !angle_ok(f) {
        None
    } else {
        let odd = abs(f.int as int) % 2 == 1;
        let a = abs(f.num as int);
        let neg = if f.num < 0 {
            !odd
        } else {
            odd
        };
        let a2 = if a > f.den - a {
            f.den - a
        } else {
            a
        };
        signed(sin_terms(a2, f.den as int), neg)
    }
}

/// `cos(π·f)` from the table: `cos` is even, a half turn flips the sign and
/// `cos(π - x) = -cos(x)`.
pub open spec fn cos_exact(f: Fraction) -> Option<Seq<BasicToken>> {
    if !angle_ok(f) {
        None
    } else {
        let odd = abs(f.int as int) % 2 == 1;
        let a = abs(f.num as int);
        let flip = a > f.den - a;
        let a2 = if flip {
            f.den - a
        } else {
            a
        };
        signed(cos_terms(a2, f.den as int), odd != flip)
    }
}

/// `tan(π·f)` from the table: `tan` has period π, is odd, and
/// `tan(π - x) = -tan(x)`.
pub open spec fn tan_exact(f: Fraction) -> Option<Seq<BasicToken>> {
    if !angle_ok(f) {
        None
    } else {
        let a = abs(f.num as int);
        let flip = a > f.den - a;
        let a2 = if flip {
            f.den - a
        } else {
            a
        };
        signed(tan_terms(a2, f.den as int), (f.num < 0) != flip)
    }
}

/// Whether the reduced angle of `f` is a right angle, where `tan` is undefined.
pub open spec fn right_angle(f: Fraction) -> bool {
    angle_ok(f) && f.den == 2
}

/// A sum of terms as a value.
fn sum_of(v: Vec<BasicToken>) -> (r: Token)
    ensures
        is_sum(r, v@, Seq::empty()),
{
    Combined { basic: TermSet::new(v), pi: TermSet::new(Vec::new()) }.normalise()
}

/// Table terms, negated when `neg`.
fn signed_table(t: Option<Vec<BasicToken>>, neg: bool) -> (r: Option<Vec<BasicToken>>)
    ensures
        signed(
            match t {
                Some(v) => Some(v@),
                None => None,
            },
            neg,
        ) == (match r {
            Some(v) => Some(v@),
            None => None,
        }),
{
    match t {
        Some(v) => if neg {
            match negate_all(&v) {
                Ok(n) => Some(n),
                Err(_) => None,
            }
        } else {
            Some(v)
        },
        None => None,
    }
}

fn reduce(f: Fraction) -> (r: (i128, bool))
    requires
        angle_ok(f),
    ensures
        r.0 == (if abs(f.num as int) > f.den - abs(f.num as int) {
            f.den - abs(f.num as int)
        } else {
            abs(f.num as int)
        }),
        r.1 == (abs(f.num as int) > f.den - abs(f.num as int)),
{
    let a = magnitude(f.num) as i128;
    if a > f.den - a {
        (f.den - a, true)
    } else {
        (a, false)
    }
}

fn odd_turns(f: Fraction) -> (r: bool)
    ensures
        r == (abs(f.int as int) % 2 == 1),
{
    magnitude(f.int) % 2 == 1
}

/// The sine of a multiple of π, exactly where the table has it.  Other
/// arguments need floating point: `Overflow`.
pub fn sin(number: Token) -> (r: Result<Token, MathError>)
    ensures
        match number {
            Token::Basic(BasicToken::Integer(0)) | Token::Pi(BasicToken::Integer(_)) => r == Ok::<
                Token,
                MathError,
            >(Token::Basic(BasicToken::Integer(0))),
            Token::Pi(BasicToken::Fraction(f)) => match sin_exact(f) {
                Some(t) => r is Ok && is_sum(r->Ok_0, t, Seq::empty()),
                None => r == Err::<Token, MathError>(MathError::Overflow),
            },
            _ => r == Err::<Token, MathError>(MathError::Overflow),
        },
{
    match number {
        Token::Basic(BasicToken::Integer(0)) | Token::Pi(BasicToken::Integer(_)) => Ok(
            Token::Basic(BasicToken::Integer(0)),
        ),
        Token::Pi(BasicToken::Fraction(f)) => {
            if !(f.den > 1 && f.num != 0 && f.num > -f.den && f.num < f.den) {
                return Err(MathError::Overflow);
            }
            let odd = odd_turns(f);
            let (a, _) = reduce(f);
            let neg = if f.num < 0 {
                !odd
            } else {
                odd
            };
            match signed_table(sin_table(a, f.den), neg) {
                Some(v) => Ok(sum_of(v)),
                None => Err(MathError::Overflow),
            }
        },
        _ => Err(MathError::Overflow),
    }
}

/// The cosine of a multiple of π, exactly where the table has it; other
/// arguments need floating point: `Overflow`.
pub fn cos(number: Token) -> (r: Result<Token, MathError>)
    ensures
        match number {
            Token::Basic(BasicToken::Integer(0)) => r == Ok::<Token, MathError>(
                Token::Basic(BasicToken::Integer(1)),
            ),
            Token::Pi(BasicToken::Integer(x)) => r == Ok::<Token, MathError>(
                Token::Basic(BasicToken::Integer(if abs(x as int) % 2 == 0 { 1i128 } else { -1i128 })),
            ),
            Token::Pi(BasicToken::Fraction(f)) => match cos_exact(f) {
                Some(t) => r is Ok && is_sum(r->Ok_0, t, Seq::empty()),
                None => r == Err::<Token, MathError>(MathError::Overflow),
            },
            _ => r == Err::<Token, MathError>(MathError::Overflow),
        },
{
    match number {
        Token::Basic(BasicToken::Integer(0)) => Ok(Token::Basic(BasicToken::Integer(1))),
        Token::Pi(BasicToken::Integer(x)) => {
            let odd = magnitude(x) % 2 == 1;
            Ok(Token::Basic(BasicToken::Integer(if odd { -1 } else { 1 })))
        },
        Token::Pi(BasicToken::Fraction(f)) => {
            if !(f.den > 1 && f.num != 0 && f.num > -f.den && f.num < f.den) {
                return Err(MathError::Overflow);
            }
            let odd = odd_turns(f);
            let (a, flip) = reduce(f);
            match signed_table(cos_table(a, f.den), odd != flip) {
                Some(v) => Ok(sum_of(v)),
                None => Err(MathError::Overflow),
            }
        },
        _ => Err(MathError::Overflow),
    }
}

/// The tangent of a multiple of π, exactly where the table has it;
/// `TangentError` at an odd multiple of π/2; other arguments need floating
/// point: `Overflow`.
pub fn tan(number: Token) -> (r: Result<Token, MathError>)
    ensures
        match number {
            Token::Basic(BasicToken::Integer(0)) | Token::Pi(BasicToken::Integer(_)) => r == Ok::<
                Token,
                MathError,
            >(Token::Basic(BasicToken::Integer(0))),
            Token::Pi(BasicToken::Fraction(f)) => if right_angle(f) {
                r == Err::<Token, MathError>(MathError::TangentError)
            } else {
                match tan_exact(f) {
                    Some(t) => r is Ok && is_sum(r->Ok_0, t, Seq::empty()),
                    None => r == Err::<Token, MathError>(MathError::Overflow),
                }
            },
            _ => r == Err::<Token, MathError>(MathError::Overflow),
        },
{
    match number {
        Token::Basic(BasicToken::Integer(0)) | Token::Pi(BasicToken::Integer(_)) => Ok(
            Token::Basic(BasicToken::Integer(0)),
        ),
        Token::Pi(BasicToken::Fraction(f)) => {
            if !(f.den > 1 && f.num != 0 && f.num > -f.den && f.num < f.den) {
                return Err(MathError::Overflow);
            }
            if f.den == 2 {
                return Err(MathError::TangentError);
            }
            let (a, flip) = reduce(f);
            match signed_table(tan_table(a, f.den), (f.num < 0) != flip) {
                Some(v) => Ok(sum_of(v)),
                None => Err(MathError::Overflow),
            }
        },
        _ => Err(MathError::Overflow),
    }
}

/// `a` and `b` hold the same terms, in any order.
pub open spec fn same_terms(a: Seq<BasicToken>, b: Seq<BasicToken>) -> bool {
    &&& a.len() == b.len()
    &&& forall|i: int| 0 <= i < a.len() ==> b.contains(#[trigger] a[i])
    &&& forall|i: int| 0 <= i < b.len() ==> a.contains(#[trigger] b[i])
}

fn holds(s: &Vec<BasicToken>, x: BasicToken) -> (r: bool)
    ensures
        r == s@.contains(x),
{
    let mut i: usize = 0;
    while i < s.len()
        invariant
            i <= s@.len(),
            forall|j: int| 0 <= j < i ==> s@[j] != x,
        decreases s@.len() - i,
    {
        if s[i] == x {
            return true;
        }
        i = i + 1;
    }
    false
}

fn same(a: &Vec<BasicToken>, b: &Vec<BasicToken>) -> (r: bool)
    ensures
        r == same_terms(a@, b@),
{
    if a.len() != b.len() {
        return false;
    }
    let mut i: usize = 0;
    while i < a.len()
        invariant
            i <= a@.len(),
            forall|j: int| 0 <= j < i ==> b@.contains(#[trigger] a@[j]),
        decreases a@.len() - i,
    {
        if !holds(b, a[i]) {
            return false;
        }
        i = i + 1;
    }
    let mut i: usize = 0;
    while i < b.len()
        invariant
            i <= b@.len(),
            forall|j: int| 0 <= j < a@.len() ==> b@.contains(#[trigger] a@[j]),
            forall|j: int| 0 <= j < i ==> a@.contains(#[trigger] b@[j]),
        decreases b@.len() - i,
    {
        if !holds(a, b[i]) {
            return false;
        }
        i = i + 1;
    }
    true
}

/// The first entry `k >= from` of the sine table (16 entries: the positive
/// angles, then their negatives) whose value is the sum `t`.
pub open spec fn asin_search(t: Seq<BasicToken>, from: int) -> Option<int>
    decreases 16 - from,
{
    if from < 0 || from >= 16 {
        None
    } else {
        let (n, d, neg) = sin_angle(from);
        match signed(sin_terms(n, d), neg) {
            Some(s) => if same_terms(t, s) {
                Some(from)
            } else {
                asin_search(t, from + 1)
            },
            None => asin_search(t, from + 1),
        }
    }
}

/// The first entry `k >= from` of the tangent table (22 entries) whose value
/// is the sum `t`.
pub open spec fn atan_search(t: Seq<BasicToken>, from: int) -> Option<int>
    decreases 22 - from,
{
    if from < 0 || from >= 22 {
        None
    } else {
        let (n, d, neg) = tan_angle(from);
        match signed(tan_terms(n, d), neg) {
            Some(s) => if same_terms(t, s) {
                Some(from)
            } else {
                atan_search(t, from + 1)
            },
            None => atan_search(t, from + 1),
        }
    }
}

proof fn lemma_asin_search_range(t: Seq<BasicToken>, from: int)
    ensures
        asin_search(t, from) matches Some(k) ==> 0 <= from <= k < 16 && sin_angle(k).0 > 0
            && sin_angle(k).1 > 1 && sin_angle(k).0 < sin_angle(k).1 && sin_angle(k).1 <= 12,
    decreases 16 - from,
{
    if 0 <= from < 16 {
        lemma_asin_search_range(t, from + 1);
    }
}

proof fn lemma_atan_search_range(t: Seq<BasicToken>, from: int)
    ensures
        atan_search(t, from) matches Some(k) ==> 0 <= from <= k < 22 && tan_angle(k).0 > 0
            && tan_angle(k).1 > 1 && tan_angle(k).0 < tan_angle(k).1 && tan_angle(k).1 <= 24,
    decreases 22 - from,
{
    if 0 <= from < 22 {
        lemma_atan_search_range(t, from + 1);
    }
}

/// The angle `(n, d, neg)` as the fraction `±n/d`.
pub open spec fn angle_fraction(a: (int, int, bool)) -> Fraction {
    Fraction { int: 0, num: (if a.2 {
        -a.0
    } else {
        a.0
    }) as i128, den: a.1 as i128 }
}

fn asin_lookup(t: &Vec<BasicToken>) -> (r: Option<usize>)
    ensures
        r matches Some(k) ==> k < 16,
        match asin_search(t@, 0) {
            Some(k) => r == Some(k as usize),
            None => r is None,
        },
{
    let mut k: usize = 0;
    while k < 16
        invariant
            k <= 16,
            asin_search(t@, k as int) == asin_search(t@, 0),
        decreases 16 - k,
    {
        let (n, d, neg) = sin_angle_at(k);
        match signed_table(sin_table(n, d), neg) {
            Some(s) => {
                if same(t, &s) {
                    return Some(k);
                }
            },
            None => {},
        }
        k = k + 1;
    }
    None
}

fn atan_lookup(t: &Vec<BasicToken>) -> (r: Option<usize>)
    ensures
        r matches Some(k) ==> k < 22,
        match atan_search(t@, 0) {
            Some(k) => r == Some(k as usize),
            None => r is None,
        },
{
    let mut k: usize = 0;
    while k < 22
        invariant
            k <= 22,
            atan_search(t@, k as int) == atan_search(t@, 0),
        decreases 22 - k,
    {
        let (n, d, neg) = tan_angle_at(k);
        match signed_table(tan_table(n, d), neg) {
            Some(s) => {
                if same(t, &s) {
                    return Some(k);
                }
            },
            None => {},
        }
        k = k + 1;
    }
    None
}

/// The terms of a value that is not a multiple of π.
pub open spec fn plain_terms(number: Token) -> Option<Seq<BasicToken>> {
    match number {
        Token::Basic(t) => Some(seq![t]),
        Token::Combined(c) => if c.pi.vec@.len() == 0 {
            Some(c.basic.vec@)
        } else {
            None
        },
        Token::Pi(_) => None,
    }
}

fn plain_terms_of(number: &Token) -> (r: Option<Vec<BasicToken>>)
    ensures
        match plain_terms(*number) {
            Some(t) => r matches Some(v) && v@ == t,
            None => r is None,
        },
{
    match number {
        Token::Basic(t) => {
            let mut v: Vec<BasicToken> = Vec::new();
            v.push(*t);
            assert(v@ =~= seq![*t]);
            Some(v)
        },
        Token::Combined(c) => {
            if c.pi.vec.len() == 0 {
                let mut v: Vec<BasicToken> = Vec::new();
                let mut i: usize = 0;
                while i < c.basic.vec.len()
                    invariant
                        i <= c.basic.vec@.len(),
                        v@ == c.basic.vec@.subrange(0, i as int),
                    decreases c.basic.vec@.len() - i,
                {
                    v.push(c.basic.vec[i]);
                    i = i + 1;
                }
                assert(v@ =~= c.basic.vec@);
                Some(v)
            } else {
                None
            }
        },
        Token::Pi(_) => None,
    }
}

/// Whether `|t| > 1`, decided exactly when the squares (cubes for a cube
/// root) needed for it fit the native integers: `c²·b > 1` for `c·√b` and
/// `|c³·b| > 1` for `c·∛b`, with `c = n/d` compared as `n²·b > d²` and
/// `|n³·b| > d³`.  `None` where that cannot be computed.
pub open spec fn outside_unit(t: BasicToken) -> Option<bool> {
    let c = coeff_of_term(t);
    let n = c.int * c.den + c.num;
    let d = c.den as int;
    if !crate::types::fits(c.int * c.den) || !crate::types::fits(n) || d <= 0 {
        None
    } else {
        match t {
            BasicToken::Integer(_) | BasicToken::Fraction(_) => Some(n > d || n < -d),
            BasicToken::SIntRoot(x) => square_outside(n, d, x.base as int),
            BasicToken::SFracRoot(x) => square_outside(n, d, x.base as int),
            BasicToken::CIntRoot(x) => cube_outside(n, d, x.base as int),
            BasicToken::CFracRoot(x) => cube_outside(n, d, x.base as int),
        }
    }
}

pub open spec fn coeff_of_term(t: BasicToken) -> Fraction {
    crate::types::coeff(t)
}

/// `n²·b > d²`, for a positive base.
pub open spec fn square_outside(n: int, d: int, b: int) -> Option<bool> {
    let fits = |x: int| crate::types::fits(x);
    if b <= 0 || !fits(n * n) || !fits(n * n * b) || !fits(d * d) {
        None
    } else {
        Some(n * n * b > d * d)
    }
}

/// `|n³·b| > d³`.
pub open spec fn cube_outside(n: int, d: int, b: int) -> Option<bool> {
    let fits = |x: int| crate::types::fits(x);
    if !fits(n * n) || !fits(n * n * n) || !fits(n * n * n * b) || !fits(d * d) || !fits(
        d * d * d,
    ) {
        None
    } else {
        Some(n * n * n * b > d * d * d || n * n * n * b < -(d * d * d))
    }
}

/// Outside the domain `[-1, 1]` of `asin` and `acos`, as far as it can be
/// decided exactly: a term with `|t| > 1`, or a nonzero whole multiple of π.
pub open spec fn beyond_one(number: Token) -> bool {
    match number {
        Token::Basic(t) => outside_unit(t) == Some(true),
        Token::Pi(BasicToken::Integer(k)) => k != 0,
        _ => false,
    }
}

fn mul_opt(a: i128, b: i128) -> (r: Option<i128>)
    ensures
        r == (if crate::types::fits(a * b) {
            Some((a * b) as i128)
        } else {
            None
        }),
{
    a.checked_mul(b)
}

fn square_outside_exec(n: i128, d: i128, b: i128) -> (r: Option<bool>)
    ensures
        r == square_outside(n as int, d as int, b as int),
{
    if b <= 0 {
        return None;
    }
    let n2 = mul_opt(n, n)?;
    let l = mul_opt(n2, b)?;
    let d2 = mul_opt(d, d)?;
    Some(l > d2)
}

fn cube_outside_exec(n: i128, d: i128, b: i128) -> (r: Option<bool>)
    requires
        d > 0,
    ensures
        r == cube_outside(n as int, d as int, b as int),
{
    let n2 = mul_opt(n, n)?;
    let n3 = mul_opt(n2, n)?;
    let l = mul_opt(n3, b)?;
    let d2 = mul_opt(d, d)?;
    let d3 = mul_opt(d2, d)?;
    assert(d * d * d > 0) by (nonlinear_arith)
        requires
            d > 0,
    ;
    Some(l > d3 || l < -d3)
}

fn outside_unit_exec(t: BasicToken) -> (r: Option<bool>)
    ensures
        r == outside_unit(t),
{
    let (_, base, c) = crate::types::parts(t);
    let w = mul_opt(c.int, c.den)?;
    let n = match w.checked_add(c.num) {
        Some(v) => v,
        None => {
            return None;
        },
    };
    let d = c.den;
    if d <= 0 {
        return None;
    }
    match t {
        BasicToken::Integer(_) | BasicToken::Fraction(_) => Some(n > d || n < -d),
        BasicToken::SIntRoot(_) | BasicToken::SFracRoot(_) => square_outside_exec(n, d, base),
        BasicToken::CIntRoot(_) | BasicToken::CFracRoot(_) => cube_outside_exec(n, d, base),
    }
}

fn is_beyond_one(number: &Token) -> (r: bool)
    ensures
        r == beyond_one(*number),
{
    match number {
        Token::Basic(t) => outside_unit_exec(*t) == Some(true),
        Token::Pi(BasicToken::Integer(k)) => *k != 0,
        _ => false,
    }
}

fn angle_token(a: (i128, i128, bool)) -> (r: BasicToken)
    requires
        a.0 > 0,
    ensures
        r == BasicToken::Fraction(angle_fraction((a.0 as int, a.1 as int, a.2))),
{
    BasicToken::fraction(0, if a.2 { -a.0 } else { a.0 }, a.1)
}

fn is_zero(t: &Token) -> (r: bool)
    ensures
        r == (*t == Token::Basic(BasicToken::Integer(0))),
{
    match t {
        Token::Basic(BasicToken::Integer(0)) => true,
        _ => false,
    }
}

/// The arcsine, exactly where the value is one of the sine table's (the
/// result is then a multiple of π); `DomainError` for a value beyond
/// `[-1, 1]` (see `beyond_one`); other values need floating point: `Overflow`.
pub fn asin(number: Token) -> (r: Result<Token, MathError>)
    ensures
        number == Token::Basic(BasicToken::Integer(0)) ==> r == Ok::<Token, MathError>(
            Token::Basic(BasicToken::Integer(0)),
        ),
        number != Token::Basic(BasicToken::Integer(0)) ==> match plain_terms(number) {
            Some(t) => match asin_search(t, 0) {
                Some(k) => r == Ok::<Token, MathError>(
                    Token::Pi(BasicToken::Fraction(angle_fraction(sin_angle(k)))),
                ),
                None => r == Err::<Token, MathError>(
                    if beyond_one(number) {
                        MathError::DomainError
                    } else {
                        MathError::Overflow
                    },
                ),
            },
            None => r == Err::<Token, MathError>(
                if beyond_one(number) {
                    MathError::DomainError
                } else {
                    MathError::Overflow
                },
            ),
        },
{
    if is_zero(&number) {
        return Ok(Token::Basic(BasicToken::Integer(0)));
    }
    match plain_terms_of(&number) {
        Some(t) => match {
            proof {
                lemma_asin_search_range(t@, 0);
            }
            asin_lookup(&t)
        } {
            Some(k) => Ok(Token::Pi(angle_token(sin_angle_at(k)))),
            None => {
                if is_beyond_one(&number) {
                    return Err(MathError::DomainError);
                }
                Err(MathError::Overflow)
            },
        },
        None => {
            if is_beyond_one(&number) {
                return Err(MathError::DomainError);
            }
            Err(MathError::Overflow)
        },
    }
}

/// `π/2 - π·a`, the arccosine for an arcsine of `π·a`.
pub open spec fn complement(a: Fraction) -> Result<BasicToken, MathError> {
    crate::types::normal_form(0, a.den - 2 * a.num, 2 * a.den)
}

/// The arccosine, `π/2 - asin`, exactly where the arcsine is exact;
/// `DomainError` for a value beyond `[-1, 1]` (see `beyond_one`); other values need
/// floating point: `Overflow`.
pub fn acos(number: Token) -> (r: Result<Token, MathError>)
    ensures
        number == Token::Basic(BasicToken::Integer(0)) ==> r == Ok::<Token, MathError>(
            Token::Pi(BasicToken::Fraction(Fraction { int: 0, num: 1, den: 2 })),
        ),
        number != Token::Basic(BasicToken::Integer(0)) ==> match plain_terms(number) {
            Some(t) => match asin_search(t, 0) {
                Some(k) => match complement(angle_fraction(sin_angle(k))) {
                    Ok(BasicToken::Integer(0)) => r == Ok::<Token, MathError>(
                        Token::Basic(BasicToken::Integer(0)),
                    ),
                    Ok(v) => r == Ok::<Token, MathError>(Token::Pi(v)),
                    Err(e) => r == Err::<Token, MathError>(e),
                },
                None => r == Err::<Token, MathError>(
                    if beyond_one(number) {
                        MathError::DomainError
                    } else {
                        MathError::Overflow
                    },
                ),
            },
            None => r == Err::<Token, MathError>(
                if beyond_one(number) {
                    MathError::DomainError
                } else {
                    MathError::Overflow
                },
            ),
        },
{
    if is_zero(&number) {
        return Ok(Token::Pi(BasicToken::fraction(0, 1, 2)));
    }
    match plain_terms_of(&number) {
        Some(t) => match {
            proof {
                lemma_asin_search_range(t@, 0);
            }
            asin_lookup(&t)
        } {
            Some(k) => {
                let (n, d, neg) = sin_angle_at(k);
                let sn = if neg { -n } else { n };
                let v = Fraction::new(0, d - 2 * sn, 2 * d).normalise()?;
                if v == BasicToken::Integer(0) {
                    Ok(Token::Basic(v))
                } else {
                    Ok(Token::Pi(v))
                }
            },
            None => {
                if is_beyond_one(&number) {
                    return Err(MathError::DomainError);
                }
                Err(MathError::Overflow)
            },
        },
        None => {
            if is_beyond_one(&number) {
                return Err(MathError::DomainError);
            }
            Err(MathError::Overflow)
        },
    }
}

/// The arctangent, exactly where the value is one of the tangent table's;
/// other values need floating point: `Overflow`.
pub fn atan(number: Token) -> (r: Result<Token, MathError>)
    ensures
        number == Token::Basic(BasicToken::Integer(0)) ==> r == Ok::<Token, MathError>(
            Token::Basic(BasicToken::Integer(0)),
        ),
        number != Token::Basic(BasicToken::Integer(0)) ==> match plain_terms(number) {
            Some(t) => match atan_search(t, 0) {
                Some(k) => r == Ok::<Token, MathError>(
                    Token::Pi(BasicToken::Fraction(angle_fraction(tan_angle(k)))),
                ),
                None => r == Err::<Token, MathError>(MathError::Overflow),
            },
            None => r == Err::<Token, MathError>(MathError::Overflow),
        },
{
    if is_zero(&number) {
        return Ok(Token::Basic(BasicToken::Integer(0)));
    }
    match plain_terms_of(&number) {
        Some(t) => match {
            proof {
                lemma_atan_search_range(t@, 0);
            }
            atan_lookup(&t)
        } {
            Some(k) => Ok(Token::Pi(angle_token(tan_angle_at(k)))),
            None => Err(MathError::Overflow),
        },
        None => Err(MathError::Overflow),
    }
}

} // verus!

verus! {

/// The values of the sine table, in the order of `sin_angle`.
pub open spec fn sin_value(k: int) -> Seq<BasicToken> {
    if k == 0 {
        seq![sq(1, 4, 6), sq(-1, 4, 2)]
    } else if k == 1 {
        seq![sq(1, 4, 5), fr(-1, 4)]
    } else if k == 2 {
        seq![fr(1, 2)]
    } else if k == 3 {
        seq![sq(1, 2, 2)]
    } else if k == 4 {
        seq![sq(1, 4, 5), fr(1, 4)]
    } else if k == 5 {
        seq![sq(1, 2, 3)]
    } else if k == 6 {
        seq![sq(1, 4, 6), sq(1, 4, 2)]
    } else if k == 7 {
        seq![it(1)]
    } else if k == 8 {
        seq![sq(-1, 4, 6), sq(1, 4, 2)]
    } else if k == 9 {
        seq![sq(-1, 4, 5), fr(1, 4)]
    } else if k == 10 {
        seq![fr(-1, 2)]
    } else if k == 11 {
        seq![sq(-1, 2, 2)]
    } else if k == 12 {
        seq![sq(-1, 4, 5), fr(-1, 4)]
    } else if k == 13 {
        seq![sq(-1, 2, 3)]
    } else if k == 14 {
        seq![sq(-1, 4, 6), sq(-1, 4, 2)]
    } else if k == 15 {
        seq![it(-1)]
    } else {
        Seq::empty()
    }
}

#[verifier::spinoff_prover]
#[verifier::rlimit(80)]
proof fn lemma_sin_value(k: int)
    requires
        0 <= k < 16,
    ensures
        signed(sin_terms(sin_angle(k).0, sin_angle(k).1), sin_angle(k).2) == Some(sin_value(k)),
{
    reveal_with_fuel(set_negated, 3);

    if k == 0 {
    } else if k == 1 {
    } else if k == 2 {
    } else if k == 3 {
    } else if k == 4 {
    } else if k == 5 {
    } else if k == 6 {
    } else if k == 7 {
    } else if k == 8 {
        let t = seq![sq(1, 4, 6), sq(-1, 4, 2)];
        assert(t.drop_last() =~= seq![sq(1, 4, 6)]);
        assert(t.drop_last().drop_last() =~= Seq::<BasicToken>::empty());
        assert(set_negated(t) == Ok::<Seq<BasicToken>, MathError>(sin_value(k))) by {
            assert(seq![sq(-1, 4, 6)].push(sq(1, 4, 2)) =~= sin_value(k));
            assert(Seq::<BasicToken>::empty().push(sq(-1, 4, 6)) =~= seq![sq(-1, 4, 6)]);
        }
    } else if k == 9 {
        let t = seq![sq(1, 4, 5), fr(-1, 4)];
        assert(t.drop_last() =~= seq![sq(1, 4, 5)]);
        assert(t.drop_last().drop_last() =~= Seq::<BasicToken>::empty());
        assert(set_negated(t) == Ok::<Seq<BasicToken>, MathError>(sin_value(k))) by {
            assert(seq![sq(-1, 4, 5)].push(fr(1, 4)) =~= sin_value(k));
            assert(Seq::<BasicToken>::empty().push(sq(-1, 4, 5)) =~= seq![sq(-1, 4, 5)]);
        }
    } else if k == 10 {
        let t = seq![fr(1, 2)];
        assert(t.drop_last() =~= Seq::<BasicToken>::empty());
        assert(set_negated(t) == Ok::<Seq<BasicToken>, MathError>(sin_value(k))) by {
            assert(Seq::<BasicToken>::empty().push(fr(-1, 2)) =~= sin_value(k));
        }
    } else if k == 11 {
        let t = seq![sq(1, 2, 2)];
        assert(t.drop_last() =~= Seq::<BasicToken>::empty());
        assert(set_negated(t) == Ok::<Seq<BasicToken>, MathError>(sin_value(k))) by {
            assert(Seq::<BasicToken>::empty().push(sq(-1, 2, 2)) =~= sin_value(k));
        }
    } else if k == 12 {
        let t = seq![sq(1, 4, 5), fr(1, 4)];
        assert(t.drop_last() =~= seq![sq(1, 4, 5)]);
        assert(t.drop_last().drop_last() =~= Seq::<BasicToken>::empty());
        assert(set_negated(t) == Ok::<Seq<BasicToken>, MathError>(sin_value(k))) by {
            assert(seq![sq(-1, 4, 5)].push(fr(-1, 4)) =~= sin_value(k));
            assert(Seq::<BasicToken>::empty().push(sq(-1, 4, 5)) =~= seq![sq(-1, 4, 5)]);
        }
    } else if k == 13 {
        let t = seq![sq(1, 2, 3)];
        assert(t.drop_last() =~= Seq::<BasicToken>::empty());
        assert(set_negated(t) == Ok::<Seq<BasicToken>, MathError>(sin_value(k))) by {
            assert(Seq::<BasicToken>::empty().push(sq(-1, 2, 3)) =~= sin_value(k));
        }
    } else if k == 14 {
        let t = seq![sq(1, 4, 6), sq(1, 4, 2)];
        assert(t.drop_last() =~= seq![sq(1, 4, 6)]);
        assert(t.drop_last().drop_last() =~= Seq::<BasicToken>::empty());
        assert(set_negated(t) == Ok::<Seq<BasicToken>, MathError>(sin_value(k))) by {
            assert(seq![sq(-1, 4, 6)].push(sq(-1, 4, 2)) =~= sin_value(k));
            assert(Seq::<BasicToken>::empty().push(sq(-1, 4, 6)) =~= seq![sq(-1, 4, 6)]);
        }
    } else if k == 15 {
        let t = seq![it(1)];
        assert(t.drop_last() =~= Seq::<BasicToken>::empty());
        assert(set_negated(t) == Ok::<Seq<BasicToken>, MathError>(sin_value(k))) by {
            assert(Seq::<BasicToken>::empty().push(it(-1)) =~= sin_value(k));
        }
    }
}

proof fn lemma_search_skip(t: Seq<BasicToken>, j: int)
    requires
        0 <= j < 16,
        !same_terms(t, sin_value(j)),
    ensures
        asin_search(t, j) == asin_search(t, j + 1),
{
    lemma_sin_value(j);
}

proof fn lemma_search_hit(t: Seq<BasicToken>, j: int)
    requires
        0 <= j < 16,
        same_terms(t, sin_value(j)),
    ensures
        asin_search(t, j) == Some(j),
{
    lemma_sin_value(j);
}

proof fn lemma_same_terms_refl(t: Seq<BasicToken>)
    ensures
        same_terms(t, t),
{
    assert forall|i: int| 0 <= i < t.len() implies t.contains(#[trigger] t[i]) by {}
}

/// The arcsine of the table's `k`-th value is the `k`-th angle.
proof fn lemma_asin_of_value(k: int)
    requires
        0 <= k < 16,
    ensures
        asin_search(sin_value(k), 0) == Some(k),
{
    let t = sin_value(k);
    lemma_same_terms_refl(t);

    if k == 0 {
        lemma_search_hit(t, 0);
    } else if k == 1 {
        assert(!sin_value(0).contains(t[0]));
        lemma_search_skip(t, 0);
        lemma_search_hit(t, 1);
    } else if k == 2 {
        lemma_search_skip(t, 0);
        lemma_search_skip(t, 1);
        lemma_search_hit(t, 2);
    } else if k == 3 {
        lemma_search_skip(t, 0);
        lemma_search_skip(t, 1);
        assert(!sin_value(2).contains(t[0]));
        lemma_search_skip(t, 2);
        lemma_search_hit(t, 3);
    } else if k == 4 {
        assert(!sin_value(0).contains(t[0]));
        lemma_search_skip(t, 0);
        assert(!sin_value(1).contains(t[1]));
        lemma_search_skip(t, 1);
        lemma_search_skip(t, 2);
        lemma_search_skip(t, 3);
        lemma_search_hit(t, 4);
    } else if k == 5 {
        lemma_search_skip(t, 0);
        lemma_search_skip(t, 1);
        assert(!sin_value(2).contains(t[0]));
        lemma_search_skip(t, 2);
        assert(!sin_value(3).contains(t[0]));
        lemma_search_skip(t, 3);
        lemma_search_skip(t, 4);
        lemma_search_hit(t, 5);
    } else if k == 6 {
        assert(!sin_value(0).contains(t[1]));
        lemma_search_skip(t, 0);
        assert(!sin_value(1).contains(t[0]));
        lemma_search_skip(t, 1);
        lemma_search_skip(t, 2);
        lemma_search_skip(t, 3);
        assert(!sin_value(4).contains(t[0]));
        lemma_search_skip(t, 4);
        lemma_search_skip(t, 5);
        lemma_search_hit(t, 6);
    } else if k == 7 {
        lemma_search_skip(t, 0);
        lemma_search_skip(t, 1);
        assert(!sin_value(2).contains(t[0]));
        lemma_search_skip(t, 2);
        assert(!sin_value(3).contains(t[0]));
        lemma_search_skip(t, 3);
        lemma_search_skip(t, 4);
        assert(!sin_value(5).contains(t[0]));
        lemma_search_skip(t, 5);
        lemma_search_skip(t, 6);
        lemma_search_hit(t, 7);
    } else if k == 8 {
        assert(!sin_value(0).contains(t[0]));
        lemma_search_skip(t, 0);
        assert(!sin_value(1).contains(t[0]));
        lemma_search_skip(t, 1);
        lemma_search_skip(t, 2);
        lemma_search_skip(t, 3);
        assert(!sin_value(4).contains(t[0]));
        lemma_search_skip(t, 4);
        lemma_search_skip(t, 5);
        assert(!sin_value(6).contains(t[0]));
        lemma_search_skip(t, 6);
        lemma_search_skip(t, 7);
        lemma_search_hit(t, 8);
    } else if k == 9 {
        assert(!sin_value(0).contains(t[0]));
        lemma_search_skip(t, 0);
        assert(!sin_value(1).contains(t[0]));
        lemma_search_skip(t, 1);
        lemma_search_skip(t, 2);
        lemma_search_skip(t, 3);
        assert(!sin_value(4).contains(t[0]));
        lemma_search_skip(t, 4);
        lemma_search_skip(t, 5);
        assert(!sin_value(6).contains(t[0]));
        lemma_search_skip(t, 6);
        lemma_search_skip(t, 7);
        assert(!sin_value(8).contains(t[0]));
        lemma_search_skip(t, 8);
        lemma_search_hit(t, 9);
    } else if k == 10 {
        lemma_search_skip(t, 0);
        lemma_search_skip(t, 1);
        assert(!sin_value(2).contains(t[0]));
        lemma_search_skip(t, 2);
        assert(!sin_value(3).contains(t[0]));
        lemma_search_skip(t, 3);
        lemma_search_skip(t, 4);
        assert(!sin_value(5).contains(t[0]));
        lemma_search_skip(t, 5);
        lemma_search_skip(t, 6);
        assert(!sin_value(7).contains(t[0]));
        lemma_search_skip(t, 7);
        lemma_search_skip(t, 8);
        lemma_search_skip(t, 9);
        lemma_search_hit(t, 10);
    } else if k == 11 {
        lemma_search_skip(t, 0);
        lemma_search_skip(t, 1);
        assert(!sin_value(2).contains(t[0]));
        lemma_search_skip(t, 2);
        assert(!sin_value(3).contains(t[0]));
        lemma_search_skip(t, 3);
        lemma_search_skip(t, 4);
        assert(!sin_value(5).contains(t[0]));
        lemma_search_skip(t, 5);
        lemma_search_skip(t, 6);
        assert(!sin_value(7).contains(t[0]));
        lemma_search_skip(t, 7);
        lemma_search_skip(t, 8);
        lemma_search_skip(t, 9);
        assert(!sin_value(10).contains(t[0]));
        lemma_search_skip(t, 10);
        lemma_search_hit(t, 11);
    } else if k == 12 {
        assert(!sin_value(0).contains(t[0]));
        lemma_search_skip(t, 0);
        assert(!sin_value(1).contains(t[0]));
        lemma_search_skip(t, 1);
        lemma_search_skip(t, 2);
        lemma_search_skip(t, 3);
        assert(!sin_value(4).contains(t[0]));
        lemma_search_skip(t, 4);
        lemma_search_skip(t, 5);
        assert(!sin_value(6).contains(t[0]));
        lemma_search_skip(t, 6);
        lemma_search_skip(t, 7);
        assert(!sin_value(8).contains(t[0]));
        lemma_search_skip(t, 8);
        assert(!sin_value(9).contains(t[1]));
        lemma_search_skip(t, 9);
        lemma_search_skip(t, 10);
        lemma_search_skip(t, 11);
        lemma_search_hit(t, 12);
    } else if k == 13 {
        lemma_search_skip(t, 0);
        lemma_search_skip(t, 1);
        assert(!sin_value(2).contains(t[0]));
        lemma_search_skip(t, 2);
        assert(!sin_value(3).contains(t[0]));
        lemma_search_skip(t, 3);
        lemma_search_skip(t, 4);
        assert(!sin_value(5).contains(t[0]));
        lemma_search_skip(t, 5);
        lemma_search_skip(t, 6);
        assert(!sin_value(7).contains(t[0]));
        lemma_search_skip(t, 7);
        lemma_search_skip(t, 8);
        lemma_search_skip(t, 9);
        assert(!sin_value(10).contains(t[0]));
        lemma_search_skip(t, 10);
        assert(!sin_value(11).contains(t[0]));
        lemma_search_skip(t, 11);
        lemma_search_skip(t, 12);
        lemma_search_hit(t, 13);
    } else if k == 14 {
        assert(!sin_value(0).contains(t[0]));
        lemma_search_skip(t, 0);
        assert(!sin_value(1).contains(t[0]));
        lemma_search_skip(t, 1);
        lemma_search_skip(t, 2);
        lemma_search_skip(t, 3);
        assert(!sin_value(4).contains(t[0]));
        lemma_search_skip(t, 4);
        lemma_search_skip(t, 5);
        assert(!sin_value(6).contains(t[0]));
        lemma_search_skip(t, 6);
        lemma_search_skip(t, 7);
        assert(!sin_value(8).contains(t[1]));
        lemma_search_skip(t, 8);
        assert(!sin_value(9).contains(t[0]));
        lemma_search_skip(t, 9);
        lemma_search_skip(t, 10);
        lemma_search_skip(t, 11);
        assert(!sin_value(12).contains(t[0]));
        lemma_search_skip(t, 12);
        lemma_search_skip(t, 13);
        lemma_search_hit(t, 14);
    } else if k == 15 {
        lemma_search_skip(t, 0);
        lemma_search_skip(t, 1);
        assert(!sin_value(2).contains(t[0]));
        lemma_search_skip(t, 2);
        assert(!sin_value(3).contains(t[0]));
        lemma_search_skip(t, 3);
        lemma_search_skip(t, 4);
        assert(!sin_value(5).contains(t[0]));
        lemma_search_skip(t, 5);
        lemma_search_skip(t, 6);
        assert(!sin_value(7).contains(t[0]));
        lemma_search_skip(t, 7);
        lemma_search_skip(t, 8);
        lemma_search_skip(t, 9);
        assert(!sin_value(10).contains(t[0]));
        lemma_search_skip(t, 10);
        assert(!sin_value(11).contains(t[0]));
        lemma_search_skip(t, 11);
        lemma_search_skip(t, 12);
        assert(!sin_value(13).contains(t[0]));
        lemma_search_skip(t, 13);
        lemma_search_skip(t, 14);
        lemma_search_hit(t, 15);
    }
}

/// The sine of every angle of the table is the table's value, and the
/// arcsine of that value is the angle again: `asin(sin(θ)) = θ` and
/// `sin(asin(x)) = x` on the table.
pub proof fn lemma_sin_asin_round_trip(k: int)
    requires
        0 <= k < 16,
    ensures
        sin_exact(angle_fraction(sin_angle(k))) == Some(sin_value(k)),
        asin_search(sin_value(k), 0) == Some(k),
{
    lemma_sin_value(k);
    lemma_asin_of_value(k);
}

} // verus!
