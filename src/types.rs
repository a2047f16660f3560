use vstd::prelude::*;

use crate::my_math::{abs, gcd, gcd_u128, lemma_gcd_divides};
use crate::number::{basic_add, basic_div, basic_mul, try_add, try_div, try_mul};

verus! {

/// The outcomes of an evaluation that is not a value.
///
/// `Combine` and `Overflow` steer the arithmetic: `Combine` asks the caller
/// to keep two terms side by side, `Overflow` says that the exact result does
/// not fit the native integers and has to be computed in floating point.
#[derive(Debug, PartialEq, Eq, Structural, Copy, Clone)]
pub enum MathError {
    Nothing,
    Combine,
    SyntaxError,
    Overflow,
    DoubleOverflow,
    DivisionByZero,
    ComplexNumber,
    ExponentiationError,
    TrigAccuracy,
    TangentError,
    DomainError,
}

/// The message shown to a user for each error.
pub open spec fn message_text(e: MathError) -> Seq<char> {
    match e {
        MathError::Nothing => "All good!"@,
        MathError::Combine => "Should combine"@,
        MathError::SyntaxError => "Incorrect syntax"@,
        MathError::Overflow => "Overflow"@,
        MathError::DoubleOverflow => "Proper overflow"@,
        MathError::DivisionByZero => "Division by zero"@,
        MathError::ComplexNumber => "Complex numbers not implemented"@,
        MathError::ExponentiationError => "Cannot compute 0^0"@,
        MathError::TrigAccuracy => "Cannot compute trig value accurately enough"@,
        MathError::TangentError => "Cannot compute the tangent of pi/2"@,
        MathError::DomainError => "Function cannot compute values outside of it's domain."@,
    }
}

impl MathError {
    /// The message shown to a user.
    pub fn message(&self) -> (r: String)
        ensures
            r@ == message_text(*self),
    {
        let s = match self {
            MathError::Nothing => "All good!",
            MathError::Combine => "Should combine",
            MathError::SyntaxError => "Incorrect syntax",
            MathError::Overflow => "Overflow",
            MathError::DoubleOverflow => "Proper overflow",
            MathError::DivisionByZero => "Division by zero",
            MathError::ComplexNumber => "Complex numbers not implemented",
            MathError::ExponentiationError => "Cannot compute 0^0",
            MathError::TrigAccuracy => "Cannot compute trig value accurately enough",
            MathError::TangentError => "Cannot compute the tangent of pi/2",
            MathError::DomainError => "Function cannot compute values outside of it's domain.",
        };
        s.to_owned()
    }
}

pub open spec fn fits(x: int) -> bool {
    i128::MIN <= x <= i128::MAX
}

/// `x` as an `i128`, or `Overflow` when it does not fit.
pub open spec fn checked(x: int) -> Result<i128, MathError> {
    if fits(x) {
        Ok(x as i128)
    } else {
        Err(MathError::Overflow)
    }
}

pub fn checked_add(a: i128, b: i128) -> (r: Result<i128, MathError>)
    ensures
        r == checked(a + b),
{
    if (b > 0 && a > i128::MAX - b) || (b < 0 && a < i128::MIN - b) {
        Err(MathError::Overflow)
    } else {
        Ok(a + b)
    }
}

pub fn checked_sub(a: i128, b: i128) -> (r: Result<i128, MathError>)
    ensures
        r == checked(a - b),
{
    if (b < 0 && a > i128::MAX + b) || (b > 0 && a < i128::MIN + b) {
        Err(MathError::Overflow)
    } else {
        Ok(a - b)
    }
}

pub fn checked_mul(a: i128, b: i128) -> (r: Result<i128, MathError>)
    ensures
        r == checked(a * b),
{
    match a.checked_mul(b) {
        Some(x) => Ok(x),
        None => Err(MathError::Overflow),
    }
}

pub fn checked_neg(a: i128) -> (r: Result<i128, MathError>)
    ensures
        r == checked(-a),
{
    if a == i128::MIN {
        Err(MathError::Overflow)
    } else {
        Ok(-a)
    }
}

/// The absolute value, which always fits in a `u128`.
pub fn magnitude(x: i128) -> (r: u128)
    ensures
        r == abs(x as int),
        r <= 0x8000_0000_0000_0000_0000_0000_0000_0000,
{
    if x < 0 {
        ((-(x + 1)) as u128) + 1
    } else {
        x as u128
    }
}

/// A mixed number `int + num/den`.
#[derive(Debug, PartialEq, Eq, Structural, Copy, Clone)]
pub struct Fraction {
    pub int: i128,
    pub num: i128,
    pub den: i128,
}

/// The normal form of a fraction: `den > 1`, `0 < |num| < den`, the signs of
/// `num` and `int` agree (or `int` is zero) and `num/den` is reduced.
pub open spec fn normalised(f: Fraction) -> bool {
    &&& f.den > 1
    &&& 0 < abs(f.num as int) < f.den
    &&& (f.int > 0 ==> f.num > 0)
    &&& (f.int < 0 ==> f.num < 0)
    &&& gcd(abs(f.num as int) as nat, f.den as nat) == 1
}

/// The value `int + num/den` scaled by `den`: `int*den + num`.
pub open spec fn scaled(whole: int, num: int, den: int) -> int {
    whole * den + num
}

/// The mixed number `int + num/den` in normal form: an `Integer` when it is a
/// whole number, else a normalised `Fraction`.  `DivisionByZero` when `den`
/// is zero, `Overflow` when the normal form does not fit the native integers.
pub open spec fn normal_form(whole: int, num: int, den: int) -> Result<BasicToken, MathError> {
    if den == 0 {
        Err(MathError::DivisionByZero)
    } else {
        let neg = (num < 0) != (den < 0);
        let an = abs(num);
        let ad = abs(den);
        let q = an / ad;
        let rm = an % ad;
        let i0 = if neg {
            whole - q
        } else {
            whole + q
        };
        if !fits(i0) {
            Err(MathError::Overflow)
        } else if rm == 0 {
            Ok(BasicToken::Integer(i0 as i128))
        } else {
            let flip = (i0 > 0 && neg) || (i0 < 0 && !neg);
            let i1 = if i0 > 0 && neg {
                i0 - 1
            } else if i0 < 0 && !neg {
                i0 + 1
            } else {
                i0
            };
            let r1 = if flip {
                ad - rm
            } else {
                rm
            };
            let neg1 = if flip {
                !neg
            } else {
                neg
            };
            let g = gcd(r1 as nat, ad as nat) as int;
            let nn = r1 / g;
            let dd = ad / g;
            if dd > i128::MAX {
                Err(MathError::Overflow)
            } else {
                Ok(
                    BasicToken::Fraction(
                        Fraction {
                            int: i1 as i128,
                            num: (if neg1 {
                                -nn
                            } else {
                                nn
                            }) as i128,
                            den: dd as i128,
                        },
                    ),
                )
            }
        }
    }
}

/// The normal form of the sum of two fractions, when every intermediate
/// product and sum fits the native integers.
pub open spec fn fraction_add(a: Fraction, b: Fraction) -> Result<BasicToken, MathError> {
    let w = a.int + b.int;
    let p = a.num * b.den;
    let q = a.den * b.num;
    let d = a.den * b.den;
    if fits(w) && fits(p) && fits(q) && fits(p + q) && fits(d) {
        normal_form(w, p + q, d)
    } else {
        Err(MathError::Overflow)
    }
}

/// The normal form of `a - b`, when every intermediate value fits.
pub open spec fn fraction_sub(a: Fraction, b: Fraction) -> Result<BasicToken, MathError> {
    let w = a.int - b.int;
    let p = a.num * b.den;
    let q = a.den * b.num;
    let d = a.den * b.den;
    if fits(w) && fits(p) && fits(q) && fits(p - q) && fits(d) {
        normal_form(w, p - q, d)
    } else {
        Err(MathError::Overflow)
    }
}

/// The normal form of `a * b`:
/// `(ai + an/ad)(bi + bn/bd) = ai*bi + (an*bn + an*bi*bd + bn*ai*ad)/(ad*bd)`.
pub open spec fn fraction_mul(a: Fraction, b: Fraction) -> Result<BasicToken, MathError> {
    let nn = a.num * b.num;
    let x = b.int * b.den;
    let y = a.int * a.den;
    let ab = a.num * x + b.num * y;
    let w = a.int * b.int;
    let d = a.den * b.den;
    if fits(nn) && fits(x) && fits(a.num * x) && fits(y) && fits(b.num * y) && fits(ab) && fits(
        nn + ab,
    ) && fits(w) && fits(d) {
        normal_form(w, nn + ab, d)
    } else {
        Err(MathError::Overflow)
    }
}

/// The normal form of `a / b = (ai*ad + an)*bd / (ad*(bi*bd + bn))`.
pub open spec fn fraction_div(a: Fraction, b: Fraction) -> Result<BasicToken, MathError> {
    let x = a.int * a.den;
    let y = b.int * b.den;
    let n = b.den * (a.num + x);
    let d = a.den * (b.num + y);
    if fits(x) && fits(a.num + x) && fits(n) && fits(y) && fits(b.num + y) && fits(d) {
        normal_form(0, n, d)
    } else {
        Err(MathError::Overflow)
    }
}

/// `-f`, term by term.
pub open spec fn fraction_neg(f: Fraction) -> Result<Fraction, MathError> {
    if fits(-f.int) && fits(-f.num) {
        Ok(Fraction { int: (-f.int) as i128, num: (-f.num) as i128, den: f.den })
    } else {
        Err(MathError::Overflow)
    }
}

/// `c * √base` in its simplest form, for a rational `c`.
pub open spec fn s_root_of(c: BasicToken, base: i128) -> Result<BasicToken, MathError> {
    if c == BasicToken::Integer(0) || base == 0 {
        Ok(BasicToken::Integer(0))
    } else if base == 1 {
        Ok(c)
    } else {
        match c {
            BasicToken::Integer(v) => Ok(BasicToken::SIntRoot(SRoot { mul: v, base })),
            BasicToken::Fraction(v) => Ok(BasicToken::SFracRoot(SRoot { mul: v, base })),
            _ => Err(MathError::Overflow),
        }
    }
}

/// `c * ∛base` in its simplest form, for a rational `c`.
pub open spec fn c_root_of(c: BasicToken, base: i128) -> Result<BasicToken, MathError> {
    if c == BasicToken::Integer(0) || base == 0 {
        Ok(BasicToken::Integer(0))
    } else if base == 1 {
        Ok(c)
    } else if base == -1 {
        match c {
            BasicToken::Integer(v) => if fits(-v) {
                Ok(BasicToken::Integer((-v) as i128))
            } else {
                Err(MathError::Overflow)
            },
            BasicToken::Fraction(v) => match fraction_neg(v) {
                Ok(n) => Ok(BasicToken::Fraction(n)),
                Err(e) => Err(e),
            },
            _ => Err(MathError::Overflow),
        }
    } else {
        match c {
            BasicToken::Integer(v) => Ok(BasicToken::CIntRoot(CRoot { mul: v, base })),
            BasicToken::Fraction(v) => Ok(BasicToken::CFracRoot(CRoot { mul: v, base })),
            _ => Err(MathError::Overflow),
        }
    }
}

/// `int - q` or `int + q`, checked.
fn shift(whole: i128, q: u128, neg: bool) -> (r: Result<i128, MathError>)
    requires
        q <= 0x8000_0000_0000_0000_0000_0000_0000_0000,
    ensures
        r == checked(
            if neg {
                whole - q
            } else {
                whole + q
            },
        ),
{
    if q <= i128::MAX as u128 {
        if neg {
            checked_sub(whole, q as i128)
        } else {
            checked_add(whole, q as i128)
        }
    } else if neg {
        if whole >= 0 {
            Ok(whole - i128::MAX - 1)
        } else {
            Err(MathError::Overflow)
        }
    } else {
        if whole < 0 {
            Ok(whole + i128::MAX + 1)
        } else {
            Err(MathError::Overflow)
        }
    }
}

impl Fraction {
    pub fn new(whole: i128, num: i128, den: i128) -> (r: Fraction)
        ensures
            r == (Fraction { int: whole, num, den }),
    {
        Fraction { int: whole, num, den }
    }

    /// The value `int + num/den` as an `Integer` or a normalised `Fraction`.
    pub fn normalise(self) -> (r: Result<BasicToken, MathError>)
        ensures
            r == normal_form(self.int as int, self.num as int, self.den as int),
    {
        if self.den == 0 {
            return Err(MathError::DivisionByZero);
        }
        let neg = (self.num < 0) != (self.den < 0);
        let an = magnitude(self.num);
        let ad = magnitude(self.den);
        let q = an / ad;
        let rm = an % ad;
        proof {
            vstd::arithmetic::div_mod::lemma_div_is_ordered_by_denominator(an as int, 1, ad as int);
        }
        let i0 = match shift(self.int, q, neg) {
            Ok(v) => v,
            Err(e) => {
                return Err(e);
            },
        };
        if rm == 0 {
            return Ok(BasicToken::Integer(i0));
        }
        let flip = (i0 > 0 && neg) || (i0 < 0 && !neg);
        let i1 = if i0 > 0 && neg {
            i0 - 1
        } else if i0 < 0 && !neg {
            i0 + 1
        } else {
            i0
        };
        let r1 = if flip {
            ad - rm
        } else {
            rm
        };
        let neg1 = if flip {
            !neg
        } else {
            neg
        };
        let g = gcd_u128(r1, ad);
        proof {
            lemma_gcd_divides(r1 as nat, ad as nat);
            vstd::arithmetic::div_mod::lemma_div_is_ordered_by_denominator(r1 as int, 1, g as int);
        }
        let nn = r1 / g;
        let dd = ad / g;
        if dd > i128::MAX as u128 {
            return Err(MathError::Overflow);
        }
        let num: i128 = if neg1 {
            -(nn as i128)
        } else {
            nn as i128
        };
        Ok(BasicToken::Fraction(Fraction { int: i1, num, den: dd as i128 }))
    }

    pub fn negate(self) -> (r: Result<Fraction, MathError>)
        ensures
            r == fraction_neg(self),
    {
        let num = checked_neg(self.num)?;
        let whole = checked_neg(self.int)?;
        Ok(Fraction { int: whole, num, den: self.den })
    }

    /// `self + rhs`, normalised.
    pub fn add(self, rhs: Fraction) -> (r: Result<BasicToken, MathError>)
        ensures
            r == fraction_add(self, rhs),
    {
        let w = checked_add(self.int, rhs.int)?;
        let p = checked_mul(self.num, rhs.den)?;
        let q = checked_mul(self.den, rhs.num)?;
        let n = checked_add(p, q)?;
        let d = checked_mul(self.den, rhs.den)?;
        Fraction::new(w, n, d).normalise()
    }

    /// `self - rhs`, normalised.
    pub fn sub(self, rhs: Fraction) -> (r: Result<BasicToken, MathError>)
        ensures
            r == fraction_sub(self, rhs),
    {
        let w = checked_sub(self.int, rhs.int)?;
        let p = checked_mul(self.num, rhs.den)?;
        let q = checked_mul(self.den, rhs.num)?;
        let n = checked_sub(p, q)?;
        let d = checked_mul(self.den, rhs.den)?;
        Fraction::new(w, n, d).normalise()
    }

    /// `self * rhs`, normalised.
    pub fn mul(self, rhs: Fraction) -> (r: Result<BasicToken, MathError>)
        ensures
            r == fraction_mul(self, rhs),
    {
        let nn = checked_mul(self.num, rhs.num)?;
        let x = checked_mul(rhs.int, rhs.den)?;
        let a = checked_mul(self.num, x)?;
        let y = checked_mul(self.int, self.den)?;
        let b = checked_mul(rhs.num, y)?;
        let ab = checked_add(a, b)?;
        let n = checked_add(nn, ab)?;
        let w = checked_mul(self.int, rhs.int)?;
        let d = checked_mul(self.den, rhs.den)?;
        Fraction::new(w, n, d).normalise()
    }

    /// `self / rhs`, normalised; `DivisionByZero` when `rhs` is zero.
    pub fn div(self, rhs: Fraction) -> (r: Result<BasicToken, MathError>)
        ensures
            r == fraction_div(self, rhs),
    {
        let a = checked_mul(self.int, self.den)?;
        let a = checked_add(self.num, a)?;
        let n = checked_mul(rhs.den, a)?;
        let b = checked_mul(rhs.int, rhs.den)?;
        let b = checked_add(rhs.num, b)?;
        let d = checked_mul(self.den, b)?;
        Fraction::new(0, n, d).normalise()
    }
}


/// `num/den` with small parts.
#[derive(Debug, PartialEq, Eq, Structural, Copy, Clone)]
pub struct SimpleFraction {
    pub num: i32,
    pub den: i32,
}

impl SimpleFraction {
    pub fn new(num: i32, den: i32) -> (r: SimpleFraction)
        ensures
            r == (SimpleFraction { num, den }),
    {
        SimpleFraction { num, den }
    }
}

/// `mul * √base`.
#[derive(Debug, PartialEq, Eq, Structural, Copy, Clone)]
pub struct SRoot<T> {
    pub mul: T,
    pub base: i128,
}

impl<T> SRoot<T> {
    pub fn new(mul: T, base: i128) -> (r: SRoot<T>)
        ensures
            r == (SRoot { mul, base }),
    {
        SRoot { mul, base }
    }
}

/// `mul * ∛base`.
#[derive(Debug, PartialEq, Eq, Structural, Copy, Clone)]
pub struct CRoot<T> {
    pub mul: T,
    pub base: i128,
}

impl<T> CRoot<T> {
    pub fn new(mul: T, base: i128) -> (r: CRoot<T>)
        ensures
            r == (CRoot { mul, base }),
    {
        CRoot { mul, base }
    }
}

/// An exact value: an integer, a mixed fraction, or a rational multiple of a
/// square or cube root.
#[derive(Debug, PartialEq, Eq, Structural, Copy, Clone)]
pub enum BasicToken {
    Integer(i128),
    Fraction(Fraction),
    SIntRoot(SRoot<i128>),
    SFracRoot(SRoot<Fraction>),
    CIntRoot(CRoot<i128>),
    CFracRoot(CRoot<Fraction>),
}


impl BasicToken {
    pub fn fraction(whole: i128, num: i128, den: i128) -> (r: BasicToken)
        ensures
            r == BasicToken::Fraction(Fraction { int: whole, num, den }),
    {
        BasicToken::Fraction(Fraction { int: whole, num, den })
    }

    pub fn s_int_root(mul: i128, base: i128) -> (r: BasicToken)
        ensures
            r == BasicToken::SIntRoot(SRoot { mul, base }),
    {
        BasicToken::SIntRoot(SRoot { mul, base })
    }

    pub fn c_int_root(mul: i128, base: i128) -> (r: BasicToken)
        ensures
            r == BasicToken::CIntRoot(CRoot { mul, base }),
    {
        BasicToken::CIntRoot(CRoot { mul, base })
    }

    pub fn s_frac_root(whole: i128, num: i128, den: i128, base: i128) -> (r: BasicToken)
        ensures
            r == BasicToken::SFracRoot(SRoot { mul: Fraction { int: whole, num, den }, base }),
    {
        BasicToken::SFracRoot(SRoot { mul: Fraction { int: whole, num, den }, base })
    }

    pub fn c_frac_root(whole: i128, num: i128, den: i128, base: i128) -> (r: BasicToken)
        ensures
            r == BasicToken::CFracRoot(CRoot { mul: Fraction { int: whole, num, den }, base }),
    {
        BasicToken::CFracRoot(CRoot { mul: Fraction { int: whole, num, den }, base })
    }

    pub fn s_fraction_root(mul: Fraction, base: i128) -> (r: BasicToken)
        ensures
            r == BasicToken::SFracRoot(SRoot { mul, base }),
    {
        BasicToken::SFracRoot(SRoot { mul, base })
    }

    pub fn c_fraction_root(mul: Fraction, base: i128) -> (r: BasicToken)
        ensures
            r == BasicToken::CFracRoot(CRoot { mul, base }),
    {
        BasicToken::CFracRoot(CRoot { mul, base })
    }

    /// `-self`; `Overflow` when a part is `i128::MIN`.
    pub fn negate(self) -> (r: Result<BasicToken, MathError>)
        ensures
            r == negated(self),
    {
        match self {
            BasicToken::Integer(i) => Ok(BasicToken::Integer(checked_neg(i)?)),
            BasicToken::Fraction(f) => Ok(BasicToken::Fraction(f.negate()?)),
            BasicToken::SIntRoot(x) => Ok(BasicToken::s_int_root(checked_neg(x.mul)?, x.base)),
            BasicToken::SFracRoot(x) => Ok(BasicToken::SFracRoot(SRoot::new(x.mul.negate()?, x.base))),
            BasicToken::CIntRoot(x) => Ok(BasicToken::c_int_root(checked_neg(x.mul)?, x.base)),
            BasicToken::CFracRoot(x) => Ok(BasicToken::CFracRoot(CRoot::new(x.mul.negate()?, x.base))),
        }
    }

    /// `tok * √base` for a rational `tok`.
    pub fn new_s_root(tok: BasicToken, base: i128) -> (r: Result<BasicToken, MathError>)
        requires
            tok is Integer || tok is Fraction,
        ensures
            r == s_root_of(tok, base),
            r is Ok,
    {
        if tok == BasicToken::Integer(0) || base == 0 {
            return Ok(BasicToken::Integer(0));
        }
        if base == 1 {
            return Ok(tok);
        }
        match tok {
            BasicToken::Fraction(v) => Ok(BasicToken::s_fraction_root(v, base)),
            BasicToken::Integer(v) => Ok(BasicToken::s_int_root(v, base)),
            _ => Err(MathError::Overflow),
        }
    }

    /// `tok * ∛base` for a rational `tok`.
    pub fn new_c_root(tok: BasicToken, base: i128) -> (r: Result<BasicToken, MathError>)
        requires
            tok is Integer || tok is Fraction,
        ensures
            r == c_root_of(tok, base),
    {
        if tok == BasicToken::Integer(0) || base == 0 {
            return Ok(BasicToken::Integer(0));
        }
        if base == 1 {
            return Ok(tok);
        }
        match tok {
            BasicToken::Fraction(v) => if base == -1 {
                Ok(BasicToken::Fraction(v.negate()?))
            } else {
                Ok(BasicToken::c_fraction_root(v, base))
            },
            BasicToken::Integer(v) => if base == -1 {
                Ok(BasicToken::Integer(checked_neg(v)?))
            } else {
                Ok(BasicToken::c_int_root(v, base))
            },
            _ => Err(MathError::Overflow),
        }
    }
}

pub open spec fn negated(t: BasicToken) -> Result<BasicToken, MathError> {
    match t {
        BasicToken::Integer(i) => match checked(-i) {
            Ok(v) => Ok(BasicToken::Integer(v)),
            Err(e) => Err(e),
        },
        BasicToken::Fraction(f) => match fraction_neg(f) {
            Ok(v) => Ok(BasicToken::Fraction(v)),
            Err(e) => Err(e),
        },
        BasicToken::SIntRoot(x) => match checked(-x.mul) {
            Ok(v) => Ok(BasicToken::SIntRoot(SRoot { mul: v, base: x.base })),
            Err(e) => Err(e),
        },
        BasicToken::SFracRoot(x) => match fraction_neg(x.mul) {
            Ok(v) => Ok(BasicToken::SFracRoot(SRoot { mul: v, base: x.base })),
            Err(e) => Err(e),
        },
        BasicToken::CIntRoot(x) => match checked(-x.mul) {
            Ok(v) => Ok(BasicToken::CIntRoot(CRoot { mul: v, base: x.base })),
            Err(e) => Err(e),
        },
        BasicToken::CFracRoot(x) => match fraction_neg(x.mul) {
            Ok(v) => Ok(BasicToken::CFracRoot(CRoot { mul: v, base: x.base })),
            Err(e) => Err(e),
        },
    }
}

impl SRoot<Fraction> {
    /// `mul * √base` in its simplest form.
    pub fn normalise(self) -> (r: Result<BasicToken, MathError>)
        ensures
            r == (if self.base == 0 {
                Ok(BasicToken::Integer(0))
            } else {
                match normal_form(self.mul.int as int, self.mul.num as int, self.mul.den as int) {
                    Ok(c) => s_root_of(c, self.base),
                    Err(e) => Err(e),
                }
            }),
    {
        if self.base == 0 {
            return Ok(BasicToken::Integer(0));
        }
        let c = self.mul.normalise()?;
        BasicToken::new_s_root(c, self.base)
    }
}

impl SRoot<i128> {
    /// `mul * √base` in its simplest form.
    pub fn normalise(self) -> (r: BasicToken)
        ensures
            s_root_of(BasicToken::Integer(self.mul), self.base) == Ok::<BasicToken, MathError>(r),
    {
        if self.mul == 0 || self.base == 0 {
            BasicToken::Integer(0)
        } else if self.base == 1 {
            BasicToken::Integer(self.mul)
        } else {
            BasicToken::SIntRoot(self)
        }
    }
}

impl CRoot<Fraction> {
    /// `mul * ∛base` in its simplest form.
    pub fn normalise(self) -> (r: Result<BasicToken, MathError>)
        ensures
            r == (if self.base == 0 {
                Ok(BasicToken::Integer(0))
            } else {
                match normal_form(self.mul.int as int, self.mul.num as int, self.mul.den as int) {
                    Ok(c) => c_root_of(c, self.base),
                    Err(e) => Err(e),
                }
            }),
    {
        if self.base == 0 {
            return Ok(BasicToken::Integer(0));
        }
        let c = self.mul.normalise()?;
        BasicToken::new_c_root(c, self.base)
    }
}

impl CRoot<i128> {
    /// `mul * ∛base` in its simplest form.
    pub fn normalise(self) -> (r: Result<BasicToken, MathError>)
        ensures
            r == c_root_of(BasicToken::Integer(self.mul), self.base),
    {
        BasicToken::new_c_root(BasicToken::Integer(self.mul), self.base)
    }
}

/// Which kind of term a value is: a rational, a multiple of a square root, or
/// a multiple of a cube root.
#[derive(Debug, PartialEq, Eq, Structural, Copy, Clone)]
pub enum Family {
    Rational,
    Square,
    Cube,
}

pub open spec fn family(t: BasicToken) -> Family {
    match t {
        BasicToken::Integer(_) | BasicToken::Fraction(_) => Family::Rational,
        BasicToken::SIntRoot(_) | BasicToken::SFracRoot(_) => Family::Square,
        BasicToken::CIntRoot(_) | BasicToken::CFracRoot(_) => Family::Cube,
    }
}

/// The number under the root; `1` for a rational.
pub open spec fn base_of(t: BasicToken) -> i128 {
    match t {
        BasicToken::Integer(_) | BasicToken::Fraction(_) => 1,
        BasicToken::SIntRoot(x) => x.base,
        BasicToken::SFracRoot(x) => x.base,
        BasicToken::CIntRoot(x) => x.base,
        BasicToken::CFracRoot(x) => x.base,
    }
}

/// The rational coefficient, as a fraction.
pub open spec fn coeff(t: BasicToken) -> Fraction {
    match t {
        BasicToken::Integer(i) => Fraction { int: i, num: 0, den: 1 },
        BasicToken::Fraction(f) => f,
        BasicToken::SIntRoot(x) => Fraction { int: x.mul, num: 0, den: 1 },
        BasicToken::SFracRoot(x) => x.mul,
        BasicToken::CIntRoot(x) => Fraction { int: x.mul, num: 0, den: 1 },
        BasicToken::CFracRoot(x) => x.mul,
    }
}

/// The term of family `f` with base `base` and rational coefficient `c`.
pub open spec fn rebuilt(f: Family, base: i128, c: BasicToken) -> Result<BasicToken, MathError> {
    match f {
        Family::Rational => Ok(c),
        Family::Square => s_root_of(c, base),
        Family::Cube => c_root_of(c, base),
    }
}

/// Family, base and coefficient of a value.
pub fn parts(t: BasicToken) -> (r: (Family, i128, Fraction))
    ensures
        r == (family(t), base_of(t), coeff(t)),
{
    match t {
        BasicToken::Integer(i) => (Family::Rational, 1, Fraction::new(i, 0, 1)),
        BasicToken::Fraction(f) => (Family::Rational, 1, f),
        BasicToken::SIntRoot(x) => (Family::Square, x.base, Fraction::new(x.mul, 0, 1)),
        BasicToken::SFracRoot(x) => (Family::Square, x.base, x.mul),
        BasicToken::CIntRoot(x) => (Family::Cube, x.base, Fraction::new(x.mul, 0, 1)),
        BasicToken::CFracRoot(x) => (Family::Cube, x.base, x.mul),
    }
}

/// The term of family `f` with base `base` and rational coefficient `c`.
pub fn rebuild(f: Family, base: i128, c: BasicToken) -> (r: Result<BasicToken, MathError>)
    requires
        c is Integer || c is Fraction,
    ensures
        r == rebuilt(f, base, c),
{
    match f {
        Family::Rational => Ok(c),
        Family::Square => BasicToken::new_s_root(c, base),
        Family::Cube => BasicToken::new_c_root(c, base),
    }
}


/// Two terms are like terms when they have the same family and base: only
/// like terms can be added into one.
pub open spec fn like(a: BasicToken, b: BasicToken) -> bool {
    family(a) == family(b) && base_of(a) == base_of(b)
}

/// Adds `t` into the sum of terms `s`, trying slots from `i` on: the first
/// like slot takes it (and leaves when the sum is zero); an unlike `t` is
/// appended.
pub open spec fn set_add_from(s: Seq<BasicToken>, i: int, t: BasicToken) -> Result<
    Seq<BasicToken>,
    MathError,
>
    decreases s.len() - i,
{
    if i < 0 || i >= s.len() {
        Ok(s.push(t))
    } else {
        match basic_add(s[i], t) {
            Err(MathError::Combine) => set_add_from(s, i + 1, t),
            Ok(BasicToken::Integer(0)) => Ok(s.remove(i)),
            Ok(v) => Ok(s.update(i, v)),
            Err(e) => Err(e),
        }
    }
}

/// Adds every term of `ts`, in order, into `s`.
pub open spec fn set_add_all(s: Seq<BasicToken>, ts: Seq<BasicToken>) -> Result<
    Seq<BasicToken>,
    MathError,
>
    decreases ts.len(),
{
    if ts.len() == 0 {
        Ok(s)
    } else {
        match set_add_all(s, ts.drop_last()) {
            Ok(s2) => set_add_from(s2, 0, ts.last()),
            Err(e) => Err(e),
        }
    }
}

/// Multiplies every term of `s` by `t`.
pub open spec fn set_mul_all(s: Seq<BasicToken>, t: BasicToken) -> Result<
    Seq<BasicToken>,
    MathError,
>
    decreases s.len(),
{
    if s.len() == 0 {
        Ok(s)
    } else {
        match (set_mul_all(s.drop_last(), t), basic_mul(s.last(), t)) {
            (Ok(a), Ok(v)) => Ok(a.push(v)),
            (Err(e), _) => Err(e),
            (_, Err(e)) => Err(e),
        }
    }
}

/// Divides every term of `s` by `t`.
pub open spec fn set_div_all(s: Seq<BasicToken>, t: BasicToken) -> Result<
    Seq<BasicToken>,
    MathError,
>
    decreases s.len(),
{
    if s.len() == 0 {
        Ok(s)
    } else {
        match (set_div_all(s.drop_last(), t), basic_div(s.last(), t)) {
            (Ok(a), Ok(v)) => Ok(a.push(v)),
            (Err(e), _) => Err(e),
            (_, Err(e)) => Err(e),
        }
    }
}

proof fn lemma_div_all_err(s: Seq<BasicToken>, t: BasicToken, k: int)
    requires
        0 <= k <= s.len(),
        set_div_all(s.subrange(0, k), t) is Err,
    ensures
        set_div_all(s, t) == set_div_all(s.subrange(0, k), t),
    decreases s.len() - k,
{
    if k < s.len() {
        assert(s.subrange(0, k + 1).drop_last() =~= s.subrange(0, k));
        lemma_div_all_err(s, t, k + 1);
    } else {
        assert(s.subrange(0, k) =~= s);
    }
}

/// Divides every term of `v` by `t`.
pub fn div_all(v: &Vec<BasicToken>, t: BasicToken) -> (r: Result<Vec<BasicToken>, MathError>)
    ensures
        match set_div_all(v@, t) {
            Ok(s) => r is Ok && r->Ok_0@ == s,
            Err(e) => r == Err::<Vec<BasicToken>, MathError>(e),
        },
{
    let mut out: Vec<BasicToken> = Vec::new();
    let mut j: usize = 0;
    assert(v@.subrange(0, 0) =~= out@);
    while j < v.len()
        invariant
            j <= v.len(),
            set_div_all(v@.subrange(0, j as int), t) == Ok::<Seq<BasicToken>, MathError>(out@),
        decreases v.len() - j,
    {
        assert(v@.subrange(0, j + 1).drop_last() =~= v@.subrange(0, j as int));
        let x = match try_div(v[j], t) {
            Ok(x) => x,
            Err(e) => {
                proof {
                    lemma_div_all_err(v@, t, j + 1);
                }
                return Err(e);
            },
        };
        out.push(x);
        j = j + 1;
    }
    assert(v@.subrange(0, v.len() as int) =~= v@);
    Ok(out)
}

/// Negates every term of `s`.
pub open spec fn set_negated(s: Seq<BasicToken>) -> Result<Seq<BasicToken>, MathError>
    decreases s.len(),
{
    if s.len() == 0 {
        Ok(s)
    } else {
        match (set_negated(s.drop_last()), negated(s.last())) {
            (Ok(a), Ok(v)) => Ok(a.push(v)),
            (Err(e), _) => Err(e),
            (_, Err(e)) => Err(e),
        }
    }
}

/// A sum of terms, one slot per group of like terms.
#[derive(Debug, PartialEq, Clone)]
pub struct TermSet<T> {
    pub vec: Vec<T>,
}

impl<T> TermSet<T> {
    pub fn new(vec: Vec<T>) -> (r: TermSet<T>)
        ensures
            r.vec@ == vec@,
    {
        TermSet { vec }
    }
}

impl TermSet<BasicToken> {
    /// Adds `tok` to the sum: into the first like slot, else as a new slot.
    /// `Overflow` (the sum needs floating point) and other errors leave the
    /// set as it was.
    pub fn add(&mut self, tok: BasicToken) -> (r: Result<(), MathError>)
        ensures
            match set_add_from(old(self).vec@, 0, tok) {
                Ok(s) => r is Ok && final(self).vec@ == s,
                Err(e) => r == Err::<(), MathError>(e) && final(self).vec@ == old(self).vec@,
            },
            terms_wf(old(self).vec@) && term_wf(tok) ==> terms_wf(final(self).vec@),
    {
        proof {
            if terms_wf(self.vec@) && term_wf(tok) {
                lemma_set_add_keeps_terms_wf(self.vec@, tok);
            }
        }
        let n = self.vec.len();
        let mut i: usize = 0;
        while i < n
            invariant
                n == self.vec.len(),
                self.vec@ == old(self).vec@,
                i <= n,
                set_add_from(self.vec@, i as int, tok) == set_add_from(self.vec@, 0, tok),
                terms_wf(old(self).vec@) && term_wf(tok) ==> (set_add_from(
                    old(self).vec@,
                    0,
                    tok,
                ) matches Ok(m) ==> terms_wf(m)),
            decreases n - i,
        {
            match try_add(self.vec[i], tok) {
                Err(MathError::Combine) => {},
                Ok(BasicToken::Integer(0)) => {
                    self.vec.remove(i);
                    return Ok(());
                },
                Ok(v) => {
                    self.vec.set(i, v);
                    return Ok(());
                },
                Err(e) => {
                    return Err(e);
                },
            }
            i = i + 1;
        }
        self.vec.push(tok);
        Ok(())
    }
}

/// A sum of unlike terms: plain ones and multiples of π.
#[derive(Debug, PartialEq, Clone)]
pub struct Combined {
    pub basic: TermSet<BasicToken>,
    pub pi: TermSet<BasicToken>,
}

/// An exact value: a term, a term times π, or a sum of unlike terms.
#[derive(Debug, PartialEq, Clone)]
pub enum Token {
    Basic(BasicToken),
    Pi(BasicToken),
    Combined(Combined),
}

/// What a value is, with the terms of a sum as sequences.
pub enum TokenView {
    Basic(BasicToken),
    Pi(BasicToken),
    Sum(Seq<BasicToken>, Seq<BasicToken>),
}

pub open spec fn view_of(t: Token) -> TokenView {
    match t {
        Token::Basic(x) => TokenView::Basic(x),
        Token::Pi(x) => TokenView::Pi(x),
        Token::Combined(c) => TokenView::Sum(c.basic.vec@, c.pi.vec@),
    }
}

/// The sum of the terms `basic` and π times the terms `pi`: zero, a single
/// term, or the sum itself.
pub open spec fn collapse(basic: Seq<BasicToken>, pi: Seq<BasicToken>) -> TokenView {
    if basic.len() == 0 && pi.len() == 0 {
        TokenView::Basic(BasicToken::Integer(0))
    } else if basic.len() == 0 && pi.len() == 1 {
        TokenView::Pi(pi[0])
    } else if basic.len() == 1 && pi.len() == 0 {
        TokenView::Basic(basic[0])
    } else {
        TokenView::Sum(basic, pi)
    }
}

/// `t` is the sum of the terms `basic` and π times the terms `pi`: zero, a
/// single term, or a `Combined` holding exactly those terms.
pub open spec fn is_sum(t: Token, basic: Seq<BasicToken>, pi: Seq<BasicToken>) -> bool {
    view_of(t) == collapse(basic, pi)
}

proof fn lemma_add_all_err(s: Seq<BasicToken>, ts: Seq<BasicToken>, k: int)
    requires
        0 <= k <= ts.len(),
        set_add_all(s, ts.subrange(0, k)) is Err,
    ensures
        set_add_all(s, ts) == set_add_all(s, ts.subrange(0, k)),
    decreases ts.len() - k,
{
    if k < ts.len() {
        assert(ts.subrange(0, k + 1).drop_last() =~= ts.subrange(0, k));
        lemma_add_all_err(s, ts, k + 1);
    } else {
        assert(ts.subrange(0, k) =~= ts);
    }
}

proof fn lemma_mul_all_err(s: Seq<BasicToken>, t: BasicToken, k: int)
    requires
        0 <= k <= s.len(),
        set_mul_all(s.subrange(0, k), t) is Err,
    ensures
        set_mul_all(s, t) == set_mul_all(s.subrange(0, k), t),
    decreases s.len() - k,
{
    if k < s.len() {
        assert(s.subrange(0, k + 1).drop_last() =~= s.subrange(0, k));
        lemma_mul_all_err(s, t, k + 1);
    } else {
        assert(s.subrange(0, k) =~= s);
    }
}

proof fn lemma_negated_err(s: Seq<BasicToken>, k: int)
    requires
        0 <= k <= s.len(),
        set_negated(s.subrange(0, k)) is Err,
    ensures
        set_negated(s) == set_negated(s.subrange(0, k)),
    decreases s.len() - k,
{
    if k < s.len() {
        assert(s.subrange(0, k + 1).drop_last() =~= s.subrange(0, k));
        lemma_negated_err(s, k + 1);
    } else {
        assert(s.subrange(0, k) =~= s);
    }
}

/// Adds every term of `ts`, in order, into `set`.
fn add_all(set: &mut TermSet<BasicToken>, ts: &Vec<BasicToken>) -> (r: Result<(), MathError>)
    ensures
        match set_add_all(old(set).vec@, ts@) {
            Ok(s) => r is Ok && final(set).vec@ == s,
            Err(e) => r == Err::<(), MathError>(e),
        },
{
    let mut j: usize = 0;
    while j < ts.len()
        invariant
            j <= ts.len(),
            set_add_all(old(set).vec@, ts@.subrange(0, j as int)) == Ok::<
                Seq<BasicToken>,
                MathError,
            >(set.vec@),
        decreases ts.len() - j,
    {
        assert(ts@.subrange(0, j + 1).drop_last() =~= ts@.subrange(0, j as int));
        let step = set.add(ts[j]);
        if step.is_err() {
            proof {
                lemma_add_all_err(old(set).vec@, ts@, j + 1);
            }
            return step;
        }
        j = j + 1;
    }
    assert(ts@.subrange(0, ts.len() as int) =~= ts@);
    Ok(())
}

/// Multiplies every term of `v` by `t`.
fn mul_all(v: &Vec<BasicToken>, t: BasicToken) -> (r: Result<Vec<BasicToken>, MathError>)
    ensures
        match set_mul_all(v@, t) {
            Ok(s) => r is Ok && r->Ok_0@ == s,
            Err(e) => r == Err::<Vec<BasicToken>, MathError>(e),
        },
{
    let mut out: Vec<BasicToken> = Vec::new();
    let mut j: usize = 0;
    assert(v@.subrange(0, 0) =~= out@);
    while j < v.len()
        invariant
            j <= v.len(),
            set_mul_all(v@.subrange(0, j as int), t) == Ok::<Seq<BasicToken>, MathError>(out@),
        decreases v.len() - j,
    {
        assert(v@.subrange(0, j + 1).drop_last() =~= v@.subrange(0, j as int));
        let x = match try_mul(v[j], t) {
            Ok(x) => x,
            Err(e) => {
                proof {
                    lemma_mul_all_err(v@, t, j + 1);
                }
                return Err(e);
            },
        };
        out.push(x);
        j = j + 1;
    }
    assert(v@.subrange(0, v.len() as int) =~= v@);
    Ok(out)
}

/// Negates every term of `v`.
pub fn negate_all(v: &Vec<BasicToken>) -> (r: Result<Vec<BasicToken>, MathError>)
    ensures
        match set_negated(v@) {
            Ok(s) => r is Ok && r->Ok_0@ == s,
            Err(e) => r == Err::<Vec<BasicToken>, MathError>(e),
        },
{
    let mut out: Vec<BasicToken> = Vec::new();
    let mut j: usize = 0;
    assert(v@.subrange(0, 0) =~= out@);
    while j < v.len()
        invariant
            j <= v.len(),
            set_negated(v@.subrange(0, j as int)) == Ok::<Seq<BasicToken>, MathError>(out@),
        decreases v.len() - j,
    {
        assert(v@.subrange(0, j + 1).drop_last() =~= v@.subrange(0, j as int));
        let x = match v[j].negate() {
            Ok(x) => x,
            Err(e) => {
                proof {
                    lemma_negated_err(v@, j + 1);
                }
                return Err(e);
            },
        };
        out.push(x);
        j = j + 1;
    }
    assert(v@.subrange(0, v.len() as int) =~= v@);
    Ok(out)
}

/// `r` is what adding `tok` to the sum `c` gives: `tok`'s terms go one by
/// one into the like slots of `c` (or new slots), and the result collapses
/// to zero or a single term where it can.
pub open spec fn added_to(c: Combined, tok: Token, r: Result<Token, MathError>) -> bool {
    match tok {
        Token::Basic(BasicToken::Integer(0)) | Token::Pi(BasicToken::Integer(0)) => r == Ok::<
            Token,
            MathError,
        >(Token::Combined(c)),
        Token::Basic(t) => match set_add_from(c.basic.vec@, 0, t) {
            Ok(b) => r is Ok && is_sum(r->Ok_0, b, c.pi.vec@),
            Err(e) => r == Err::<Token, MathError>(e),
        },
        Token::Pi(t) => match set_add_from(c.pi.vec@, 0, t) {
            Ok(p) => r is Ok && is_sum(r->Ok_0, c.basic.vec@, p),
            Err(e) => r == Err::<Token, MathError>(e),
        },
        Token::Combined(d) => match (
            set_add_all(c.basic.vec@, d.basic.vec@),
            set_add_all(c.pi.vec@, d.pi.vec@),
        ) {
            (Ok(b), Ok(p)) => r is Ok && is_sum(r->Ok_0, b, p),
            (Err(e), _) => r == Err::<Token, MathError>(e),
            (_, Err(e)) => r == Err::<Token, MathError>(e),
        },
    }
}

/// `r` is what multiplying the sum `c` by `tok` gives: a term distributes
/// over every slot, a multiple of π turns a sum without π terms into one of
/// π terms; anything else needs floating point.
pub open spec fn multiplied(c: Combined, tok: Token, r: Result<Token, MathError>) -> bool {
    match tok {
        Token::Basic(BasicToken::Integer(0)) | Token::Pi(BasicToken::Integer(0)) => r == Ok::<
            Token,
            MathError,
        >(Token::Basic(BasicToken::Integer(0))),
        Token::Basic(t) => match (set_mul_all(c.basic.vec@, t), set_mul_all(c.pi.vec@, t)) {
            (Ok(b), Ok(p)) => r is Ok && is_sum(r->Ok_0, b, p),
            (Err(e), _) => r == Err::<Token, MathError>(e),
            (_, Err(e)) => r == Err::<Token, MathError>(e),
        },
        Token::Pi(t) => if c.pi.vec@.len() == 0 {
            match set_mul_all(c.basic.vec@, t) {
                Ok(p) => r is Ok && is_sum(r->Ok_0, Seq::empty(), p),
                Err(e) => r == Err::<Token, MathError>(e),
            }
        } else {
            r == Err::<Token, MathError>(MathError::Overflow)
        },
        Token::Combined(_) => r == Err::<Token, MathError>(MathError::Overflow),
    }
}

impl Combined {
    /// Zero, one term, or the sum itself.
    pub fn normalise(self) -> (r: Token)
        ensures
            is_sum(r, self.basic.vec@, self.pi.vec@),
    {
        let nb = self.basic.vec.len();
        let np = self.pi.vec.len();
        if nb == 0 && np == 0 {
            Token::Basic(BasicToken::Integer(0))
        } else if nb == 0 && np == 1 {
            Token::Pi(self.pi.vec[0])
        } else if nb == 1 && np == 0 {
            Token::Basic(self.basic.vec[0])
        } else {
            Token::Combined(self)
        }
    }

    /// `self + tok`, collecting like terms.
    pub fn add_combined(self, tok: Token) -> (r: Result<Token, MathError>)
        ensures
            added_to(self, tok, r),
            terms_wf(self.basic.vec@) && terms_wf(self.pi.vec@) && token_wf(tok) ==> (r matches Ok(
                t,
            ) ==> token_wf(t)),
    {
        let ghost (g, gt) = (self, tok);
        let r = self.add_sum(tok);
        proof {
            if terms_wf(g.basic.vec@) && terms_wf(g.pi.vec@) && token_wf(gt) {
                lemma_added_to_wf(g, gt, r);
            }
        }
        r
    }

    fn add_sum(self, tok: Token) -> (r: Result<Token, MathError>)
        ensures
            added_to(self, tok, r),
    {
        let mut this = self;
        match tok {
            Token::Basic(BasicToken::Integer(0)) | Token::Pi(BasicToken::Integer(0)) => {
                return Ok(Token::Combined(this));
            },
            Token::Basic(t) => {
                this.basic.add(t)?;
            },
            Token::Pi(t) => {
                this.pi.add(t)?;
            },
            Token::Combined(c) => {
                add_all(&mut this.basic, &c.basic.vec)?;
                add_all(&mut this.pi, &c.pi.vec)?;
            },
        }
        Ok(this.normalise())
    }

    /// `self * tok`: a term or a multiple of π distributes over the sum; the
    /// product of two sums (or π² terms) needs floating point: `Overflow`.
    pub fn mul_combined(self, tok: Token) -> (r: Result<Token, MathError>)
        ensures
            multiplied(self, tok, r),
    {
        match tok {
            Token::Basic(BasicToken::Integer(0)) | Token::Pi(BasicToken::Integer(0)) => {
                Ok(Token::Basic(BasicToken::Integer(0)))
            },
            Token::Basic(t) => {
                let b = mul_all(&self.basic.vec, t)?;
                let p = mul_all(&self.pi.vec, t)?;
                Ok(Combined { basic: TermSet::new(b), pi: TermSet::new(p) }.normalise())
            },
            Token::Pi(t) => {
                if self.pi.vec.len() == 0 {
                    let p = mul_all(&self.basic.vec, t)?;
                    Ok(Combined { basic: TermSet::new(Vec::new()), pi: TermSet::new(p) }.normalise())
                } else {
                    Err(MathError::Overflow)
                }
            },
            Token::Combined(_) => Err(MathError::Overflow),
        }
    }

    /// `-self`, term by term.
    pub fn negate(self) -> (r: Result<Combined, MathError>)
        ensures
            match (set_negated(self.basic.vec@), set_negated(self.pi.vec@)) {
                (Ok(b), Ok(p)) => r is Ok && r->Ok_0.basic.vec@ == b && r->Ok_0.pi.vec@ == p,
                (Err(e), _) => r == Err::<Combined, MathError>(e),
                (_, Err(e)) => r == Err::<Combined, MathError>(e),
            },
    {
        let b = negate_all(&self.basic.vec)?;
        let p = negate_all(&self.pi.vec)?;
        Ok(Combined { basic: TermSet::new(b), pi: TermSet::new(p) })
    }
}

impl Token {
    pub fn combined(basic: Vec<BasicToken>, pi: Vec<BasicToken>) -> (r: Token)
        ensures
            r matches Token::Combined(c) && c.basic.vec@ == basic@ && c.pi.vec@ == pi@,
    {
        Token::Combined(Combined { basic: TermSet::new(basic), pi: TermSet::new(pi) })
    }

    /// `-self`.
    pub fn negate(self) -> (r: Result<Token, MathError>)
        ensures
            crate::number::rv(r) == crate::number::view_neg(view_of(self)),
            match self {
                Token::Basic(x) => r == (match negated(x) {
                    Ok(v) => Ok(Token::Basic(v)),
                    Err(e) => Err(e),
                }),
                Token::Pi(x) => r == (match negated(x) {
                    Ok(v) => Ok(Token::Pi(v)),
                    Err(e) => Err(e),
                }),
                Token::Combined(c) => match (set_negated(c.basic.vec@), set_negated(c.pi.vec@)) {
                    (Ok(b), Ok(p)) => r matches Ok(Token::Combined(n)) && n.basic.vec@ == b
                        && n.pi.vec@ == p,
                    (Err(e), _) => r == Err::<Token, MathError>(e),
                    (_, Err(e)) => r == Err::<Token, MathError>(e),
                },
            },
    {
        match self {
            Token::Basic(x) => Ok(Token::Basic(x.negate()?)),
            Token::Pi(x) => Ok(Token::Pi(x.negate()?)),
            Token::Combined(c) => Ok(Token::Combined(c.negate()?)),
        }
    }
}

} // verus!

verus! {

/// Whatever `int + num/den` with `den != 0` is brought to, a fraction that
/// comes out is in normal form: `den > 1`, `0 < |num| < den`, the signs of
/// `int` and `num` agree, and `gcd(|num|, den) == 1`.  Only a zero `den`
/// gives `DivisionByZero`.
pub proof fn lemma_normal_form_invariant(whole: int, num: int, den: int)
    ensures
        (normal_form(whole, num, den) == Err::<BasicToken, MathError>(MathError::DivisionByZero))
            <==> den == 0,
        normal_form(whole, num, den) matches Ok(t) ==> (t is Integer || t is Fraction),
        normal_form(whole, num, den) matches Ok(BasicToken::Fraction(f)) ==> normalised(f),
{
    if den != 0 {
        let neg = (num < 0) != (den < 0);
        let an = abs(num);
        let ad = abs(den);
        let q = an / ad;
        let rm = an % ad;
        let i0 = if neg {
            whole - q
        } else {
            whole + q
        };
        if fits(i0) && rm != 0 {
            let flip = (i0 > 0 && neg) || (i0 < 0 && !neg);
            let r1 = if flip {
                ad - rm
            } else {
                rm
            };
            assert(0 < r1 < ad);
            crate::my_math::lemma_gcd_reduced(r1 as nat, ad as nat);
            lemma_gcd_divides(r1 as nat, ad as nat);
            let g = gcd(r1 as nat, ad as nat) as int;
            let nn = r1 / g;
            let dd = ad / g;
            vstd::arithmetic::div_mod::lemma_fundamental_div_mod(r1, g);
            vstd::arithmetic::div_mod::lemma_fundamental_div_mod(ad, g);
            assert(0 < nn < dd) by (nonlinear_arith)
                requires
                    r1 == g * nn,
                    ad == g * dd,
                    0 < r1 < ad,
                    g > 0,
            ;
        }
    }
}

} // verus!

verus! {

/// The normal form keeps the value: `int + num/den` equals the `Integer`
/// or the fraction that comes out (compared with denominators cleared).
pub proof fn lemma_normal_form_value(whole: int, num: int, den: int)
    ensures
        match normal_form(whole, num, den) {
            Ok(BasicToken::Integer(k)) => k * den == scaled(whole, num, den),
            Ok(BasicToken::Fraction(f)) => scaled(f.int as int, f.num as int, f.den as int) * den
                == scaled(whole, num, den) * f.den,
            _ => true,
        },
{
    if den != 0 {
        let neg = (num < 0) != (den < 0);
        let an = abs(num);
        let ad = abs(den);
        let q = an / ad;
        let rm = an % ad;
        let i0 = if neg {
            whole - q
        } else {
            whole + q
        };
        let e: int = if neg {
            -1
        } else {
            1
        };
        let d: int = if den < 0 {
            -1
        } else {
            1
        };
        vstd::arithmetic::div_mod::lemma_fundamental_div_mod(an, ad);
        assert(num == d * e * an) by (nonlinear_arith)
            requires
                an == abs(num),
                d == (if den < 0 {
                    -1int
                } else {
                    1int
                }),
                e == (if (num < 0) != (den < 0) {
                    -1int
                } else {
                    1int
                }),
        ;
        assert(den == d * ad) by (nonlinear_arith)
            requires
                ad == abs(den),
                d == (if den < 0 {
                    -1int
                } else {
                    1int
                }),
        ;
        let n_s = scaled(whole, num, den);
        assert(n_s == d * (i0 * ad + e * rm)) by (nonlinear_arith)
            requires
                n_s == whole * den + num,
                num == d * e * an,
                den == d * ad,
                an == ad * q + rm,
                i0 == whole + e * q,
                d * d == 1,
                e * e == 1,
        ;
        if fits(i0) {
            if rm == 0 {
                assert(i0 * den == n_s) by (nonlinear_arith)
                    requires
                        n_s == d * (i0 * ad + e * rm),
                        rm == 0,
                        den == d * ad,
                ;
            } else {
                let flip = (i0 > 0 && neg) || (i0 < 0 && !neg);
                let i1 = if i0 > 0 && neg {
                    i0 - 1
                } else if i0 < 0 && !neg {
                    i0 + 1
                } else {
                    i0
                };
                let r1 = if flip {
                    ad - rm
                } else {
                    rm
                };
                let s: int = if (flip && e == 1) || (!flip && e == -1) {
                    -1
                } else {
                    1
                };
                assert(i0 * ad + e * rm == i1 * ad + s * r1) by (nonlinear_arith)
                    requires
                        flip ==> (i1 == i0 + e && r1 == ad - rm && s == -e),
                        !flip ==> (i1 == i0 && r1 == rm && s == e),
                ;
                assert(0 < r1 < ad);
                lemma_gcd_divides(r1 as nat, ad as nat);
                let g = gcd(r1 as nat, ad as nat) as int;
                let nn = r1 / g;
                let dd = ad / g;
                vstd::arithmetic::div_mod::lemma_fundamental_div_mod(r1, g);
                vstd::arithmetic::div_mod::lemma_fundamental_div_mod(ad, g);
                if dd <= i128::MAX {
                    let sn = if s == -1 {
                        -nn
                    } else {
                        nn
                    };
                    let x = i1 * dd + s * nn;
                    assert(sn == s * nn) by (nonlinear_arith)
                        requires
                            sn == (if s == -1 {
                                -nn
                            } else {
                                nn
                            }),
                            s == 1 || s == -1,
                    ;
                    assert(i1 * ad + s * r1 == g * x) by (nonlinear_arith)
                        requires
                            ad == g * dd,
                            r1 == g * nn,
                            x == i1 * dd + s * nn,
                    ;
                    assert(scaled(i1, sn, dd) * den == x * (d * (g * dd))) by (nonlinear_arith)
                        requires
                            scaled(i1, sn, dd) == x,
                            den == d * ad,
                            ad == g * dd,
                    ;
                    assert(n_s * dd == (d * (g * x)) * dd) by (nonlinear_arith)
                        requires
                            n_s == d * (g * x),
                    ;
                    assert(x * (d * (g * dd)) == (d * (g * x)) * dd) by (nonlinear_arith);
                    crate::my_math::lemma_gcd_reduced(r1 as nat, ad as nat);
                    assert(0 < nn < dd) by (nonlinear_arith)
                        requires
                            r1 == g * nn,
                            ad == g * dd,
                            0 < r1 < ad,
                            g > 0,
                    ;
                }
            }
        }
    }
}

} // verus!

verus! {

/// A term in simplest form: a normalised coefficient, nonzero for a root,
/// and a base that a root cannot drop (above 1 for a square root, not 0 or
/// ±1 for a cube root).
pub open spec fn term_wf(t: BasicToken) -> bool {
    match t {
        BasicToken::Integer(_) => true,
        BasicToken::Fraction(f) => normalised(f),
        BasicToken::SIntRoot(x) => x.mul != 0 && x.base > 1,
        BasicToken::SFracRoot(x) => normalised(x.mul) && x.base > 1,
        BasicToken::CIntRoot(x) => x.mul != 0 && x.base != 0 && x.base != 1 && x.base != -1,
        BasicToken::CFracRoot(x) => normalised(x.mul) && x.base != 0 && x.base != 1 && x.base
            != -1,
    }
}

/// The terms of a sum: each in simplest form, no two of them like terms.
pub open spec fn terms_wf(s: Seq<BasicToken>) -> bool {
    &&& forall|i: int| 0 <= i < s.len() ==> term_wf(#[trigger] s[i])
    &&& forall|i: int, j: int|
        0 <= i < s.len() && 0 <= j < s.len() && i != j ==> !like(#[trigger] s[i], #[trigger] s[j])
}

/// Adding like terms in simplest form gives a like term in simplest form,
/// or zero.
pub proof fn lemma_like_sum_wf(a: BasicToken, b: BasicToken)
    requires
        term_wf(a),
        term_wf(b),
    ensures
        basic_add(a, b) matches Ok(v) ==> v == BasicToken::Integer(0) || (term_wf(v) && like(v, a)),
        (basic_add(a, b) == Err::<BasicToken, MathError>(MathError::Combine)) <==> !like(a, b),
{
    let x = coeff(a);
    let y = coeff(b);
    let w = x.int + y.int;
    let p = x.num * y.den;
    let q = x.den * y.num;
    let d = x.den * y.den;
    lemma_normal_form_invariant(w, p + q, d);
}

proof fn lemma_set_add_wf(s: Seq<BasicToken>, i: int, t: BasicToken)
    requires
        terms_wf(s),
        term_wf(t),
        0 <= i <= s.len(),
        forall|k: int| 0 <= k < i ==> !like(#[trigger] s[k], t),
    ensures
        set_add_from(s, i, t) matches Ok(n) ==> terms_wf(n),
    decreases s.len() - i,
{
    if i < s.len() {
        lemma_like_sum_wf(s[i], t);
        match basic_add(s[i], t) {
            Err(MathError::Combine) => {
                lemma_set_add_wf(s, i + 1, t);
            },
            Ok(BasicToken::Integer(0)) => {
                let n = s.remove(i);
                assert forall|a: int, b: int|
                    0 <= a < n.len() && 0 <= b < n.len() && a != b implies !like(
                    #[trigger] n[a],
                    #[trigger] n[b],
                ) by {
                    let a0 = if a < i {
                        a
                    } else {
                        a + 1
                    };
                    let b0 = if b < i {
                        b
                    } else {
                        b + 1
                    };
                    assert(n[a] == s[a0] && n[b] == s[b0]);
                }
                assert forall|a: int| 0 <= a < n.len() implies term_wf(#[trigger] n[a]) by {
                    let a0 = if a < i {
                        a
                    } else {
                        a + 1
                    };
                    assert(n[a] == s[a0]);
                }
            },
            Ok(v) => {
                let n = s.update(i, v);
                assert forall|a: int, b: int|
                    0 <= a < n.len() && 0 <= b < n.len() && a != b implies !like(
                    #[trigger] n[a],
                    #[trigger] n[b],
                ) by {
                    if a != i && b != i {
                        assert(n[a] == s[a] && n[b] == s[b]);
                    } else if a == i {
                        assert(!like(s[i], s[b]));
                    } else {
                        assert(!like(s[a], s[i]));
                    }
                }
                assert forall|a: int| 0 <= a < n.len() implies term_wf(#[trigger] n[a]) by {
                    if a != i {
                        assert(n[a] == s[a]);
                    }
                }
            },
            Err(_) => {},
        }
    } else {
        let n = s.push(t);
        assert forall|a: int, b: int|
            0 <= a < n.len() && 0 <= b < n.len() && a != b implies !like(
            #[trigger] n[a],
            #[trigger] n[b],
        ) by {
            if a == s.len() {
                assert(!like(s[b], t));
            } else if b == s.len() {
                assert(!like(s[a], t));
            } else {
                assert(n[a] == s[a] && n[b] == s[b]);
            }
        }
        assert forall|a: int| 0 <= a < n.len() implies term_wf(#[trigger] n[a]) by {
            if a < s.len() {
                assert(n[a] == s[a]);
            }
        }
    }
}

/// Adding a term in simplest form to a sum of unlike terms keeps the terms
/// unlike and in simplest form.
pub proof fn lemma_set_add_keeps_terms_wf(s: Seq<BasicToken>, t: BasicToken)
    requires
        terms_wf(s),
        term_wf(t),
    ensures
        set_add_from(s, 0, t) matches Ok(n) ==> terms_wf(n),
{
    lemma_set_add_wf(s, 0, t);
}

} // verus!

verus! {

/// `v` has the value `n/d`.
pub open spec fn value_is(v: BasicToken, n: int, d: int) -> bool {
    match v {
        BasicToken::Integer(z) => z * d == n,
        BasicToken::Fraction(f) => scaled(f.int as int, f.num as int, f.den as int) * d == n * f.den,
        _ => false,
    }
}

/// The value of a fraction, over its denominator.
pub open spec fn numer(a: Fraction) -> int {
    scaled(a.int as int, a.num as int, a.den as int)
}

/// Fraction arithmetic keeps the value: `a + b`, `a - b`, `a · b` and
/// `a / b` come out as `(na·db ± nb·da)/(da·db)`, `(na·nb)/(da·db)` and
/// `(na·db)/(da·nb)` for `a = na/da`, `b = nb/db`.
pub proof fn lemma_fraction_ops_value(a: Fraction, b: Fraction)
    ensures
        fraction_add(a, b) matches Ok(v) ==> value_is(v, numer(a) * b.den + numer(b) * a.den, a.den * b.den),
        fraction_sub(a, b) matches Ok(v) ==> value_is(v, numer(a) * b.den - numer(b) * a.den, a.den * b.den),
        fraction_mul(a, b) matches Ok(v) ==> value_is(v, numer(a) * numer(b), a.den * b.den),
        fraction_div(a, b) matches Ok(v) ==> value_is(v, numer(a) * b.den, a.den * numer(b)),
{
    let (ai, an, ad, bi, bn, bd) = (a.int as int, a.num as int, a.den as int, b.int as int, b.num as int, b.den as int);
    let na = numer(a);
    let nb = numer(b);
    assert(na == ai * ad + an && nb == bi * bd + bn);
    lemma_normal_form_value(ai + bi, an * bd + ad * bn, ad * bd);
    assert((ai + bi) * (ad * bd) + (an * bd + ad * bn) == na * bd + nb * ad) by (nonlinear_arith)
        requires
            na == ai * ad + an,
            nb == bi * bd + bn,
    ;
    lemma_normal_form_value(ai - bi, an * bd - ad * bn, ad * bd);
    assert((ai - bi) * (ad * bd) + (an * bd - ad * bn) == na * bd - nb * ad) by (nonlinear_arith)
        requires
            na == ai * ad + an,
            nb == bi * bd + bn,
    ;
    let nn = an * bn + (an * (bi * bd) + bn * (ai * ad));
    lemma_normal_form_value(ai * bi, nn, ad * bd);
    let x = ai * ad;
    let y = bi * bd;
    assert(na * nb == x * y + x * bn + an * y + an * bn) by (nonlinear_arith)
        requires
            na == x + an,
            nb == y + bn,
    ;
    assert((ai * bi) * (ad * bd) == x * y) by (nonlinear_arith)
        requires
            x == ai * ad,
            y == bi * bd,
    ;
    assert(bn * x == x * bn) by (nonlinear_arith);
    assert((ai * bi) * (ad * bd) + nn == na * nb);
    let n = bd * (an + ai * ad);
    let d = ad * (bn + bi * bd);
    lemma_normal_form_value(0, n, d);
    assert(0 * d + n == na * bd && d == ad * nb) by (nonlinear_arith)
        requires
            n == bd * (an + ai * ad),
            d == ad * (bn + bi * bd),
            na == ai * ad + an,
            nb == bi * bd + bn,
    ;
}

} // verus!

verus! {

/// A value whose terms are in simplest form, and a sum without like terms.
pub open spec fn token_wf(t: Token) -> bool {
    match t {
        Token::Basic(x) => term_wf(x),
        Token::Pi(x) => term_wf(x),
        Token::Combined(c) => terms_wf(c.basic.vec@) && terms_wf(c.pi.vec@),
    }
}

/// Adding terms in simplest form one by one keeps a sum's terms unlike and
/// in simplest form.
pub proof fn lemma_set_add_all_keeps_terms_wf(s: Seq<BasicToken>, ts: Seq<BasicToken>)
    requires
        terms_wf(s),
        forall|i: int| 0 <= i < ts.len() ==> term_wf(#[trigger] ts[i]),
    ensures
        set_add_all(s, ts) matches Ok(n) ==> terms_wf(n),
    decreases ts.len(),
{
    if ts.len() > 0 {
        let d = ts.drop_last();
        assert forall|i: int| 0 <= i < d.len() implies term_wf(#[trigger] d[i]) by {
            assert(d[i] == ts[i]);
        }
        lemma_set_add_all_keeps_terms_wf(s, d);
        if let Ok(s2) = set_add_all(s, d) {
            lemma_set_add_keeps_terms_wf(s2, ts.last());
        }
    }
}

/// The sum collapses to zero, one term or a sum of the same terms.
proof fn lemma_sum_wf(t: Token, b: Seq<BasicToken>, p: Seq<BasicToken>)
    requires
        is_sum(t, b, p),
        terms_wf(b),
        terms_wf(p),
    ensures
        token_wf(t),
{
}

/// Adding a value to a sum keeps the sum's terms unlike and in simplest
/// form.
pub proof fn lemma_added_to_wf(c: Combined, tok: Token, r: Result<Token, MathError>)
    requires
        added_to(c, tok, r),
        terms_wf(c.basic.vec@),
        terms_wf(c.pi.vec@),
        token_wf(tok),
    ensures
        r matches Ok(t) ==> token_wf(t),
{
    match tok {
        Token::Basic(BasicToken::Integer(0)) | Token::Pi(BasicToken::Integer(0)) => {},
        Token::Basic(x) => {
            lemma_set_add_keeps_terms_wf(c.basic.vec@, x);
            if let Ok(b) = set_add_from(c.basic.vec@, 0, x) {
                lemma_sum_wf(r->Ok_0, b, c.pi.vec@);
            }
        },
        Token::Pi(x) => {
            lemma_set_add_keeps_terms_wf(c.pi.vec@, x);
            if let Ok(p) = set_add_from(c.pi.vec@, 0, x) {
                lemma_sum_wf(r->Ok_0, c.basic.vec@, p);
            }
        },
        Token::Combined(d) => {
            lemma_set_add_all_keeps_terms_wf(c.basic.vec@, d.basic.vec@);
            lemma_set_add_all_keeps_terms_wf(c.pi.vec@, d.pi.vec@);
            if let (Ok(b), Ok(p)) = (
                set_add_all(c.basic.vec@, d.basic.vec@),
                set_add_all(c.pi.vec@, d.pi.vec@),
            ) {
                lemma_sum_wf(r->Ok_0, b, p);
            }
        },
    }
}

} // verus!
