use vstd::prelude::*;

use crate::my_math::{checked_pow, factorise, factorised, power};
use crate::types::{
    added_to, base_of, coeff, collapse, view_of, TokenView, set_add_from, set_add_all, set_mul_all, family, fits, fraction_add, fraction_div, fraction_mul, fraction_sub,
    is_sum, multiplied, negated, parts, rebuild, rebuilt, set_div_all, set_negated, div_all, TermSet, BasicToken, Combined,
    Family, Fraction, MathError, Token, checked, checked_add, magnitude,
};

verus! {

/// Rebuilds a term from a computed coefficient, passing an error on.
pub open spec fn then_rebuild(c: Result<BasicToken, MathError>, f: Family, base: i128) -> Result<
    BasicToken,
    MathError,
> {
    match c {
        Ok(c) => rebuilt(f, base, c),
        Err(e) => Err(e),
    }
}

/// The sum of two like terms (same family and base); `Combine` for unlike
/// terms, which have to be kept side by side.
pub open spec fn basic_add(l: BasicToken, r: BasicToken) -> Result<BasicToken, MathError> {
    if family(l) == family(r) && base_of(l) == base_of(r) {
        then_rebuild(fraction_add(coeff(l), coeff(r)), family(l), base_of(l))
    } else {
        Err(MathError::Combine)
    }
}

/// The difference of two like terms; `Combine` for unlike terms.
pub open spec fn basic_sub(l: BasicToken, r: BasicToken) -> Result<BasicToken, MathError> {
    if family(l) == family(r) && base_of(l) == base_of(r) {
        then_rebuild(fraction_sub(coeff(l), coeff(r)), family(l), base_of(l))
    } else {
        Err(MathError::Combine)
    }
}

/// The coefficient of a rational result, as a fraction.
pub open spec fn coeff_of(c: Result<BasicToken, MathError>) -> Result<Fraction, MathError> {
    match c {
        Ok(c) => Ok(coeff(c)),
        Err(e) => Err(e),
    }
}

pub open spec fn whole(i: int) -> Fraction {
    Fraction { int: i as i128, num: 0, den: 1 }
}

/// The product of two terms.  A rational scales the other term's
/// coefficient; two roots of the same kind multiply their bases, and the
/// perfect powers found in the product move into the coefficient.  A square
/// root times a cube root has no exact form here: `Overflow`.
pub open spec fn basic_mul(l: BasicToken, r: BasicToken) -> Result<BasicToken, MathError> {
    if l == BasicToken::Integer(0) || r == BasicToken::Integer(0) {
        Ok(BasicToken::Integer(0))
    } else if family(l) == Family::Rational {
        then_rebuild(fraction_mul(coeff(l), coeff(r)), family(r), base_of(r))
    } else if family(r) == Family::Rational {
        then_rebuild(fraction_mul(coeff(l), coeff(r)), family(l), base_of(l))
    } else if family(l) == family(r) {
        let p = base_of(l) * base_of(r);
        if !fits(p) {
            Err(MathError::Overflow)
        } else {
            let fz = factorised(p, family(l) == Family::Square);
            match coeff_of(fraction_mul(coeff(l), coeff(r))) {
                Ok(c) => then_rebuild(fraction_mul(c, whole(fz.0)), family(l), fz.1 as i128),
                Err(e) => Err(e),
            }
        }
    } else {
        Err(MathError::Overflow)
    }
}

/// The quotient of two terms.  `DivisionByZero` for a zero divisor.  A
/// rational divisor divides the coefficient; for a root divisor
/// `c1·ᵏ√b1 / (c2·ᵏ√b2) = (c1/(c2·b2))·ᵏ√(b1·b2^(k-1))`, simplified like a
/// product.  Roots of different kinds: `Overflow`.
pub open spec fn basic_div(l: BasicToken, r: BasicToken) -> Result<BasicToken, MathError> {
    if r == BasicToken::Integer(0) {
        Err(MathError::DivisionByZero)
    } else if l == BasicToken::Integer(0) {
        Ok(BasicToken::Integer(0))
    } else if family(r) == Family::Rational {
        then_rebuild(fraction_div(coeff(l), coeff(r)), family(l), base_of(l))
    } else if family(l) != Family::Rational && family(l) != family(r) {
        Err(MathError::Overflow)
    } else {
        let sq = family(r) == Family::Square;
        let bk = if sq {
            base_of(r) as int
        } else {
            base_of(r) * base_of(r)
        };
        let p = base_of(l) * bk;
        if !fits(bk) || !fits(p) {
            Err(MathError::Overflow)
        } else {
            let fz = factorised(p, sq);
            match (
                coeff_of(fraction_mul(coeff(l), whole(fz.0))),
                coeff_of(fraction_mul(coeff(r), whole(base_of(r) as int))),
            ) {
                (Ok(n), Ok(d)) => then_rebuild(fraction_div(n, d), family(r), fz.1 as i128),
                (Err(e), _) => Err(e),
                (_, Err(e)) => Err(e),
            }
        }
    }
}

/// The coefficient of a rational value.
fn coefficient(t: BasicToken) -> (r: Fraction)
    ensures
        r == coeff(t),
{
    parts(t).2
}

/// `lhs + rhs` for like terms; `Combine` for unlike ones.
pub fn try_add(lhs: BasicToken, rhs: BasicToken) -> (r: Result<BasicToken, MathError>)
    ensures
        r == basic_add(lhs, rhs),
{
    let (fl, bl, cl) = parts(lhs);
    let (fr, br, cr) = parts(rhs);
    if fl == fr && bl == br {
        let c = cl.add(cr)?;
        rebuild(fl, bl, c)
    } else {
        Err(MathError::Combine)
    }
}

/// `lhs - rhs` for like terms; `Combine` for unlike ones.
pub fn try_sub(lhs: BasicToken, rhs: BasicToken) -> (r: Result<BasicToken, MathError>)
    ensures
        r == basic_sub(lhs, rhs),
{
    let (fl, bl, cl) = parts(lhs);
    let (fr, br, cr) = parts(rhs);
    if fl == fr && bl == br {
        let c = cl.sub(cr)?;
        rebuild(fl, bl, c)
    } else {
        Err(MathError::Combine)
    }
}

/// `lhs * rhs`; `Overflow` where only floating point can hold it.
pub fn try_mul(lhs: BasicToken, rhs: BasicToken) -> (r: Result<BasicToken, MathError>)
    ensures
        r == basic_mul(lhs, rhs),
{
    if lhs == BasicToken::Integer(0) || rhs == BasicToken::Integer(0) {
        return Ok(BasicToken::Integer(0));
    }
    let (fl, bl, cl) = parts(lhs);
    let (fr, br, cr) = parts(rhs);
    if fl == Family::Rational {
        let c = cl.mul(cr)?;
        rebuild(fr, br, c)
    } else if fr == Family::Rational {
        let c = cl.mul(cr)?;
        rebuild(fl, bl, c)
    } else if fl == fr {
        let p = crate::types::checked_mul(bl, br)?;
        let (o, i) = factorise(p, fl == Family::Square);
        let c = coefficient(cl.mul(cr)?);
        let c = c.mul(Fraction::new(o, 0, 1))?;
        rebuild(fl, i, c)
    } else {
        Err(MathError::Overflow)
    }
}

/// `lhs / rhs`; `DivisionByZero` for a zero divisor, `Overflow` where only
/// floating point can hold the quotient.
pub fn try_div(lhs: BasicToken, rhs: BasicToken) -> (r: Result<BasicToken, MathError>)
    ensures
        r == basic_div(lhs, rhs),
{
    if rhs == BasicToken::Integer(0) {
        return Err(MathError::DivisionByZero);
    }
    if lhs == BasicToken::Integer(0) {
        return Ok(BasicToken::Integer(0));
    }
    let (fl, bl, cl) = parts(lhs);
    let (fr, br, cr) = parts(rhs);
    if fr == Family::Rational {
        let c = cl.div(cr)?;
        return rebuild(fl, bl, c);
    }
    if fl != Family::Rational && fl != fr {
        return Err(MathError::Overflow);
    }
    let sq = fr == Family::Square;
    let bk = if sq {
        br
    } else {
        crate::types::checked_mul(br, br)?
    };
    let p = crate::types::checked_mul(bl, bk)?;
    let (o, i) = factorise(p, sq);
    let n = cl.mul(Fraction::new(o, 0, 1));
    let d = cr.mul(Fraction::new(br, 0, 1));
    let n = coefficient(n?);
    let d = coefficient(d?);
    let c = n.div(d)?;
    rebuild(fr, i, c)
}


/// A sum of two terms, or of a term and a π term.
fn pair(basic: Option<BasicToken>, pi: Option<BasicToken>, other: BasicToken, other_pi: bool) -> (r:
    Token)
    ensures
        is_sum(
            r,
            match basic {
                Some(b) => if other_pi {
                    seq![b]
                } else {
                    seq![b, other]
                },
                None => if other_pi {
                    Seq::empty()
                } else {
                    seq![other]
                },
            },
            match pi {
                Some(p) => if other_pi {
                    seq![p, other]
                } else {
                    seq![p]
                },
                None => if other_pi {
                    seq![other]
                } else {
                    Seq::empty()
                },
            },
        ),
{
    let mut b: Vec<BasicToken> = Vec::new();
    let mut p: Vec<BasicToken> = Vec::new();
    match basic {
        Some(x) => b.push(x),
        None => {},
    }
    match pi {
        Some(x) => p.push(x),
        None => {},
    }
    if other_pi {
        p.push(other);
    } else {
        b.push(other);
    }
    proof {
        assert(b@ =~= match basic {
            Some(x) => if other_pi {
                seq![x]
            } else {
                seq![x, other]
            },
            None => if other_pi {
                Seq::empty()
            } else {
                seq![other]
            },
        });
        assert(p@ =~= match pi {
            Some(x) => if other_pi {
                seq![x, other]
            } else {
                seq![x]
            },
            None => if other_pi {
                seq![other]
            } else {
                Seq::empty()
            },
        });
    }
    Combined {
        basic: crate::types::TermSet::new(b),
        pi: crate::types::TermSet::new(p),
    }.normalise()
}

/// `r` is what `add` gives for `l_number + r_number`.
pub open spec fn sum_of(l_number: Token, r_number: Token, r: Result<Token, MathError>) -> bool {
    match (l_number, r_number) {
        (Token::Pi(a), Token::Pi(b)) => match basic_add(a, b) {
            Err(MathError::Combine) => r is Ok && is_sum(r->Ok_0, Seq::empty(), seq![a, b]),
            Ok(BasicToken::Integer(0)) => r == Ok::<Token, MathError>(
                Token::Basic(BasicToken::Integer(0)),
            ),
            Ok(v) => r == Ok::<Token, MathError>(Token::Pi(v)),
            Err(e) => r == Err::<Token, MathError>(e),
        },
        (Token::Basic(a), Token::Basic(b)) => match basic_add(a, b) {
            Err(MathError::Combine) => r is Ok && is_sum(r->Ok_0, seq![a, b], Seq::empty()),
            Ok(v) => r == Ok::<Token, MathError>(Token::Basic(v)),
            Err(e) => r == Err::<Token, MathError>(e),
        },
        (Token::Combined(c), t) => added_to(c, t, r),
        (t, Token::Combined(c)) => added_to(c, t, r),
        (Token::Basic(b), Token::Pi(p)) | (Token::Pi(p), Token::Basic(b)) => r is Ok && is_sum(
            r->Ok_0,
            if b == BasicToken::Integer(0) {
                Seq::empty()
            } else {
                seq![b]
            },
            if p == BasicToken::Integer(0) {
                Seq::empty()
            } else {
                seq![p]
            },
        ),
    }
}

/// `l + r`.  Like terms add; unlike terms make a sum.  `Overflow` means the
/// exact sum does not fit and has to be computed in floating point.
pub fn add(l_number: Token, r_number: Token) -> (r: Result<Token, MathError>)
    ensures
        sum_of(l_number, r_number, r),
{
    match (l_number, r_number) {
        (Token::Pi(a), Token::Pi(b)) => match try_add(a, b) {
            Err(MathError::Combine) => Ok(pair(None, Some(a), b, true)),
            Ok(BasicToken::Integer(0)) => Ok(Token::Basic(BasicToken::Integer(0))),
            Ok(v) => Ok(Token::Pi(v)),
            Err(e) => Err(e),
        },
        (Token::Basic(a), Token::Basic(b)) => match try_add(a, b) {
            Err(MathError::Combine) => Ok(pair(Some(a), None, b, false)),
            Ok(v) => Ok(Token::Basic(v)),
            Err(e) => Err(e),
        },
        (Token::Combined(c), t) => c.add_combined(t),
        (t, Token::Combined(c)) => c.add_combined(t),
        (Token::Basic(b), Token::Pi(p)) | (Token::Pi(p), Token::Basic(b)) => {
            if p == BasicToken::Integer(0) {
                Ok(Token::Basic(b))
            } else if b == BasicToken::Integer(0) {
                Ok(Token::Pi(p))
            } else {
                Ok(pair(Some(b), None, p, true))
            }
        },
    }
}

/// `r` is what `sub` gives for `l_number - r_number`.
pub open spec fn difference_of(l_number: Token, r_number: Token, r: Result<Token, MathError>) -> bool {
    match (l_number, r_number) {
        (Token::Pi(a), Token::Pi(b)) => match basic_sub(a, b) {
            Err(MathError::Combine) => match negated(b) {
                Ok(nb) => r is Ok && is_sum(r->Ok_0, Seq::empty(), seq![a, nb]),
                Err(e) => r == Err::<Token, MathError>(e),
            },
            Ok(BasicToken::Integer(0)) => r == Ok::<Token, MathError>(
                Token::Basic(BasicToken::Integer(0)),
            ),
            Ok(v) => r == Ok::<Token, MathError>(Token::Pi(v)),
            Err(e) => r == Err::<Token, MathError>(e),
        },
        (Token::Basic(a), Token::Basic(b)) => match basic_sub(a, b) {
            Err(MathError::Combine) => match negated(b) {
                Ok(nb) => r is Ok && is_sum(r->Ok_0, seq![a, nb], Seq::empty()),
                Err(e) => r == Err::<Token, MathError>(e),
            },
            Ok(v) => r == Ok::<Token, MathError>(Token::Basic(v)),
            Err(e) => r == Err::<Token, MathError>(e),
        },
        (Token::Combined(c), Token::Basic(b)) => match negated(b) {
            Ok(nb) => added_to(c, Token::Basic(nb), r),
            Err(e) => r == Err::<Token, MathError>(e),
        },
        (Token::Combined(c), Token::Pi(b)) => match negated(b) {
            Ok(nb) => added_to(c, Token::Pi(nb), r),
            Err(e) => r == Err::<Token, MathError>(e),
        },
        (_, Token::Combined(c)) => match (set_negated(c.basic.vec@), set_negated(c.pi.vec@)) {
            (Ok(b), Ok(p)) => exists|n: Combined|
                n.basic.vec@ == b && n.pi.vec@ == p && #[trigger] added_to(n, l_number, r),
            (Err(e), _) => r == Err::<Token, MathError>(e),
            (_, Err(e)) => r == Err::<Token, MathError>(e),
        },
        (Token::Basic(b), Token::Pi(p)) => match negated(p) {
            Ok(np) => r is Ok && is_sum(
                r->Ok_0,
                if b == BasicToken::Integer(0) {
                    Seq::empty()
                } else {
                    seq![b]
                },
                if np == BasicToken::Integer(0) {
                    Seq::empty()
                } else {
                    seq![np]
                },
            ),
            Err(e) => r == Err::<Token, MathError>(e),
        },
        (Token::Pi(p), Token::Basic(b)) => match negated(b) {
            Ok(nb) => r is Ok && is_sum(
                r->Ok_0,
                if nb == BasicToken::Integer(0) {
                    Seq::empty()
                } else {
                    seq![nb]
                },
                if p == BasicToken::Integer(0) {
                    Seq::empty()
                } else {
                    seq![p]
                },
            ),
            Err(e) => r == Err::<Token, MathError>(e),
        },
    }
}

/// `l - r`: like terms subtract; otherwise `l + (-r)`.
pub fn sub(l_number: Token, r_number: Token) -> (r: Result<Token, MathError>)
    ensures
        difference_of(l_number, r_number, r),
{
    match (l_number, r_number) {
        (Token::Pi(a), Token::Pi(b)) => match try_sub(a, b) {
            Err(MathError::Combine) => Ok(pair(None, Some(a), b.negate()?, true)),
            Ok(BasicToken::Integer(0)) => Ok(Token::Basic(BasicToken::Integer(0))),
            Ok(v) => Ok(Token::Pi(v)),
            Err(e) => Err(e),
        },
        (Token::Basic(a), Token::Basic(b)) => match try_sub(a, b) {
            Err(MathError::Combine) => Ok(pair(Some(a), None, b.negate()?, false)),
            Ok(v) => Ok(Token::Basic(v)),
            Err(e) => Err(e),
        },
        (Token::Combined(c), Token::Basic(b)) => c.add_combined(Token::Basic(b.negate()?)),
        (Token::Combined(c), Token::Pi(b)) => c.add_combined(Token::Pi(b.negate()?)),
        (t, Token::Combined(c)) => {
            let n = c.negate()?;
            let ghost g = n;
            let r = n.add_combined(t);
            assert(added_to(g, t, r));
            r
        },
        (Token::Basic(b), Token::Pi(p)) => crate::number::add(Token::Basic(b), Token::Pi(p.negate()?)),
        (Token::Pi(p), Token::Basic(b)) => crate::number::add(Token::Basic(b.negate()?), Token::Pi(p)),
    }
}

/// `r` is what `mul` gives for `l_number * r_number`.
pub open spec fn product_of(l_number: Token, r_number: Token, r: Result<Token, MathError>) -> bool {
    match (l_number, r_number) {
        (Token::Pi(a), Token::Basic(b)) | (Token::Basic(a), Token::Pi(b)) => match basic_mul(
            a,
            b,
        ) {
            Ok(BasicToken::Integer(0)) => r == Ok::<Token, MathError>(
                Token::Basic(BasicToken::Integer(0)),
            ),
            Ok(v) => r == Ok::<Token, MathError>(Token::Pi(v)),
            Err(e) => r == Err::<Token, MathError>(e),
        },
        (Token::Basic(a), Token::Basic(b)) => match basic_mul(a, b) {
            Ok(v) => r == Ok::<Token, MathError>(Token::Basic(v)),
            Err(e) => r == Err::<Token, MathError>(e),
        },
        (Token::Pi(_), Token::Pi(_)) => r == Err::<Token, MathError>(MathError::Overflow),
        (Token::Combined(c), t) => multiplied(c, t, r),
        (t, Token::Combined(c)) => multiplied(c, t, r),
    }
}

/// `l * r`.  A π term times a plain term stays a π term; π² has no exact
/// form here (`Overflow`); a sum distributes a single factor.
pub fn mul(l_number: Token, r_number: Token) -> (r: Result<Token, MathError>)
    ensures
        product_of(l_number, r_number, r),
{
    match (l_number, r_number) {
        (Token::Pi(a), Token::Basic(b)) | (Token::Basic(a), Token::Pi(b)) => match try_mul(a, b) {
            Ok(BasicToken::Integer(0)) => Ok(Token::Basic(BasicToken::Integer(0))),
            Ok(v) => Ok(Token::Pi(v)),
            Err(e) => Err(e),
        },
        (Token::Basic(a), Token::Basic(b)) => Ok(Token::Basic(try_mul(a, b)?)),
        (Token::Pi(_), Token::Pi(_)) => Err(MathError::Overflow),
        (Token::Combined(c), t) => c.mul_combined(t),
        (t, Token::Combined(c)) => c.mul_combined(t),
    }
}


/// `r` is what `div` gives for `l_number / r_number`.
pub open spec fn quotient_of(l_number: Token, r_number: Token, r: Result<Token, MathError>) -> bool {
    match (l_number, r_number) {
        (Token::Basic(BasicToken::Integer(0)), _) => r == Ok::<Token, MathError>(
            Token::Basic(BasicToken::Integer(0)),
        ),
        (_, Token::Basic(BasicToken::Integer(0))) => r == Err::<Token, MathError>(
            MathError::DivisionByZero,
        ),
        (Token::Pi(a), Token::Pi(b)) | (Token::Basic(a), Token::Basic(b)) => match basic_div(
            a,
            b,
        ) {
            Ok(v) => r == Ok::<Token, MathError>(Token::Basic(v)),
            Err(e) => r == Err::<Token, MathError>(e),
        },
        (Token::Pi(a), Token::Basic(b)) => match basic_div(a, b) {
            Ok(v) => r == Ok::<Token, MathError>(Token::Pi(v)),
            Err(e) => r == Err::<Token, MathError>(e),
        },
        (Token::Combined(c), Token::Basic(b)) => match (
            set_div_all(c.basic.vec@, b),
            set_div_all(c.pi.vec@, b),
        ) {
            (Ok(x), Ok(y)) => r is Ok && is_sum(r->Ok_0, x, y),
            (Err(e), _) => r == Err::<Token, MathError>(e),
            (_, Err(e)) => r == Err::<Token, MathError>(e),
        },
        (Token::Combined(c), Token::Pi(b)) => if c.basic.vec@.len() == 0 {
            match set_div_all(c.pi.vec@, b) {
                Ok(x) => r is Ok && is_sum(r->Ok_0, x, Seq::empty()),
                Err(e) => r == Err::<Token, MathError>(e),
            }
        } else {
            r == Err::<Token, MathError>(MathError::Overflow)
        },
        _ => r == Err::<Token, MathError>(MathError::Overflow),
    }
}

/// `l / r`.  `DivisionByZero` for a zero divisor (`0 / x` is zero first).
/// π over π is plain, π over a plain term stays π; a sum divides term by
/// term; a plain term over π or over a sum needs floating point.
pub fn div(l_number: Token, r_number: Token) -> (r: Result<Token, MathError>)
    ensures
        quotient_of(l_number, r_number, r),
{
    match (l_number, r_number) {
        (Token::Basic(BasicToken::Integer(0)), _) => Ok(Token::Basic(BasicToken::Integer(0))),
        (_, Token::Basic(BasicToken::Integer(0))) => Err(MathError::DivisionByZero),
        (Token::Pi(a), Token::Pi(b)) | (Token::Basic(a), Token::Basic(b)) => Ok(
            Token::Basic(try_div(a, b)?),
        ),
        (Token::Pi(a), Token::Basic(b)) => Ok(Token::Pi(try_div(a, b)?)),
        (Token::Combined(c), Token::Basic(b)) => {
            let x = div_all(&c.basic.vec, b)?;
            let y = div_all(&c.pi.vec, b)?;
            Ok(Combined { basic: TermSet::new(x), pi: TermSet::new(y) }.normalise())
        },
        (Token::Combined(c), Token::Pi(b)) => {
            if c.basic.vec.len() == 0 {
                let x = div_all(&c.pi.vec, b)?;
                Ok(Combined { basic: TermSet::new(x), pi: TermSet::new(Vec::new()) }.normalise())
            } else {
                Err(MathError::Overflow)
            }
        },
        _ => Err(MathError::Overflow),
    }
}


/// `x^m` for a whole `m >= 0`, as `power_of_term` computes it: the total
/// numerator and the denominator of the coefficient are raised, whole powers
/// of the base leave the root (`(c·√b)^m = c^m·b^(m/2)·√b^(m%2)`, likewise
/// for cube roots), and what remains under the root is simplified.
pub open spec fn term_power(x: BasicToken, m: nat) -> Result<BasicToken, MathError> {
    match x {
        BasicToken::Integer(i) => match checked(power(i as int, m)) {
            Ok(v) => Ok(BasicToken::Integer(v)),
            Err(e) => Err(e),
        },
        _ => {
            let f = family(x);
            let b = base_of(x);
            let c = coeff(x);
            let t = c.int * c.den;
            let nn = t + c.num;
            let n_m = power(nn, m);
            let d_m = power(c.den as int, m);
            if !fits(t) || !fits(nn) || !fits(n_m) || !fits(d_m) {
                Err(MathError::Overflow)
            } else {
                match f {
                    Family::Rational => crate::types::normal_form(0, n_m, d_m),
                    _ => {
                        let k: nat = if f == Family::Square {
                            2
                        } else {
                            3
                        };
                        let q = power(b as int, m / k);
                        if !fits(q) || !fits(n_m * q) {
                            Err(MathError::Overflow)
                        } else {
                            match crate::types::normal_form(0, n_m * q, d_m) {
                                Err(e) => Err(e),
                                Ok(co) => if m % k == 0 {
                                    Ok(co)
                                } else if m % k == 1 {
                                    rebuilt(f, b, co)
                                } else if !fits(b * b) {
                                    Err(MathError::Overflow)
                                } else {
                                    let fz = factorised(b * b, false);
                                    then_rebuild(
                                        fraction_mul(coeff(co), whole(fz.0)),
                                        Family::Cube,
                                        fz.1 as i128,
                                    )
                                },
                            }
                        }
                    },
                }
            }
        },
    }
}

/// `l ^ r` on terms: a whole exponent raises the term (a negative one then
/// takes the reciprocal); an exponent `p/2` or `p/3` on a rational `x`
/// gives `ᵏ√(x^p)`, computed as `ᵏ√(N·D^(k-1))/D` for `x^|p| = N/D` with the
/// root simplified (the reciprocal for negative `p`); the square root of a
/// negative number is `ComplexNumber`; anything else needs floating point:
/// `Overflow`.
pub open spec fn basic_exp(l: BasicToken, r: BasicToken) -> Result<BasicToken, MathError> {
    match r {
        BasicToken::Integer(n) => match term_power(l, crate::my_math::abs(n as int) as nat) {
            Ok(v) => if n < 0 {
                basic_div(BasicToken::Integer(1), v)
            } else {
                Ok(v)
            },
            Err(e) => Err(e),
        },
        BasicToken::Fraction(f) => if family(l) != Family::Rational || (f.den != 2 && f.den != 3) {
            Err(MathError::Overflow)
        } else {
            let t = f.int * f.den;
            let p = t + f.num;
            if !fits(t) || !fits(p) {
                Err(MathError::Overflow)
            } else {
                match term_power(l, crate::my_math::abs(p) as nat) {
                    Err(e) => Err(e),
                    Ok(x) => {
                        let c = coeff(x);
                        let t2 = c.int * c.den;
                        let nn = t2 + c.num;
                        if !fits(t2) || !fits(nn) {
                            Err(MathError::Overflow)
                        } else if f.den == 2 && nn < 0 {
                            Err(MathError::ComplexNumber)
                        } else {
                            let dpow = if f.den == 2 {
                                c.den as int
                            } else {
                                c.den * c.den
                            };
                            if !fits(dpow) || !fits(nn * dpow) {
                                Err(MathError::Overflow)
                            } else {
                                let fz = factorised(nn * dpow, f.den == 2);
                                let fam = if f.den == 2 {
                                    Family::Square
                                } else {
                                    Family::Cube
                                };
                                match crate::types::normal_form(0, fz.0, c.den as int) {
                                    Err(e) => Err(e),
                                    Ok(co) => match rebuilt(fam, fz.1 as i128, co) {
                                        Ok(v) => if p < 0 {
                                            basic_div(BasicToken::Integer(1), v)
                                        } else {
                                            Ok(v)
                                        },
                                        Err(e) => Err(e),
                                    },
                                }
                            }
                        }
                    },
                }
            }
        },
        _ => Err(MathError::Overflow),
    }
}

/// `x^m` for a whole `m >= 0`: the coefficient and the base are raised
/// separately, and whole powers of the base leave the root.
fn power_of_term(x: BasicToken, m: u128) -> (r: Result<BasicToken, MathError>)
    ensures
        r == term_power(x, m as nat),
        match x {
            BasicToken::Integer(a) => r == (match checked(power(a as int, m as nat)) {
                Ok(v) => Ok(BasicToken::Integer(v)),
                Err(e) => Err(e),
            }),
            _ => true,
        },
        family(x) == Family::Rational ==> (r matches Ok(v) ==> family(v) == Family::Rational),
{
    if let BasicToken::Integer(i) = x {
        return Ok(BasicToken::Integer(checked_pow(i, m)?));
    }
    let (f, b, c) = parts(x);
    let t = crate::types::checked_mul(c.int, c.den)?;
    let nn = checked_add(t, c.num)?;
    let n_m = checked_pow(nn, m)?;
    let d_m = checked_pow(c.den, m)?;
    match f {
        Family::Rational => Fraction::new(0, n_m, d_m).normalise(),
        Family::Square => {
            let q = checked_pow(b, m / 2)?;
            let coeff = Fraction::new(0, crate::types::checked_mul(n_m, q)?, d_m).normalise()?;
            if m % 2 == 0 {
                Ok(coeff)
            } else {
                rebuild(Family::Square, b, coeff)
            }
        },
        Family::Cube => {
            let q = checked_pow(b, m / 3)?;
            let coeff = Fraction::new(0, crate::types::checked_mul(n_m, q)?, d_m).normalise()?;
            if m % 3 == 0 {
                Ok(coeff)
            } else if m % 3 == 1 {
                rebuild(Family::Cube, b, coeff)
            } else {
                let b2 = crate::types::checked_mul(b, b)?;
                let (o, i) = factorise(b2, false);
                let c2 = coefficient(coeff).mul(Fraction::new(o, 0, 1))?;
                rebuild(Family::Cube, i, c2)
            }
        },
    }
}

/// `lhs ^ rhs` for a whole exponent, or a rational one with denominator 2
/// or 3 on a rational base (a square or cube root).  The square root of a
/// negative number is `ComplexNumber`; other shapes need floating point:
/// `Overflow`.
pub fn try_exp(lhs: BasicToken, rhs: BasicToken) -> (r: Result<BasicToken, MathError>)
    ensures
        r == basic_exp(lhs, rhs),
        match (lhs, rhs) {
            (BasicToken::Integer(a), BasicToken::Integer(n)) => r == (match checked(
                power(a as int, crate::my_math::abs(n as int) as nat),
            ) {
                Ok(v) => if n >= 0 {
                    Ok(BasicToken::Integer(v))
                } else {
                    basic_div(BasicToken::Integer(1), BasicToken::Integer(v))
                },
                Err(e) => Err(e),
            }),
            _ => true,
        },
        rhs matches BasicToken::Fraction(f) && (f.den != 2 && f.den != 3 || family(lhs)
            != Family::Rational) ==> r == Err::<BasicToken, MathError>(MathError::Overflow),
        family(rhs) != Family::Rational ==> r == Err::<BasicToken, MathError>(MathError::Overflow),
{
    match rhs {
        BasicToken::Integer(n) => {
            let m = magnitude(n);
            let v = power_of_term(lhs, m)?;
            if n < 0 {
                try_div(BasicToken::Integer(1), v)
            } else {
                Ok(v)
            }
        },
        BasicToken::Fraction(f) => {
            let (fl, _bl, _cl) = parts(lhs);
            if fl != Family::Rational || (f.den != 2 && f.den != 3) {
                return Err(MathError::Overflow);
            }
            let t = crate::types::checked_mul(f.int, f.den)?;
            let p = checked_add(t, f.num)?;
            let x = power_of_term(lhs, magnitude(p))?;
            let c = coefficient(x);
            let t = crate::types::checked_mul(c.int, c.den)?;
            let nn = checked_add(t, c.num)?;
            if f.den == 2 && nn < 0 {
                return Err(MathError::ComplexNumber);
            }
            let dpow = if f.den == 2 {
                c.den
            } else {
                crate::types::checked_mul(c.den, c.den)?
            };
            let big = crate::types::checked_mul(nn, dpow)?;
            let (o, i) = factorise(big, f.den == 2);
            let coeff = Fraction::new(0, o, c.den).normalise()?;
            let fam = if f.den == 2 {
                Family::Square
            } else {
                Family::Cube
            };
            let v = rebuild(fam, i, coeff)?;
            if p < 0 {
                try_div(BasicToken::Integer(1), v)
            } else {
                Ok(v)
            }
        },
        _ => Err(MathError::Overflow),
    }
}

/// `r` is what `exp` gives for `l_number ^ r_number`.
pub open spec fn raised_to(l_number: Token, r_number: Token, r: Result<Token, MathError>) -> bool {
    r == power_result(l_number, r_number)
}

/// `l ^ r`: `0^0` is `ExponentiationError`; `1^x = 1`, `x^0 = 1`, `0^x = 0`,
/// `x^1 = x`; two plain terms follow `basic_exp`; powers of π or of sums
/// need floating point: `Overflow`.
pub open spec fn power_result(l_number: Token, r_number: Token) -> Result<Token, MathError> {
    let zero = Token::Basic(BasicToken::Integer(0));
    let one = Token::Basic(BasicToken::Integer(1));
    if l_number == zero && r_number == zero {
        Err(MathError::ExponentiationError)
    } else if l_number == one || r_number == zero {
        Ok(one)
    } else if l_number == zero {
        Ok(zero)
    } else if r_number == one {
        Ok(l_number)
    } else {
        match (l_number, r_number) {
            (Token::Basic(a), Token::Basic(b)) => match basic_exp(a, b) {
                Ok(v) => Ok(Token::Basic(v)),
                Err(e) => Err(e),
            },
            _ => Err(MathError::Overflow),
        }
    }
}

/// `l ^ r`.  `0^0` is `ExponentiationError`; `x^0 = 1`, `1^x = 1`,
/// `0^x = 0`, `x^1 = x`; other plain values go through `try_exp`; powers
/// of π or of sums need floating point: `Overflow`.
pub fn exp(l_number: Token, r_number: Token) -> (r: Result<Token, MathError>)
    ensures
        raised_to(l_number, r_number, r),
{
    match (l_number, r_number) {
        (Token::Basic(BasicToken::Integer(0)), Token::Basic(BasicToken::Integer(0))) => Err(
            MathError::ExponentiationError,
        ),
        (Token::Basic(BasicToken::Integer(1)), _) | (_, Token::Basic(BasicToken::Integer(0))) => Ok(
            Token::Basic(BasicToken::Integer(1)),
        ),
        (Token::Basic(BasicToken::Integer(0)), _) => Ok(Token::Basic(BasicToken::Integer(0))),
        (x, Token::Basic(BasicToken::Integer(1))) => Ok(x),
        (Token::Basic(a), Token::Basic(b)) => Ok(Token::Basic(try_exp(a, b)?)),
        _ => Err(MathError::Overflow),
    }
}

} // verus!

verus! {

/// Addition of two terms does not depend on their order.
pub proof fn lemma_add_commutes(a: BasicToken, b: BasicToken)
    ensures
        basic_add(a, b) == basic_add(b, a),
{
    let (x, y) = (coeff(a), coeff(b));
    assert(x.num * y.den == y.den * x.num) by (nonlinear_arith);
    assert(x.den * y.num == y.num * x.den) by (nonlinear_arith);
    assert(x.den * y.den == y.den * x.den) by (nonlinear_arith);
}

/// Multiplication of two terms does not depend on their order.
pub proof fn lemma_mul_commutes(a: BasicToken, b: BasicToken)
    ensures
        basic_mul(a, b) == basic_mul(b, a),
{
    let (x, y) = (coeff(a), coeff(b));
    assert(x.num * y.num == y.num * x.num) by (nonlinear_arith);
    assert(x.int * y.int == y.int * x.int) by (nonlinear_arith);
    assert(x.den * y.den == y.den * x.den) by (nonlinear_arith);
    assert(base_of(a) * base_of(b) == base_of(b) * base_of(a)) by (nonlinear_arith);
    assert(x.num * (y.int * y.den) + y.num * (x.int * x.den) == y.num * (x.int * x.den) + x.num * (
    y.int * y.den));
}

} // verus!

verus! {

/// On plain terms and multiples of π, `add` and `mul` do not depend on the
/// order of their operands: the results agree whenever no sum of unlike
/// terms is formed (a product never forms one).
pub proof fn lemma_token_ops_commute(a: Token, b: Token, r1: Result<Token, MathError>, r2: Result<
    Token,
    MathError,
>)
    requires
        !(a is Combined),
        !(b is Combined),
    ensures
        product_of(a, b, r1) && product_of(b, a, r2) ==> r1 == r2,
        sum_of(a, b, r1) && sum_of(b, a, r2) && (match (a, b) {
            (Token::Basic(x), Token::Basic(y)) | (Token::Pi(x), Token::Pi(y)) => basic_add(x, y)
                != Err::<BasicToken, MathError>(MathError::Combine),
            _ => false,
        }) ==> r1 == r2,
{
    match (a, b) {
        (Token::Basic(x), Token::Basic(y)) | (Token::Pi(x), Token::Pi(y)) | (
            Token::Basic(x),
            Token::Pi(y),
        ) | (Token::Pi(x), Token::Basic(y)) => {
            lemma_add_commutes(x, y);
            lemma_mul_commutes(x, y);
        },
        _ => {},
    }
}

} // verus!

verus! {

/// A result as a view.
pub open spec fn rv(r: Result<Token, MathError>) -> Result<TokenView, MathError> {
    match r {
        Ok(t) => Ok(view_of(t)),
        Err(e) => Err(e),
    }
}

/// The sum of the computed terms, or the first error.
pub open spec fn sum_view(b: Result<Seq<BasicToken>, MathError>, p: Result<Seq<BasicToken>, MathError>) -> Result<TokenView, MathError> {
    match (b, p) {
        (Ok(b), Ok(p)) => Ok(collapse(b, p)),
        (Err(e), _) => Err(e),
        (_, Err(e)) => Err(e),
    }
}

/// A single term, or none for zero.
pub open spec fn nonzero(x: BasicToken) -> Seq<BasicToken> {
    if x == BasicToken::Integer(0) {
        Seq::empty()
    } else {
        seq![x]
    }
}

/// The sum `cb + π·cp` plus the value `t`, term by term.
pub open spec fn view_added(cb: Seq<BasicToken>, cp: Seq<BasicToken>, t: TokenView) -> Result<TokenView, MathError> {
    match t {
        TokenView::Basic(BasicToken::Integer(0)) | TokenView::Pi(BasicToken::Integer(0)) => Ok(
            TokenView::Sum(cb, cp),
        ),
        TokenView::Basic(x) => sum_view(set_add_from(cb, 0, x), Ok(cp)),
        TokenView::Pi(x) => sum_view(Ok(cb), set_add_from(cp, 0, x)),
        TokenView::Sum(db, dp) => sum_view(set_add_all(cb, db), set_add_all(cp, dp)),
    }
}

/// The sum `cb + π·cp` times the value `t`.
pub open spec fn view_multiplied(cb: Seq<BasicToken>, cp: Seq<BasicToken>, t: TokenView) -> Result<TokenView, MathError> {
    match t {
        TokenView::Basic(BasicToken::Integer(0)) | TokenView::Pi(BasicToken::Integer(0)) => Ok(
            TokenView::Basic(BasicToken::Integer(0)),
        ),
        TokenView::Basic(x) => sum_view(set_mul_all(cb, x), set_mul_all(cp, x)),
        TokenView::Pi(x) => if cp.len() == 0 {
            sum_view(Ok(Seq::empty()), set_mul_all(cb, x))
        } else {
            Err(MathError::Overflow)
        },
        TokenView::Sum(_, _) => Err(MathError::Overflow),
    }
}

/// What `add` gives, on views.
pub open spec fn view_add(l: TokenView, r: TokenView) -> Result<TokenView, MathError> {
    match (l, r) {
        (TokenView::Pi(a), TokenView::Pi(b)) => match basic_add(a, b) {
            Err(MathError::Combine) => Ok(collapse(Seq::empty(), seq![a, b])),
            Ok(BasicToken::Integer(0)) => Ok(TokenView::Basic(BasicToken::Integer(0))),
            Ok(v) => Ok(TokenView::Pi(v)),
            Err(e) => Err(e),
        },
        (TokenView::Basic(a), TokenView::Basic(b)) => match basic_add(a, b) {
            Err(MathError::Combine) => Ok(collapse(seq![a, b], Seq::empty())),
            Ok(v) => Ok(TokenView::Basic(v)),
            Err(e) => Err(e),
        },
        (TokenView::Sum(cb, cp), t) => view_added(cb, cp, t),
        (t, TokenView::Sum(cb, cp)) => view_added(cb, cp, t),
        (TokenView::Basic(b), TokenView::Pi(p)) | (TokenView::Pi(p), TokenView::Basic(b)) => Ok(
            collapse(nonzero(b), nonzero(p)),
        ),
    }
}

/// What `sub` gives, on views.
pub open spec fn view_sub(l: TokenView, r: TokenView) -> Result<TokenView, MathError> {
    match (l, r) {
        (TokenView::Pi(a), TokenView::Pi(b)) => match basic_sub(a, b) {
            Err(MathError::Combine) => match negated(b) {
                Ok(nb) => Ok(collapse(Seq::empty(), seq![a, nb])),
                Err(e) => Err(e),
            },
            Ok(BasicToken::Integer(0)) => Ok(TokenView::Basic(BasicToken::Integer(0))),
            Ok(v) => Ok(TokenView::Pi(v)),
            Err(e) => Err(e),
        },
        (TokenView::Basic(a), TokenView::Basic(b)) => match basic_sub(a, b) {
            Err(MathError::Combine) => match negated(b) {
                Ok(nb) => Ok(collapse(seq![a, nb], Seq::empty())),
                Err(e) => Err(e),
            },
            Ok(v) => Ok(TokenView::Basic(v)),
            Err(e) => Err(e),
        },
        (TokenView::Sum(cb, cp), TokenView::Basic(b)) => match negated(b) {
            Ok(nb) => view_added(cb, cp, TokenView::Basic(nb)),
            Err(e) => Err(e),
        },
        (TokenView::Sum(cb, cp), TokenView::Pi(b)) => match negated(b) {
            Ok(nb) => view_added(cb, cp, TokenView::Pi(nb)),
            Err(e) => Err(e),
        },
        (t, TokenView::Sum(cb, cp)) => match (set_negated(cb), set_negated(cp)) {
            (Ok(nb), Ok(np)) => view_added(nb, np, t),
            (Err(e), _) => Err(e),
            (_, Err(e)) => Err(e),
        },
        (TokenView::Basic(b), TokenView::Pi(p)) => match negated(p) {
            Ok(np) => Ok(collapse(nonzero(b), nonzero(np))),
            Err(e) => Err(e),
        },
        (TokenView::Pi(p), TokenView::Basic(b)) => match negated(b) {
            Ok(nb) => Ok(collapse(nonzero(nb), nonzero(p))),
            Err(e) => Err(e),
        },
    }
}

/// What `mul` gives, on views.
pub open spec fn view_mul(l: TokenView, r: TokenView) -> Result<TokenView, MathError> {
    match (l, r) {
        (TokenView::Pi(a), TokenView::Basic(b)) | (TokenView::Basic(a), TokenView::Pi(b)) => match basic_mul(a, b) {
            Ok(BasicToken::Integer(0)) => Ok(TokenView::Basic(BasicToken::Integer(0))),
            Ok(v) => Ok(TokenView::Pi(v)),
            Err(e) => Err(e),
        },
        (TokenView::Basic(a), TokenView::Basic(b)) => match basic_mul(a, b) {
            Ok(v) => Ok(TokenView::Basic(v)),
            Err(e) => Err(e),
        },
        (TokenView::Pi(_), TokenView::Pi(_)) => Err(MathError::Overflow),
        (TokenView::Sum(cb, cp), t) => view_multiplied(cb, cp, t),
        (t, TokenView::Sum(cb, cp)) => view_multiplied(cb, cp, t),
    }
}

/// What `div` gives, on views.
pub open spec fn view_div(l: TokenView, r: TokenView) -> Result<TokenView, MathError> {
    match (l, r) {
        (TokenView::Basic(BasicToken::Integer(0)), _) => Ok(TokenView::Basic(BasicToken::Integer(0))),
        (_, TokenView::Basic(BasicToken::Integer(0))) => Err(MathError::DivisionByZero),
        (TokenView::Pi(a), TokenView::Pi(b)) | (TokenView::Basic(a), TokenView::Basic(b)) => match basic_div(a, b) {
            Ok(v) => Ok(TokenView::Basic(v)),
            Err(e) => Err(e),
        },
        (TokenView::Pi(a), TokenView::Basic(b)) => match basic_div(a, b) {
            Ok(v) => Ok(TokenView::Pi(v)),
            Err(e) => Err(e),
        },
        (TokenView::Sum(cb, cp), TokenView::Basic(b)) => sum_view(set_div_all(cb, b), set_div_all(cp, b)),
        (TokenView::Sum(cb, cp), TokenView::Pi(b)) => if cb.len() == 0 {
            sum_view(set_div_all(cp, b), Ok(Seq::empty()))
        } else {
            Err(MathError::Overflow)
        },
        _ => Err(MathError::Overflow),
    }
}

/// What `exp` gives, on views.
pub open spec fn view_pow(l: TokenView, r: TokenView) -> Result<TokenView, MathError> {
    let zero = TokenView::Basic(BasicToken::Integer(0));
    let one = TokenView::Basic(BasicToken::Integer(1));
    if l == zero && r == zero {
        Err(MathError::ExponentiationError)
    } else if l == one || r == zero {
        Ok(one)
    } else if l == zero {
        Ok(zero)
    } else if r == one {
        Ok(l)
    } else {
        match (l, r) {
            (TokenView::Basic(a), TokenView::Basic(b)) => match basic_exp(a, b) {
                Ok(v) => Ok(TokenView::Basic(v)),
                Err(e) => Err(e),
            },
            _ => Err(MathError::Overflow),
        }
    }
}

/// What `Token::negate` gives, on views.
pub open spec fn view_neg(v: TokenView) -> Result<TokenView, MathError> {
    match v {
        TokenView::Basic(x) => match negated(x) {
            Ok(n) => Ok(TokenView::Basic(n)),
            Err(e) => Err(e),
        },
        TokenView::Pi(x) => match negated(x) {
            Ok(n) => Ok(TokenView::Pi(n)),
            Err(e) => Err(e),
        },
        TokenView::Sum(b, p) => match (set_negated(b), set_negated(p)) {
            (Ok(nb), Ok(np)) => Ok(TokenView::Sum(nb, np)),
            (Err(e), _) => Err(e),
            (_, Err(e)) => Err(e),
        },
    }
}

/// `add`'s result, as a view, is exactly `view_add` of the operands' views.
pub proof fn lemma_sum_view(l: Token, r: Token, res: Result<Token, MathError>)
    requires
        sum_of(l, r, res),
    ensures
        rv(res) == view_add(view_of(l), view_of(r)),
{
    match (l, r) {
        (Token::Basic(_), Token::Basic(_)) => {},
        (Token::Basic(_), Token::Pi(_)) => {},
        (Token::Basic(_), Token::Combined(_)) => {},
        (Token::Pi(_), Token::Basic(_)) => {},
        (Token::Pi(_), Token::Pi(_)) => {},
        (Token::Pi(_), Token::Combined(_)) => {},
        (Token::Combined(_), Token::Basic(_)) => {},
        (Token::Combined(_), Token::Pi(_)) => {},
        (Token::Combined(_), Token::Combined(_)) => {},
    }
}

/// `sub`'s result, as a view, is exactly `view_sub` of the operands' views.
pub proof fn lemma_difference_view(l: Token, r: Token, res: Result<Token, MathError>)
    requires
        difference_of(l, r, res),
    ensures
        rv(res) == view_sub(view_of(l), view_of(r)),
{
    match (l, r) {
        (Token::Basic(_), Token::Basic(_)) => {},
        (Token::Basic(_), Token::Pi(_)) => {},
        (Token::Basic(_), Token::Combined(_)) => {},
        (Token::Pi(_), Token::Basic(_)) => {},
        (Token::Pi(_), Token::Pi(_)) => {},
        (Token::Pi(_), Token::Combined(_)) => {},
        (Token::Combined(_), Token::Basic(_)) => {},
        (Token::Combined(_), Token::Pi(_)) => {},
        (Token::Combined(_), Token::Combined(_)) => {},
    }
}

/// `mul`'s result, as a view, is exactly `view_mul` of the operands' views.
pub proof fn lemma_product_view(l: Token, r: Token, res: Result<Token, MathError>)
    requires
        product_of(l, r, res),
    ensures
        rv(res) == view_mul(view_of(l), view_of(r)),
{
    match (l, r) {
        (Token::Basic(_), Token::Basic(_)) => {},
        (Token::Basic(_), Token::Pi(_)) => {},
        (Token::Basic(_), Token::Combined(_)) => {},
        (Token::Pi(_), Token::Basic(_)) => {},
        (Token::Pi(_), Token::Pi(_)) => {},
        (Token::Pi(_), Token::Combined(_)) => {},
        (Token::Combined(_), Token::Basic(_)) => {},
        (Token::Combined(_), Token::Pi(_)) => {},
        (Token::Combined(_), Token::Combined(_)) => {},
    }
}

/// `div`'s result, as a view, is exactly `view_div` of the operands' views.
pub proof fn lemma_quotient_view(l: Token, r: Token, res: Result<Token, MathError>)
    requires
        quotient_of(l, r, res),
    ensures
        rv(res) == view_div(view_of(l), view_of(r)),
{
    match (l, r) {
        (Token::Basic(_), Token::Basic(_)) => {},
        (Token::Basic(_), Token::Pi(_)) => {},
        (Token::Basic(_), Token::Combined(_)) => {},
        (Token::Pi(_), Token::Basic(_)) => {},
        (Token::Pi(_), Token::Pi(_)) => {},
        (Token::Pi(_), Token::Combined(_)) => {},
        (Token::Combined(_), Token::Basic(_)) => {},
        (Token::Combined(_), Token::Pi(_)) => {},
        (Token::Combined(_), Token::Combined(_)) => {},
    }
}

/// `exp`'s result, as a view, is exactly `view_pow` of the operands' views.
pub proof fn lemma_power_view(l: Token, r: Token, res: Result<Token, MathError>)
    requires
        raised_to(l, r, res),
    ensures
        rv(res) == view_pow(view_of(l), view_of(r)),
{
    match (l, r) {
        (Token::Basic(_), Token::Basic(_)) => {},
        (Token::Basic(_), Token::Pi(_)) => {},
        (Token::Basic(_), Token::Combined(_)) => {},
        (Token::Pi(_), Token::Basic(_)) => {},
        (Token::Pi(_), Token::Pi(_)) => {},
        (Token::Pi(_), Token::Combined(_)) => {},
        (Token::Combined(_), Token::Basic(_)) => {},
        (Token::Combined(_), Token::Pi(_)) => {},
        (Token::Combined(_), Token::Combined(_)) => {},
    }
}

} // verus!
