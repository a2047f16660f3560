use calculator::expression::{eval, evaluate, Expression};
use calculator::my_math::{factorise, gcd_u128, ten_to_the_power_of};
use calculator::number::{add, div, exp, mul, sub, try_add, try_div, try_exp, try_mul};
use calculator::types::{BasicToken, Combined, Fraction, MathError, TermSet, Token};

fn run(text: &str) -> Result<Token, MathError> {
    eval(&Expression::parse(text).unwrap())
}

fn basic(t: BasicToken) -> Result<Token, MathError> {
    Ok(Token::Basic(t))
}

// Values that only floating point can hold come back as `Overflow`, the
// signal to compute the expression as a double.
#[test]
fn number_parse() {
    assert_eq!(
        run("170141183460469231731687303715884105727"),
        basic(BasicToken::Integer(i128::MAX))
    );
    assert_eq!(
        run("170141183460469231731687303715884105728"),
        Err(MathError::Overflow)
    );
    assert_eq!(run("+5"), basic(BasicToken::Integer(5)));
    assert_eq!(run("-5"), basic(BasicToken::Integer(-5)));
    assert_eq!(run("5.5"), basic(BasicToken::fraction(5, 1, 2)));
    assert_eq!(run("-5.5"), basic(BasicToken::fraction(-5, -1, 2)));
    assert_eq!(run(".5"), basic(BasicToken::fraction(0, 1, 2)));
    assert_eq!(run("-5.0"), basic(BasicToken::Integer(-5)));
    assert_eq!(run("1.0"), basic(BasicToken::Integer(1)));
    assert_eq!(run("0pi"), basic(BasicToken::Integer(0)));
    assert_eq!(run("-0.5"), basic(BasicToken::fraction(0, -1, 2)));
    assert!(Expression::parse("-.5").is_err());
    assert!(Expression::parse("+.5").is_err());
}

#[test]
fn e_parse() {
    assert_eq!(
        run("170141183460469231731687303715884105727e0"),
        basic(BasicToken::Integer(i128::MAX))
    );
    assert_eq!(
        run("170141183460469231731687303715884105728e2"),
        Err(MathError::Overflow)
    );
    assert_eq!(run("+5e-1"), basic(BasicToken::fraction(0, 1, 2)));
    assert_eq!(run("-5e-1"), basic(BasicToken::fraction(0, -1, 2)));
    assert_eq!(run("5.5e-1"), basic(BasicToken::fraction(0, 11, 20)));
    assert_eq!(run("-5.5e+1"), basic(BasicToken::Integer(-55)));
    assert_eq!(
        run("-595.524e-1"),
        basic(BasicToken::fraction(-59, -1381, 2500))
    );
    assert_eq!(run(".5e0"), basic(BasicToken::fraction(0, 1, 2)));
    assert_eq!(run("-5.0e1"), basic(BasicToken::Integer(-50)));
    assert_eq!(run("1.0e2"), basic(BasicToken::Integer(100)));
    assert!(Expression::parse("-.5e5").is_err());
    assert!(Expression::parse("+.5e5").is_err());
}

#[test]
fn zero_tests() {
    assert_eq!(run("-5+5pi+5-5pi"), basic(BasicToken::Integer(0)));
}

#[test]
fn integers_read_back() {
    for n in [0i128, 1, -1, 42, -987654321, i128::MAX, i128::MIN] {
        assert_eq!(evaluate(&n.to_string()), basic(BasicToken::Integer(n)));
    }
}

#[test]
fn division_by_zero_and_zero_power() {
    assert_eq!(evaluate("5/0"), Err(MathError::DivisionByZero));
    assert_eq!(evaluate("0^0"), Err(MathError::ExponentiationError));
}

#[test]
fn precedence_and_brackets() {
    assert_eq!(evaluate("6*(4+5)-25/(2+3)"), basic(BasicToken::Integer(49)));
    assert_eq!(evaluate("2^3^2"), basic(BasicToken::Integer(512)));
    assert_eq!(evaluate("2+3*4"), basic(BasicToken::Integer(14)));
    assert_eq!(evaluate("-(2+3)"), basic(BasicToken::Integer(-5)));
    assert_eq!(evaluate("(1+2"), Err(MathError::SyntaxError));
    assert_eq!(evaluate("1+2)"), Err(MathError::SyntaxError));
    assert_eq!(evaluate("1+a"), Err(MathError::SyntaxError));
    assert_eq!(evaluate(""), Err(MathError::SyntaxError));
}

#[test]
fn pi_terms() {
    assert_eq!(evaluate("pi"), Ok(Token::Pi(BasicToken::Integer(1))));
    assert_eq!(evaluate("2π"), Ok(Token::Pi(BasicToken::Integer(2))));
    assert_eq!(evaluate("5pi-5pi"), basic(BasicToken::Integer(0)));
    assert_eq!(evaluate("pi*pi"), Err(MathError::Overflow));
    assert_eq!(
        evaluate("1+2pi"),
        Ok(Token::combined(
            vec![BasicToken::Integer(1)],
            vec![BasicToken::Integer(2)]
        ))
    );
    assert_eq!(evaluate("6pi/3"), Ok(Token::Pi(BasicToken::Integer(2))));
}

#[test]
fn roots() {
    assert_eq!(evaluate("8^0.5"), basic(BasicToken::s_int_root(2, 2)));
    assert_eq!(evaluate("8^(1/2)"), basic(BasicToken::s_int_root(2, 2)));
    assert_eq!(evaluate("16^(1/3)"), basic(BasicToken::c_int_root(2, 2)));
    assert_eq!(evaluate("4^0.5"), basic(BasicToken::Integer(2)));
    assert_eq!(evaluate("2^0.5*2^0.5"), basic(BasicToken::Integer(2)));
    assert_eq!(evaluate("(-4)^0.5"), Err(MathError::ComplexNumber));
    assert_eq!(evaluate("2^0.25"), Err(MathError::Overflow));
    assert_eq!(evaluate("2^-1"), basic(BasicToken::fraction(0, 1, 2)));
    assert_eq!(
        evaluate("2^0.5+3^0.5"),
        Ok(Token::combined(
            vec![BasicToken::s_int_root(1, 2), BasicToken::s_int_root(1, 3)],
            vec![]
        ))
    );
    assert_eq!(
        evaluate("2^0.5+3^0.5-2^0.5"),
        basic(BasicToken::s_int_root(1, 3))
    );
    assert_eq!(
        evaluate("1/2^0.5"),
        basic(BasicToken::s_frac_root(0, 1, 2, 2))
    );
}

#[test]
fn fraction_normal_form() {
    assert_eq!(Fraction::new(0, 6, 4).normalise(), Ok(BasicToken::fraction(1, 1, 2)));
    assert_eq!(Fraction::new(0, 3, -6).normalise(), Ok(BasicToken::fraction(0, -1, 2)));
    assert_eq!(Fraction::new(2, -1, 2).normalise(), Ok(BasicToken::fraction(1, 1, 2)));
    assert_eq!(Fraction::new(-2, 1, 3).normalise(), Ok(BasicToken::fraction(-1, -2, 3)));
    assert_eq!(Fraction::new(3, 4, 2).normalise(), Ok(BasicToken::Integer(5)));
    assert_eq!(Fraction::new(1, 1, 0).normalise(), Err(MathError::DivisionByZero));
    assert_eq!(
        Fraction::new(i128::MAX, 3, 2).normalise(),
        Err(MathError::Overflow)
    );
}

#[test]
fn fraction_arithmetic() {
    let half = Fraction::new(0, 1, 2);
    let third = Fraction::new(0, 1, 3);
    assert_eq!(half.add(third), Ok(BasicToken::fraction(0, 5, 6)));
    assert_eq!(half.sub(third), Ok(BasicToken::fraction(0, 1, 6)));
    assert_eq!(half.mul(third), Ok(BasicToken::fraction(0, 1, 6)));
    assert_eq!(half.div(third), Ok(BasicToken::fraction(1, 1, 2)));
    assert_eq!(
        Fraction::new(1, 1, 2).mul(Fraction::new(1, 1, 2)),
        Ok(BasicToken::fraction(2, 1, 4))
    );
}

#[test]
fn factorise_extracts_powers() {
    assert_eq!(factorise(72, true), (6, 2));
    assert_eq!(factorise(72, false), (2, 9));
    assert_eq!(factorise(-54, false), (3, -2));
    assert_eq!(factorise(0, true), (1, 0));
    assert_eq!(factorise(13, true), (1, 13));
    assert_eq!(gcd_u128(12, 18), 6);
    assert_eq!(ten_to_the_power_of(3), Some(1000));
    assert_eq!(ten_to_the_power_of(39), None);
}

#[test]
fn basic_arithmetic_commutes() {
    let a = BasicToken::fraction(1, 1, 3);
    let b = BasicToken::Integer(4);
    let r = BasicToken::s_int_root(3, 2);
    assert_eq!(try_add(a, b), try_add(b, a));
    assert_eq!(try_mul(a, b), try_mul(b, a));
    assert_eq!(try_mul(a, r), try_mul(r, a));
    assert_eq!(try_mul(r, r), Ok(BasicToken::Integer(18)));
    assert_eq!(try_add(r, b), Err(MathError::Combine));
    assert_eq!(try_div(b, BasicToken::Integer(0)), Err(MathError::DivisionByZero));
    assert_eq!(try_exp(BasicToken::Integer(2), BasicToken::Integer(10)), Ok(BasicToken::Integer(1024)));
    assert_eq!(
        try_add(BasicToken::Integer(i128::MAX), BasicToken::Integer(1)),
        Err(MathError::Overflow)
    );
}

#[test]
fn token_operations() {
    let two = Token::Basic(BasicToken::Integer(2));
    let three = Token::Basic(BasicToken::Integer(3));
    assert_eq!(add(two.clone(), three.clone()), basic(BasicToken::Integer(5)));
    assert_eq!(sub(two.clone(), three.clone()), basic(BasicToken::Integer(-1)));
    assert_eq!(mul(two.clone(), three.clone()), basic(BasicToken::Integer(6)));
    assert_eq!(div(two.clone(), three.clone()), basic(BasicToken::fraction(0, 2, 3)));
    assert_eq!(exp(two.clone(), three.clone()), basic(BasicToken::Integer(8)));
    let sum = Combined {
        basic: TermSet::new(vec![BasicToken::Integer(1)]),
        pi: TermSet::new(vec![BasicToken::Integer(1)]),
    };
    assert_eq!(
        mul(Token::Combined(sum), two),
        Ok(Token::combined(vec![BasicToken::Integer(2)], vec![BasicToken::Integer(2)]))
    );
}

#[test]
fn powers() {
    assert_eq!(evaluate("(-2)^-3"), basic(BasicToken::fraction(0, -1, 8)));
    assert_eq!(evaluate("(-1)^-2"), basic(BasicToken::Integer(1)));
    assert_eq!(evaluate("0.5^2"), basic(BasicToken::fraction(0, 1, 4)));
    assert_eq!(evaluate("(2^0.5)^3"), basic(BasicToken::s_int_root(2, 2)));
    assert_eq!(evaluate("0.25^0.5"), basic(BasicToken::fraction(0, 1, 2)));
    assert_eq!(evaluate("2pi^2"), Err(MathError::Overflow));
}
