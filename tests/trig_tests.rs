use calculator::trig_number::{acos, asin, atan, cos, sin, tan};
use calculator::types::{BasicToken, MathError, Token};

fn pi(whole: i128, num: i128, den: i128) -> Token {
    Token::Pi(BasicToken::fraction(whole, num, den))
}

#[test]
fn sine_table() {
    assert_eq!(sin(pi(0, 1, 6)), Ok(Token::Basic(BasicToken::fraction(0, 1, 2))));
    assert_eq!(sin(pi(0, -1, 6)), Ok(Token::Basic(BasicToken::fraction(0, -1, 2))));
    assert_eq!(sin(pi(1, 1, 6)), Ok(Token::Basic(BasicToken::fraction(0, -1, 2))));
    assert_eq!(sin(pi(0, 5, 6)), Ok(Token::Basic(BasicToken::fraction(0, 1, 2))));
    assert_eq!(
        sin(pi(0, 1, 12)),
        Ok(Token::combined(
            vec![BasicToken::s_frac_root(0, 1, 4, 6), BasicToken::s_frac_root(0, -1, 4, 2)],
            vec![]
        ))
    );
    assert_eq!(sin(Token::Pi(BasicToken::Integer(3))), Ok(Token::Basic(BasicToken::Integer(0))));
    assert_eq!(sin(pi(0, 1, 7)), Err(MathError::Overflow));
    assert_eq!(sin(Token::Basic(BasicToken::Integer(1))), Err(MathError::Overflow));
}

#[test]
fn cosine_table() {
    assert_eq!(cos(Token::Basic(BasicToken::Integer(0))), Ok(Token::Basic(BasicToken::Integer(1))));
    assert_eq!(cos(Token::Pi(BasicToken::Integer(-3))), Ok(Token::Basic(BasicToken::Integer(-1))));
    assert_eq!(cos(pi(0, 1, 3)), Ok(Token::Basic(BasicToken::fraction(0, 1, 2))));
    assert_eq!(cos(pi(0, 2, 3)), Ok(Token::Basic(BasicToken::fraction(0, -1, 2))));
    assert_eq!(cos(pi(0, 1, 2)), Ok(Token::Basic(BasicToken::Integer(0))));
    assert_eq!(cos(pi(0, 1, 6)), Ok(Token::Basic(BasicToken::s_frac_root(0, 1, 2, 3))));
}

#[test]
fn tangent_table() {
    assert_eq!(tan(pi(0, 1, 4)), Ok(Token::Basic(BasicToken::Integer(1))));
    assert_eq!(tan(pi(0, 3, 4)), Ok(Token::Basic(BasicToken::Integer(-1))));
    assert_eq!(tan(pi(0, 1, 2)), Err(MathError::TangentError));
    assert_eq!(tan(pi(1, 1, 2)), Err(MathError::TangentError));
    assert_eq!(tan(pi(0, 1, 3)), Ok(Token::Basic(BasicToken::s_int_root(1, 3))));
    assert_eq!(
        tan(pi(0, 1, 8)),
        Ok(Token::combined(vec![BasicToken::s_int_root(1, 2), BasicToken::Integer(-1)], vec![]))
    );
}

#[test]
fn inverse_functions() {
    assert_eq!(asin(Token::Basic(BasicToken::fraction(0, 1, 2))), Ok(pi(0, 1, 6)));
    assert_eq!(asin(Token::Basic(BasicToken::Integer(-1))), Ok(pi(0, -1, 2)));
    assert_eq!(asin(Token::Basic(BasicToken::Integer(2))), Err(MathError::DomainError));
    assert_eq!(asin(Token::Basic(BasicToken::fraction(1, 1, 2))), Err(MathError::DomainError));
    assert_eq!(asin(Token::Basic(BasicToken::fraction(0, 1, 3))), Err(MathError::Overflow));
    assert_eq!(acos(Token::Basic(BasicToken::Integer(1))), Ok(Token::Basic(BasicToken::Integer(0))));
    assert_eq!(acos(Token::Basic(BasicToken::Integer(-1))), Ok(Token::Pi(BasicToken::Integer(1))));
    assert_eq!(acos(Token::Basic(BasicToken::fraction(0, 1, 2))), Ok(pi(0, 1, 3)));
    assert_eq!(acos(Token::Basic(BasicToken::Integer(0))), Ok(pi(0, 1, 2)));
    assert_eq!(atan(Token::Basic(BasicToken::Integer(1))), Ok(pi(0, 1, 4)));
    assert_eq!(atan(Token::Basic(BasicToken::s_int_root(-1, 3))), Ok(pi(0, -1, 3)));
    assert_eq!(
        atan(Token::combined(vec![BasicToken::Integer(-1), BasicToken::s_int_root(1, 2)], vec![])),
        Ok(pi(0, 1, 8))
    );
}

#[test]
fn sine_round_trips() {
    let angles = [(1, 12), (1, 10), (1, 6), (1, 4), (3, 10), (1, 3), (5, 12), (1, 2)];
    for (n, d) in angles {
        for s in [1, -1] {
            let value = sin(pi(0, s * n, d)).unwrap();
            assert_eq!(asin(value.clone()), Ok(pi(0, s * n, d)));
            assert_eq!(sin(asin(value.clone()).unwrap()), Ok(value));
        }
    }
}

#[test]
fn tangent_round_trips() {
    let angles = [(1, 24), (1, 12), (1, 8), (1, 6), (5, 24), (1, 4), (7, 24), (1, 3), (3, 8), (5, 12), (11, 24)];
    for (n, d) in angles {
        for s in [1, -1] {
            let value = tan(pi(0, s * n, d)).unwrap();
            assert_eq!(atan(value), Ok(pi(0, s * n, d)));
        }
    }
}

#[test]
fn error_messages() {
    assert_eq!(MathError::DivisionByZero.message(), "Division by zero");
    assert_eq!(MathError::SyntaxError.message(), "Incorrect syntax");
}

#[test]
fn inverse_domain() {
    assert_eq!(asin(Token::Basic(BasicToken::s_int_root(1, 3))), Err(MathError::DomainError));
    assert_eq!(acos(Token::Basic(BasicToken::s_int_root(1, 3))), Err(MathError::DomainError));
    assert_eq!(asin(Token::Basic(BasicToken::c_int_root(1, 2))), Err(MathError::DomainError));
    assert_eq!(asin(Token::Pi(BasicToken::Integer(1))), Err(MathError::DomainError));
    assert_eq!(asin(Token::Basic(BasicToken::s_frac_root(0, 1, 3, 2))), Err(MathError::Overflow));
    assert_eq!(acos(Token::Basic(BasicToken::fraction(0, -1, 2))), Ok(pi(0, 2, 3)));
}
