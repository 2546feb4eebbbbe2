use yash::arith::{Error, Term, Token, TokenError, Tokens, Value};

#[test]
fn decimal_integer_constants() {
    assert_eq!(
        Tokens::new("1").next(),
        Some(Ok(Token::Term(Term::Value(Value::Integer(1)))))
    );
    assert_eq!(
        Tokens::new("42").next(),
        Some(Ok(Token::Term(Term::Value(Value::Integer(42)))))
    );
}

#[test]
fn invalid_digit_in_decimal_constant() {
    assert_eq!(
        Tokens::new("1a").next(),
        Some(Err(Error {
            cause: TokenError::InvalidNumericConstant,
            location: 0..2,
        }))
    );
    assert_eq!(
        Tokens::new("  123_456 ").next(),
        Some(Err(Error {
            cause: TokenError::InvalidNumericConstant,
            location: 2..9,
        }))
    );
}

#[test]
fn octal_integer_constants() {
    assert_eq!(
        Tokens::new("0").next(),
        Some(Ok(Token::Term(Term::Value(Value::Integer(0)))))
    );
    assert_eq!(
        Tokens::new("01").next(),
        Some(Ok(Token::Term(Term::Value(Value::Integer(1)))))
    );
    assert_eq!(
        Tokens::new("07").next(),
        Some(Ok(Token::Term(Term::Value(Value::Integer(7)))))
    );
    assert_eq!(
        Tokens::new("0123").next(),
        Some(Ok(Token::Term(Term::Value(Value::Integer(0o123)))))
    );
}

#[test]
fn invalid_digit_in_octal_constant() {
    assert_eq!(
        Tokens::new("08").next(),
        Some(Err(Error {
            cause: TokenError::InvalidNumericConstant,
            location: 0..2,
        }))
    );
    assert_eq!(
        Tokens::new(" 0192 ").next(),
        Some(Err(Error {
            cause: TokenError::InvalidNumericConstant,
            location: 1..5,
        }))
    );
    assert_eq!(
        Tokens::new("0ab").next(),
        Some(Err(Error {
            cause: TokenError::InvalidNumericConstant,
            location: 0..3,
        }))
    );
}

#[test]
fn hexadecimal_integer_constants() {
    assert_eq!(
        Tokens::new("0x0").next(),
        Some(Ok(Token::Term(Term::Value(Value::Integer(0x0)))))
    );
    assert_eq!(
        Tokens::new("0X1").next(),
        Some(Ok(Token::Term(Term::Value(Value::Integer(0x1)))))
    );
    assert_eq!(
        Tokens::new("0x19Af").next(),
        Some(Ok(Token::Term(Term::Value(Value::Integer(0x19AF)))))
    );
}

#[test]
fn broken_hexadecimal_integer_constants() {
    assert_eq!(
        Tokens::new("0x").next(),
        Some(Err(Error {
            cause: TokenError::InvalidNumericConstant,
            location: 0..2,
        }))
    );
    assert_eq!(
        Tokens::new(" 0xG ").next(),
        Some(Err(Error {
            cause: TokenError::InvalidNumericConstant,
            location: 1..4,
        }))
    );
    assert_eq!(
        Tokens::new("0x1z2").next(),
        Some(Err(Error {
            cause: TokenError::InvalidNumericConstant,
            location: 0..5,
        }))
    );
}

#[test]
fn variables() {
    assert_eq!(
        Tokens::new("abc").next(),
        Some(Ok(Token::Term(Term::Variable {
            name: "abc".to_string(),
            location: 0..3
        })))
    );
    assert_eq!(
        Tokens::new("foo_BAR").next(),
        Some(Ok(Token::Term(Term::Variable {
            name: "foo_BAR".to_string(),
            location: 0..7
        })))
    );
    assert_eq!(
        Tokens::new("a1B2c").next(),
        Some(Ok(Token::Term(Term::Variable {
            name: "a1B2c".to_string(),
            location: 0..5
        })))
    );
}

#[test]
fn space_around_token() {
    assert_eq!(
        Tokens::new(" 42").next(),
        Some(Ok(Token::Term(Term::Value(Value::Integer(42)))))
    );
    assert_eq!(
        Tokens::new("042 ").next(),
        Some(Ok(Token::Term(Term::Value(Value::Integer(0o42)))))
    );
    assert_eq!(
        Tokens::new("\t 123 \n").next(),
        Some(Ok(Token::Term(Term::Value(Value::Integer(123)))))
    );
}

#[test]
fn parsing_two_tokens() {
    let mut tokens = Tokens::new(" 123  foo ");
    assert_eq!(
        tokens.next(),
        Some(Ok(Token::Term(Term::Value(Value::Integer(123)))))
    );
    assert_eq!(
        tokens.next(),
        Some(Ok(Token::Term(Term::Variable {
            name: "foo".to_string(),
            location: 6..9
        })))
    );
    assert_eq!(tokens.next(), None);
}

#[test]
fn variable_location_counts_bytes() {
    let mut tokens = Tokens::new("\u{3000}é_x");
    assert_eq!(
        tokens.next(),
        Some(Ok(Token::Term(Term::Variable {
            name: "é_x".to_string(),
            location: 3..7
        })))
    );
}

#[test]
fn constant_out_of_range_is_invalid() {
    assert_eq!(
        Tokens::new("9223372036854775808").next(),
        Some(Err(Error {
            cause: TokenError::InvalidNumericConstant,
            location: 0..19,
        }))
    );
    assert_eq!(
        Tokens::new("9223372036854775807").next(),
        Some(Ok(Token::Term(Term::Value(Value::Integer(i64::MAX)))))
    );
}

#[test]
fn invalid_constant_does_not_advance() {
    let mut tokens = Tokens::new("1a b");
    let first = tokens.next();
    assert_eq!(first, tokens.next());
}

#[test]
fn token_error_message() {
    assert_eq!(
        TokenError::InvalidNumericConstant.message(),
        "invalid numeric constant"
    );
}
