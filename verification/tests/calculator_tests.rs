use mini_bitcask::calculator::{Expr, ExprError, Token, Tokenizer, ASSOC_LEFT, ASSOC_RIGHT};

fn eval(input: &str) -> Result<i32, ExprError> {
    Expr::new(input).eval()
}

fn fails_with(input: &str, text: &str) {
    assert_eq!(eval(input), Err(ExprError::Parse(text.to_string())));
}

#[test]
fn test_eval() {
    let input = "92 + 5 + 5 * 27 - (92 - 12) / 4 + 26";
    let mut expr = Expr::new(input);
    assert_eq!(expr.eval(), Ok(238));
}

#[test]
fn precedence_and_grouping() {
    assert_eq!(eval("1 + 2 * 3"), Ok(7));
    assert_eq!(eval("(1 + 2) * 3"), Ok(9));
    assert_eq!(eval("10 - 4 - 3"), Ok(3));
    assert_eq!(eval("100 / 10 / 5"), Ok(2));
    assert_eq!(eval("2 ^ 3 ^ 2"), Ok(512));
    assert_eq!(eval("2 * 3 ^ 2"), Ok(18));
    assert_eq!(eval("((7))"), Ok(7));
    assert_eq!(eval("  42  "), Ok(42));
}

#[test]
fn division_rounds_towards_zero() {
    assert_eq!(eval("7 / 2"), Ok(3));
    assert_eq!(eval("(0 - 7) / 2"), Ok(-3));
    assert_eq!(eval("7 / (0 - 2)"), Ok(-3));
    assert_eq!(eval("(0 - 7) / (0 - 2)"), Ok(3));
}

#[test]
fn powers() {
    assert_eq!(eval("2 ^ 0"), Ok(1));
    assert_eq!(eval("2 ^ 30"), Ok(1 << 30));
    assert_eq!(eval("(0 - 2) ^ 31"), Ok(i32::MIN));
    assert_eq!(eval("0 ^ 0"), Ok(1));
    assert_eq!(eval("0 ^ 5"), Ok(0));
    // A negative exponent is read as an unsigned number.
    assert_eq!(eval("1 ^ (0 - 1)"), Ok(1));
    assert_eq!(eval("(0 - 1) ^ (0 - 1)"), Ok(-1));
    assert_eq!(eval("(0 - 1) ^ (0 - 2)"), Ok(1));
    assert_eq!(eval("0 ^ (0 - 1)"), Ok(0));
}

#[test]
fn operations_without_a_result() {
    fails_with("2147483647 + 1", "Unexpected expr");
    fails_with("0 - 2147483647 - 2", "Unexpected expr");
    fails_with("65536 * 65536", "Unexpected expr");
    fails_with("1 / 0", "Unexpected expr");
    fails_with("2 ^ 31", "Unexpected expr");
    fails_with("2 ^ (0 - 1)", "Unexpected expr");
    fails_with("(0 - 2147483647 - 1) / (0 - 1)", "Unexpected expr");
    assert_eq!(eval("2147483647 + 0"), Ok(i32::MAX));
}

#[test]
fn malformed_expressions() {
    fails_with("", "Expecting a number or left parenthesis");
    fails_with("+ 1", "Expecting a number or left parenthesis");
    fails_with("1 +", "Expecting a number or left parenthesis");
    fails_with("(1 + 2", "Unexpected character");
    fails_with("1 2", "Unexpect end of expr");
    fails_with("1 )", "Unexpect end of expr");
    fails_with("()", "Expecting a number or left parenthesis");
}

#[test]
fn what_spells_no_token_ends_the_expression() {
    assert_eq!(eval("1 + 2 x 3"), Ok(3));
    assert_eq!(eval("7 ? 1"), Ok(7));
    // A number too large for 32 bits spells no token.
    fails_with("1 + 99999999999", "Expecting a number or left parenthesis");
    fails_with("99999999999", "Expecting a number or left parenthesis");
    // Numeric characters other than the digits 0 to 9 spell no number.
    fails_with("\u{0663}", "Expecting a number or left parenthesis");
    assert_eq!(eval("5 + 1\u{0663}"), Err(ExprError::Parse(
        "Expecting a number or left parenthesis".to_string()
    )));
    // Unicode white space is skipped.
    assert_eq!(eval("1\u{2003}+\t2\n"), Ok(3));
}

#[test]
fn error_message_is_its_text() {
    let e = eval("1 2").unwrap_err();
    assert_eq!(e.message(), "Unexpect end of expr");
}

#[test]
fn second_evaluation_starts_where_the_first_ended() {
    let mut expr = Expr::new("1 + 2");
    assert_eq!(expr.eval(), Ok(3));
    assert_eq!(
        expr.eval(),
        Err(ExprError::Parse("Expecting a number or left parenthesis".to_string()))
    );
}

#[test]
fn tokens_of_an_expression() {
    let mut tokenizer = Tokenizer::new(" 12+ (3 ^4)/ 5 -6*7 ");
    let mut tokens = Vec::new();
    while let Some(token) = tokenizer.next() {
        tokens.push(token);
    }
    assert_eq!(
        tokens,
        vec![
            Token::Number(12),
            Token::Plus,
            Token::LeftParen,
            Token::Number(3),
            Token::Power,
            Token::Number(4),
            Token::RightParen,
            Token::Divide,
            Token::Number(5),
            Token::Minus,
            Token::Number(6),
            Token::Multiply,
            Token::Number(7),
        ]
    );
}

#[test]
fn tokenizer_steps() {
    let mut tokenizer = Tokenizer::new("  007x");
    tokenizer.consume_whitespace();
    assert_eq!(tokenizer.scan_number(), Some(Token::Number(7)));
    // A character that is no operator is consumed and gives nothing.
    assert_eq!(tokenizer.scan_operator(), None);
    assert_eq!(tokenizer.scan_operator(), None);
    assert_eq!(tokenizer.scan_number(), None);

    let mut tokenizer = Tokenizer::new("2147483647 2147483648");
    assert_eq!(tokenizer.next(), Some(Token::Number(i32::MAX)));
    assert_eq!(tokenizer.next(), None);
}

#[test]
fn operators_by_precedence_and_grouping() {
    assert!(Token::Plus.is_operator());
    assert!(Token::Power.is_operator());
    assert!(!Token::Number(1).is_operator());
    assert!(!Token::LeftParen.is_operator());
    assert_eq!(Token::Plus.precedence(), 1);
    assert_eq!(Token::Minus.precedence(), 1);
    assert_eq!(Token::Multiply.precedence(), 2);
    assert_eq!(Token::Divide.precedence(), 2);
    assert_eq!(Token::Power.precedence(), 3);
    assert_eq!(Token::RightParen.precedence(), 0);
    assert_eq!(Token::Power.assoc(), ASSOC_RIGHT);
    assert_eq!(Token::Minus.assoc(), ASSOC_LEFT);
    assert_eq!(Token::Minus.computer(5, 8), Some(-3));
    assert_eq!(Token::Multiply.computer(-4, 6), Some(-24));
    assert_eq!(Token::Power.computer(3, 4), Some(81));
    assert_eq!(Token::LeftParen.computer(1, 2), None);
}
