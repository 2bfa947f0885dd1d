use arith_parser::{parse, parse_expression, Expression, Operator, ParseError, Symbol, Token, Tokenizer};

fn leaf(v: i32) -> Box<Expression> {
    Box::new(Expression::Int(v))
}

#[test]
fn single_integer_is_a_leaf() {
    let tokens = "5".to_string().tokenize().unwrap();
    assert_eq!(parse(&tokens), Ok(Expression::Int(5)));
}

#[test]
fn plus_then_mult_groups_right() {
    let tokens = "1+2*3".to_string().tokenize().unwrap();
    let expected = Expression::BinaryExp(
        leaf(1),
        Operator::Plus,
        Box::new(Expression::BinaryExp(leaf(2), Operator::Mult, leaf(3))),
    );
    assert_eq!(parse(&tokens), Ok(expected));
}

#[test]
fn mult_then_plus_also_groups_right() {
    let tokens = "1*2+3".to_string().tokenize().unwrap();
    let expected = Expression::BinaryExp(
        leaf(1),
        Operator::Mult,
        Box::new(Expression::BinaryExp(leaf(2), Operator::Plus, leaf(3))),
    );
    assert_eq!(parse(&tokens), Ok(expected));
}

#[test]
fn five_tokens_group_right() {
    let tokens = vec![
        Token::Int(8),
        Token::Operator(Symbol::Minus),
        Token::Int(4),
        Token::Operator(Symbol::Div),
        Token::Int(2),
    ];
    let right = Expression::BinaryExp(
        Box::new(Expression::BinaryExp(leaf(8), Operator::Minus, leaf(4))),
        Operator::Div,
        leaf(2),
    );
    let expected = Expression::BinaryExp(
        leaf(8),
        Operator::Minus,
        Box::new(Expression::BinaryExp(leaf(4), Operator::Div, leaf(2))),
    );
    let got = parse(&tokens).unwrap();
    assert_ne!(got, right);
    assert_eq!(got, expected);
}

#[test]
fn trailing_operator_fails() {
    let tokens = "1+".to_string().tokenize().unwrap();
    assert_eq!(parse(&tokens), Err(ParseError::NoTokenLeft));
}

#[test]
fn empty_tokens_fail() {
    assert_eq!(parse(&vec![]), Err(ParseError::NoTokenLeft));
}

#[test]
fn two_operators_in_a_row_fail() {
    let tokens = "1+*2".to_string().tokenize().unwrap();
    assert_eq!(parse(&tokens), Err(ParseError::ExpectedInteger(Token::Operator(Symbol::Mult))));
}

#[test]
fn leading_operator_fails() {
    let tokens = "-1".to_string().tokenize().unwrap();
    assert_eq!(parse(&tokens), Err(ParseError::ExpectedInteger(Token::Operator(Symbol::Minus))));
}

#[test]
fn two_integers_in_a_row_fail() {
    let tokens = vec![Token::Int(1), Token::Int(2)];
    assert_eq!(parse(&tokens), Err(ParseError::ExpectedOperator(Token::Int(2))));
}

#[test]
fn parse_expression_consumes_everything() {
    let tokens = "1*234+3/4-7".to_string().tokenize().unwrap();
    let mut pos: usize = 0;
    let expr = parse_expression(&tokens, &mut pos).unwrap();
    assert_eq!(pos, tokens.len());
    let expected = Expression::BinaryExp(
        leaf(1),
        Operator::Mult,
        Box::new(Expression::BinaryExp(
            leaf(234),
            Operator::Plus,
            Box::new(Expression::BinaryExp(
                leaf(3),
                Operator::Div,
                Box::new(Expression::BinaryExp(leaf(4), Operator::Minus, leaf(7))),
            )),
        )),
    );
    assert_eq!(expr, expected);
}

#[test]
fn parse_expression_from_a_later_position() {
    let tokens = vec![Token::Operator(Symbol::Plus), Token::Int(9)];
    let mut pos: usize = 1;
    assert_eq!(parse_expression(&tokens, &mut pos), Ok(Expression::Int(9)));
    assert_eq!(pos, 2);
}
