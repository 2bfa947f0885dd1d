use crate::lexer::{Symbol, Token};
use vstd::prelude::*;

verus! {

/// An expression tree: an integer leaf or a binary node that owns both operands.
#[derive(Debug, PartialEq)]
pub enum Expression {
    Int(i32),
    BinaryExp(Box<Expression>, Operator, Box<Expression>),
}

/// The operation of a binary node, independent of the token it came from.
#[derive(Debug, Clone, Copy, PartialEq, Eq, Structural)]
pub enum Operator {
    Plus,
    Minus,
    Mult,
    Div,
}

/// Why parsing stopped.
#[derive(Debug, Clone, Copy, PartialEq, Eq, Structural)]
pub enum ParseError {
    /// An operand was due but the tokens had run out.
    NoTokenLeft,
    /// An operand was due but this token came instead.
    ExpectedInteger(Token),
    /// An operator was due but this token came instead.
    ExpectedOperator(Token),
}

pub open spec fn operator_of(sym: Symbol) -> Operator {
    match sym {
        Symbol::Plus => Operator::Plus,
        Symbol::Minus => Operator::Minus,
        Symbol::Mult => Operator::Mult,
        Symbol::Div => Operator::Div,
    }
}

/// An operand at position `i`: the integer token there as a leaf.
pub open spec fn prefix_at(t: Seq<Token>, i: int) -> Result<Expression, ParseError> {
    if !(0 <= i < t.len()) {
        Err(ParseError::NoTokenLeft)
    } else {
        match t[i] {
            Token::Int(v) => Ok(Expression::Int(v)),
            tok => Err(ParseError::ExpectedInteger(tok)),
        }
    }
}

/// The expression made of all tokens from position `i` on: an operand, and,
/// if tokens remain, an operator whose right operand is the expression made
/// of everything after it.
pub open spec fn expression_from(t: Seq<Token>, i: int) -> Result<Expression, ParseError>
    decreases t.len() - i,
{
    match prefix_at(t, i) {
        Err(e) => Err(e),
        Ok(left) => if i + 1 < t.len() {
            infix_from(left, t, i + 1)
        } else {
            Ok(left)
        },
    }
}

/// The expression with `left` as left operand and the operator at position
/// `i`, its right operand being the expression of everything after it.
pub open spec fn infix_from(left: Expression, t: Seq<Token>, i: int) -> Result<Expression, ParseError>
    decreases t.len() - i,
{
    if !(0 <= i < t.len()) {
        Err(ParseError::NoTokenLeft)
    } else {
        match t[i] {
            Token::Operator(sym) => match expression_from(t, i + 1) {
                Ok(right) => Ok(Expression::BinaryExp(Box::new(left), operator_of(sym), Box::new(right))),
                Err(e) => Err(e),
            },
            tok => Err(ParseError::ExpectedOperator(tok)),
        }
    }
}

/// For any five tokens `a op1 b op2 c` the tree groups to the right:
/// `a op1 (b op2 c)`, never `(a op1 b) op2 c`.
pub proof fn lemma_right_association(a: i32, op1: Symbol, b: i32, op2: Symbol, c: i32)
    ensures
        expression_from(
            seq![Token::Int(a), Token::Operator(op1), Token::Int(b), Token::Operator(op2), Token::Int(c)],
            0,
        ) == Ok::<Expression, ParseError>(
            Expression::BinaryExp(
                Box::new(Expression::Int(a)),
                operator_of(op1),
                Box::new(
                    Expression::BinaryExp(
                        Box::new(Expression::Int(b)),
                        operator_of(op2),
                        Box::new(Expression::Int(c)),
                    ),
                ),
            ),
        ),
        expression_from(
            seq![Token::Int(a), Token::Operator(op1), Token::Int(b), Token::Operator(op2), Token::Int(c)],
            0,
        ) != Ok::<Expression, ParseError>(
            Expression::BinaryExp(
                Box::new(
                    Expression::BinaryExp(
                        Box::new(Expression::Int(a)),
                        operator_of(op1),
                        Box::new(Expression::Int(b)),
                    ),
                ),
                operator_of(op2),
                Box::new(Expression::Int(c)),
            ),
        ),
{
    let t = seq![Token::Int(a), Token::Operator(op1), Token::Int(b), Token::Operator(op2), Token::Int(c)];
    assert(expression_from(t, 4) == Ok::<Expression, ParseError>(Expression::Int(c)));
    assert(expression_from(t, 2) == infix_from(Expression::Int(b), t, 3));
    assert(expression_from(t, 0) == infix_from(Expression::Int(a), t, 1));
}

/// Whatever the tokens, the left operand of a parsed binary node is always an
/// integer leaf: operators never group to the left.
pub proof fn lemma_left_operand_is_leaf(t: Seq<Token>, i: int)
    ensures
        expression_from(t, i) matches Ok(Expression::BinaryExp(l, _, _)) ==> *l matches Expression::Int(_),
{
}

fn operator_for(sym: Symbol) -> (r: Operator)
    ensures
        r == operator_of(sym),
{
    match sym {
        Symbol::Plus => Operator::Plus,
        Symbol::Minus => Operator::Minus,
        Symbol::Mult => Operator::Mult,
        Symbol::Div => Operator::Div,
    }
}

/// Parses the expression made of all tokens from `*pos` on. On success every
/// token has been consumed.
pub fn parse_expression(tokens: &Vec<Token>, pos: &mut usize) -> (r: Result<Expression, ParseError>)
    requires
        *old(pos) <= tokens@.len(),
    ensures
        r == expression_from(tokens@, *old(pos) as int),
        r is Ok ==> *final(pos) == tokens@.len(),
        *old(pos) <= *final(pos) <= tokens@.len(),
    decreases tokens@.len() - *old(pos),
{
    let expr = match parse_prefix(tokens, pos) {
        Ok(e) => e,
        Err(e) => return Err(e),
    };
    // A successful infix step consumes every remaining token, so it runs at most once.
    if *pos < tokens.len() {
        parse_infix(expr, tokens, pos)
    } else {
        Ok(expr)
    }
}

/// Consumes one token, which must be an integer, and returns it as a leaf.
fn parse_prefix(tokens: &Vec<Token>, pos: &mut usize) -> (r: Result<Expression, ParseError>)
    requires
        *old(pos) <= tokens@.len(),
    ensures
        r == prefix_at(tokens@, *old(pos) as int),
        r is Ok ==> *final(pos) == *old(pos) + 1,
        *old(pos) <= *final(pos) <= tokens@.len(),
{
    if *pos >= tokens.len() {
        return Err(ParseError::NoTokenLeft);
    }
    let token = tokens[*pos];
    *pos = *pos + 1;
    match token {
        Token::Int(v) => Ok(Expression::Int(v)),
        _ => Err(ParseError::ExpectedInteger(token)),
    }
}

/// Consumes one token, which must be an operator, then parses the rest as its
/// right operand.
fn parse_infix(left: Expression, tokens: &Vec<Token>, pos: &mut usize) -> (r: Result<Expression, ParseError>)
    requires
        *old(pos) <= tokens@.len(),
    ensures
        r == infix_from(left, tokens@, *old(pos) as int),
        r is Ok ==> *final(pos) == tokens@.len(),
        *old(pos) <= *final(pos) <= tokens@.len(),
    decreases tokens@.len() - *old(pos),
{
    if *pos >= tokens.len() {
        return Err(ParseError::NoTokenLeft);
    }
    let token = tokens[*pos];
    *pos = *pos + 1;
    match token {
        Token::Operator(sym) => {
            let operator = operator_for(sym);
            match parse_expression(tokens, pos) {
                Ok(right) => Ok(Expression::BinaryExp(Box::new(left), operator, Box::new(right))),
                Err(e) => Err(e),
            }
        },
        _ => Err(ParseError::ExpectedOperator(token)),
    }
}

/// Parses a whole token sequence into one expression.
pub fn parse(tokens: &Vec<Token>) -> (r: Result<Expression, ParseError>)
    ensures
        r == expression_from(tokens@, 0),
{
    let mut pos: usize = 0;
    parse_expression(tokens, &mut pos)
}

} // verus!
