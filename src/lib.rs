//! Front end for flat arithmetic expressions: a tokenizer from characters to
//! tokens and a recursive-descent parser from tokens to an expression tree.
pub mod lexer;
pub mod parser;

pub use lexer::{LexError, Symbol, Token, Tokenizer};
pub use parser::{parse, parse_expression, Expression, Operator, ParseError};
