//! Front end of a small imperative language: a scanner that turns text into
//! tokens, a recursive-descent parser that turns tokens into a syntax tree,
//! and an evaluator that reduces an arithmetic tree to a number.

pub mod derivation;
pub mod evaluator;
pub mod grammar;
pub mod parser;
pub mod scanner;
pub mod source;
pub mod text;

pub use evaluator::{eval, eval_op, EvalError};
pub use parser::{
    expect, parse, parse_assignment, parse_basestatement, parse_element, parse_expression,
    parse_factor, parse_if_statement, parse_piece, parse_statement, parse_term,
    parse_while_statement, peek_token_match, Expected, ParseError, TokenStream, AST,
};
pub use scanner::{
    add_token, assign_initial_token, check_if_keyword, line_to_tokens, scan_file, ScanError,
    Token, TokenType,
};
