//! A small arithmetic expression and statement language: a tokenizer, an
//! operator-precedence parser, an evaluator over a variable environment and a
//! code generator, each with a contract over a mathematical model.

mod ast;
mod codegen;
mod env;
mod eval;
mod grammar;
mod lexer;
mod parser;
mod program;

pub use ast::{ErrorKind, Expr, ExprModel, Op};
pub use codegen::generate_code;
pub use env::Env;
pub use eval::{combine_values, evaluate_expr};
pub use grammar::{
    lemma_extra_parenthesis, lemma_flat_round_trip, lemma_parse_respects_precedence,
    lemma_text_respects_precedence,
    lemma_unbalanced_never_parses, Infix,
};
pub use lexer::{chars_of, tokenize, Token, TokenModel};
pub use parser::{apply_op, parse_expression, parse_tokens, precedence, Pending};
pub use program::{
    interpret, parse_program, parse_statement, split_lines, LineError, Program, Stmt,
};
