//! An interpreter for a small language of boolean expressions: a program
//! declares how many arguments it takes, gives their bits, and names one
//! expression over the variables `A`, `B`, ... and the functions `not`,
//! `and` and `or`. Lexing, parsing and evaluation are verified against the
//! specifications beside them; the laws that relate them stand in `laws`.

mod ast;
mod evaluator;
pub mod laws;
mod lexer;
mod parser;
mod pipeline;
mod printer;
mod text;
mod util;

pub use ast::{Expr, ExprKind, Ident, Program, Token, TokenKind};
pub use evaluator::{args_to_env, eval_program, Env, MAX_ARG_COUNT};
pub use lexer::lex;
pub use parser::{parse, parse_decimal};
pub use pipeline::run;
pub use printer::{ErrorPrinter, ExprTreePrinter};
pub use util::{Error, PResult, Span};
