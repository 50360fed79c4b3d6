use vstd::prelude::*;

use crate::ast::Tree;
use crate::evaluator::{eval_program, eval_tree};
use crate::lexer::{lex, lex_spec};
use crate::parser::{p_program, parse};
use crate::util::{outcome, Diag, PResult};

verus! {

/// The value of the program `src`, or the first error that lexing, parsing
/// or evaluating it meets.
pub open spec fn run_spec(src: Seq<char>) -> Result<bool, Diag> {
    match p_program(lex_spec(src), src) {
        Err(d) => Err(d),
        Ok((t, bits)) => eval_tree(t, bits),
    }
}

/// Lexes, parses and evaluates `src`.
pub fn run(src: &str) -> (r: PResult<bool>)
    ensures
        outcome(r) == run_spec(src@),
{
    let tokens = lex(src);
    let program = match parse(src, tokens.as_slice()) {
        Ok(p) => p,
        Err(e) => return Err(e),
    };
    eval_program(&program)
}

} // verus!
