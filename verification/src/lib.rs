use vstd::prelude::*;
use vstd::string::StringSliceAdditionalSpecFns;

pub mod text;
pub mod diagnostic;
pub mod ast;
pub mod lexer;
pub mod parser;
pub mod grammar;
pub mod sema;
pub mod ir;
pub mod bf;
pub mod interpreter;
pub mod transfer;
pub mod debug;
pub mod cli;

use crate::bf::{has_double_clear, valid_bf};
use crate::diagnostic::Diagnostic;
use crate::lexer::{lexes_to, number_error, Token};

verus! {

/// Compiles Sane source to Brainfuck, rendering a failure against the path `<source>`.
pub fn compile_source(src: &str) -> (r: Result<String, String>)
    ensures
        r matches Ok(code) ==> valid_bf(code@) && !has_double_clear(code@),
        src@.len() == 0 ==> (r matches Ok(code) && code@.len() == 0),
{
    compile_source_with_path(src, "<source>")
}

/// Compiles Sane source to Brainfuck; a failure is rendered with its location in `path`.
pub fn compile_source_with_path(src: &str, path: &str) -> (r: Result<String, String>)
    ensures
        r matches Ok(code) ==> valid_bf(code@) && !has_double_clear(code@),
        src@.len() == 0 ==> (r matches Ok(code) && code@.len() == 0),
{
    match compile_source_inner(src) {
        Ok(code) => Ok(code),
        Err(err) => Err(err.render(path, src)),
    }
}

/// Lexes, parses, resolves and compiles Sane source with the structured backend.
pub fn compile_source_inner(src: &str) -> (r: Result<String, Diagnostic>)
    ensures
        r matches Ok(code) ==> valid_bf(code@) && !has_double_clear(code@),
        src@.len() == 0 ==> (r matches Ok(code) && code@.len() == 0),
        !(exists|t: Seq<Token>| lexes_to(src.spec_bytes(), t)) ==> r is Err,
        src.spec_bytes().len() > 0 && 48 <= src.spec_bytes()[0] <= 57 ==> (number_error(
            src.spec_bytes(),
            0,
        ) matches Some(m) ==> (r matches Err(d) && d.message@ == m.0 && d.span == Some(m.1))),
{
    let tokens = lexer::lex(src)?;
    let mut parser = parser::Parser::new(tokens);
    let program = parser.parse_program()?;
    let program = sema::resolve(&program)?;
    match bf::compile(&program) {
        Ok(code) => Ok(code),
        Err(message) => Err(Diagnostic::bare(message)),
    }
}

} // verus!
