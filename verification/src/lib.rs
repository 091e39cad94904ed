//! A small language for writing regular expressions as named definitions,
//! and its compiler to RE2 syntax.
//!
//! A definition file holds lines `name := expression`; the definition named
//! `EXPORT` is the regex. Expressions join parts with `+`, separate
//! alternatives with `/`, and mark parts `OPTIONAL`, `MULTIPLE` or `ONEOF`.

pub mod compiler;
pub mod diagnostic;
pub mod generator;
pub mod inliner;
pub mod language;
pub mod lexer;
pub mod merging;
pub mod properties;
pub mod optimizer;
pub mod parser;
pub mod processor;
pub mod text;

use vstd::prelude::*;

use crate::generator::{generate, generate_spec, text_outcome};
use crate::lexer::{lex, lex_spec};
use crate::parser::{parse, parse_spec};
use crate::processor::{optimize_spec, process, process_spec};

verus! {

/// The regex engines whose syntax a definition file can be compiled to.
#[derive(Debug, Clone, Copy, PartialEq, Eq, Structural)]
pub enum RegexKind {
    PosixEre,
    Pcre,
    Ecmascript,
    Python,
    Java,
    Re2,
}

/// What `compile` gives: the stages run one after the other, and the first
/// error stops them.
pub open spec fn compile_spec(input: Seq<char>, kind: RegexKind) -> Result<Seq<char>, Seq<char>> {
    match lex_spec(input) {
        Err(m) => Err(m),
        Ok(tokens) => match parse_spec(tokens) {
            Err(m) => Err(m),
            Ok(defs) => match process_spec(defs) {
                Err(m) => Err(m),
                Ok(p) => generate_spec(optimize_spec(p), kind),
            },
        },
    }
}

/// Compiles a definition file to a regex for the engine `kind`: the file is
/// split into tokens, parsed, its `EXPORT` definition inlined and simplified,
/// and printed.
pub fn compile(input: &str, kind: RegexKind) -> (r: Result<String, String>)
    ensures
        text_outcome(r) == compile_spec(input@, kind),
{
    let tokens = match lex(input) {
        Ok(tokens) => tokens,
        Err(m) => {
            return Err(m);
        },
    };
    let definitions = match parse(tokens.as_slice()) {
        Ok(definitions) => definitions,
        Err(m) => {
            return Err(m);
        },
    };
    let inlined = match process(definitions) {
        Ok(inlined) => inlined,
        Err(m) => {
            return Err(m);
        },
    };
    generate(inlined.optimize(), kind)
}

} // verus!
