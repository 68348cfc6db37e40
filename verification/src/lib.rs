//! A compiler for set-builder notation.
//!
//! An input is either a literal list, `1, 2, 3`, which stands for the fixed
//! sequence of its elements, or a comprehension,
//! `output : clause, clause, ...`, whose clauses are bindings
//! `pattern <- source` and predicates in any order. A comprehension is
//! compiled to an expression of the host language that yields the outputs
//! lazily: each binding loops over its source inside the loops of the bindings
//! before it, and each predicate is tested as soon as the names before it are
//! bound.
//!
//! Input and output are text. The expressions and patterns of the host
//! language are read by the host's own parser and written out as they were
//! read.

use vstd::prelude::*;

pub mod clause;
pub mod error;
pub mod host;
pub mod parse;
pub mod pipeline;
pub mod semantics;
pub mod text;
pub mod validate;

use crate::clause::SetBuilderInput;
use crate::error::{outcome, Failure, SetError};
use crate::parse::parsed;
use crate::pipeline::{generate, generated, law_empty_list};
use crate::validate::{check, validated};

verus! {

/// Whether the names are validated.
#[derive(Debug, PartialEq, Eq)]
pub enum Mode {
    /// No validation.
    Permissive,
    /// The names that the clauses bind are held against the `declared` names.
    Strict { declared: Vec<String> },
}

impl Mode {
    /// The names to validate against, where validation is asked for.
    pub open spec fn declared(&self) -> Option<Seq<Seq<char>>> {
        match self {
            Mode::Permissive => None,
            Mode::Strict { declared } => Some(declared.deep_view()),
        }
    }
}

/// The code that an input compiles to, or why it is rejected: the input is
/// read, validated where that is asked for, and written as code.
pub open spec fn compiled(input: Seq<char>, declared: Option<Seq<Seq<char>>>) -> Result<
    Seq<char>,
    Failure,
> {
    match parsed(input) {
        Err(failure) => Err(failure),
        Ok(tree) => match validated(tree, declared) {
            Err(failure) => Err(failure),
            Ok(_) => Ok(generated(tree)),
        },
    }
}

/// Compiles an input in the given mode. The empty input compiles to the
/// empty fixed sequence.
pub fn compile(input: &str, mode: &Mode) -> (code: Result<String, SetError>)
    ensures
        outcome(code) == compiled(input@, mode.declared()),
        input@.len() == 0 ==> outcome(code) == Ok::<Seq<char>, Failure>("[]"@),
{
    proof {
        law_empty_list();
    }
    let tree = match SetBuilderInput::parse(input) {
        Ok(tree) => tree,
        Err(error) => {
            return Err(error);
        },
    };
    if let Mode::Strict { declared } = mode {
        if let Err(error) = check(&tree, declared) {
            return Err(error);
        }
    }
    Ok(generate(&tree))
}

/// Compiles an input without validation. The empty input compiles to the
/// empty fixed sequence.
pub fn set(input: &str) -> (code: Result<String, SetError>)
    ensures
        outcome(code) == compiled(input@, None),
        input@.len() == 0 ==> outcome(code) == Ok::<Seq<char>, Failure>("[]"@),
{
    compile(input, &Mode::Permissive)
}

} // verus!
