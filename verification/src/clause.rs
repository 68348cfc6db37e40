//! The clauses of a comprehension, and the two forms of input.
//!
//! Host-language syntax (expressions, patterns) is never interpreted: a
//! fragment is kept as the text that was read and written out again as it is.

use vstd::prelude::*;

verus! {

/// A binding clause `name <- set`: `name` is a pattern, `set` an expression
/// that produces a sequence.
#[derive(Clone, Debug, PartialEq, Eq)]
pub struct SetMapping {
    pub name: String,
    pub set: String,
}

/// The model of a [`SetMapping`].
pub struct Binding {
    pub name: Seq<char>,
    pub set: Seq<char>,
}

impl View for SetMapping {
    type V = Binding;

    open spec fn view(&self) -> Binding {
        Binding { name: self.name@, set: self.set@ }
    }
}

impl DeepView for SetMapping {
    type V = Binding;

    open spec fn deep_view(&self) -> Binding {
        self@
    }
}

/// One clause after the separator: a binding, or a predicate over the names
/// bound before it.
#[derive(Clone, Debug, PartialEq, Eq)]
pub enum Auxiliary {
    SetMapping(SetMapping),
    Predicate(String),
}

/// The model of an [`Auxiliary`].
pub enum Clause {
    Binding(Binding),
    Predicate(Seq<char>),
}

impl View for Auxiliary {
    type V = Clause;

    open spec fn view(&self) -> Clause {
        match self {
            Auxiliary::SetMapping(sm) => Clause::Binding(sm@),
            Auxiliary::Predicate(pred) => Clause::Predicate(pred@),
        }
    }
}

impl DeepView for Auxiliary {
    type V = Clause;

    open spec fn deep_view(&self) -> Clause {
        self@
    }
}

impl Auxiliary {
    pub fn is_set_mapping(&self) -> (b: bool)
        ensures
            b == (self@ is Binding),
    {
        match self {
            Auxiliary::SetMapping(_) => true,
            Auxiliary::Predicate(_) => false,
        }
    }

    pub fn is_predicate(&self) -> (b: bool)
        ensures
            b == (self@ is Predicate),
    {
        match self {
            Auxiliary::SetMapping(_) => false,
            Auxiliary::Predicate(_) => true,
        }
    }

    /// The binding that this clause is. A predicate has none.
    pub fn into_set_mapping(self) -> (sm: SetMapping)
        requires
            self@ is Binding,
        ensures
            self@ == Clause::Binding(sm@),
    {
        match self {
            Auxiliary::SetMapping(sm) => sm,
            Auxiliary::Predicate(_) => {
                proof {
                    assert(false);
                }
                SetMapping { name: String::new(), set: String::new() }
            },
        }
    }

    /// The condition that this clause is. A binding has none.
    pub fn into_predicate(self) -> (pred: String)
        requires
            self@ is Predicate,
        ensures
            self@ == Clause::Predicate(pred@),
    {
        match self {
            Auxiliary::Predicate(pred) => pred,
            Auxiliary::SetMapping(_) => {
                proof {
                    assert(false);
                }
                String::new()
            },
        }
    }
}

/// A parsed input: a literal list, or an output expression with its clauses
/// in source order.
#[derive(Clone, Debug, PartialEq, Eq)]
pub enum SetBuilderInput {
    Enum { exprs: Vec<String> },
    Full { map: String, auxiliary: Vec<Auxiliary> },
}

/// The model of a [`SetBuilderInput`].
pub enum Input {
    Enum { exprs: Seq<Seq<char>> },
    Full { map: Seq<char>, auxiliary: Seq<Clause> },
}

impl View for SetBuilderInput {
    type V = Input;

    open spec fn view(&self) -> Input {
        match self {
            SetBuilderInput::Enum { exprs } => Input::Enum { exprs: exprs.deep_view() },
            SetBuilderInput::Full { map, auxiliary } => Input::Full {
                map: map@,
                auxiliary: auxiliary.deep_view(),
            },
        }
    }
}

} // verus!
