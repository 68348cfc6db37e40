//! Reading an input: which of the two forms it has, and its clauses.
//!
//! The input is read as text, front to back. Where an expression or a pattern
//! of the host language ends is asked of the host's own parser; the fragment
//! that it read is the text before what it left. An attempt that fails has
//! read nothing: the next one starts from the same text.

use vstd::prelude::*;
use crate::clause::{Auxiliary, Binding, Clause, Input, SetBuilderInput, SetMapping};
use crate::error::{outcome, Failure, SetError};
use crate::host::{
    canonical,
    canonical_text,
    expression_rest,
    literal_ahead,
    literal_leads,
    pattern_rest,
    rest_after_expression,
    rest_after_pattern,
};
use crate::text::{
    after_symbol,
    before_rest,
    lemma_after_symbol_len,
    split_off_rest,
    strip_symbol,
};

verus! {

/// The expression at the front of `text` and what follows it.
pub open spec fn expression_at(text: Seq<char>) -> Option<(Seq<char>, Seq<char>)> {
    match expression_rest(text) {
        Some(rest) => match before_rest(text, rest) {
            Some(fragment) => Some((fragment, rest)),
            None => None,
        },
        None => None,
    }
}

/// The pattern at the front of `text` and what follows it.
pub open spec fn pattern_at(text: Seq<char>) -> Option<(Seq<char>, Seq<char>)> {
    match pattern_rest(text) {
        Some(rest) => match before_rest(text, rest) {
            Some(fragment) => Some((fragment, rest)),
            None => None,
        },
        None => None,
    }
}

/// The binding `pattern <- expression` at the front of `text` and what
/// follows it.
pub open spec fn binding_at(text: Seq<char>) -> Option<(Binding, Seq<char>)> {
    match pattern_at(text) {
        Some((name, arrow)) => match after_symbol(arrow, "<-"@) {
            Some(source) => match expression_at(source) {
                Some((set, rest)) => Some((Binding { name: name, set: set }, rest)),
                None => None,
            },
            None => None,
        },
        None => None,
    }
}

/// The clause at the front of `text` and what follows it: a binding where
/// there is one, else a predicate.
pub open spec fn clause_at(text: Seq<char>) -> Option<(Clause, Seq<char>)> {
    match binding_at(text) {
        Some((binding, rest)) => Some((Clause::Binding(binding), rest)),
        None => match expression_at(text) {
            Some((condition, rest)) => Some((Clause::Predicate(condition), rest)),
            None => None,
        },
    }
}

/// A clause leaves less than it was read from.
pub proof fn lemma_clause_shortens(text: Seq<char>)
    ensures
        expression_at(text) matches Some((_, rest)) ==> rest.len() < text.len(),
        pattern_at(text) matches Some((_, rest)) ==> rest.len() < text.len(),
        binding_at(text) matches Some((_, rest)) ==> rest.len() < text.len(),
        clause_at(text) matches Some((_, rest)) ==> rest.len() < text.len(),
{
    if let Some((name, arrow)) = pattern_at(text) {
        lemma_after_symbol_len(arrow, "<-"@);
    }
}

/// The clauses that `text` holds, separated by commas; after the last one a
/// comma may stand.
pub open spec fn clauses_from(text: Seq<char>) -> Result<Seq<Clause>, Failure>
    decreases text.len(),
    via clauses_from_decreases
{
    if text.len() == 0 {
        Ok(Seq::empty())
    } else {
        match clause_at(text) {
            None => Err(Failure::Clause { rest: text }),
            Some((clause, rest)) => if rest.len() == 0 {
                Ok(seq![clause])
            } else {
                match after_symbol(rest, ","@) {
                    None => Err(Failure::Comma { rest: rest }),
                    Some(next) => match clauses_from(next) {
                        Ok(more) => Ok(seq![clause] + more),
                        Err(failure) => Err(failure),
                    },
                }
            },
        }
    }
}

#[via_fn]
proof fn clauses_from_decreases(text: Seq<char>) {
    lemma_clause_shortens(text);
    if let Some((clause, rest)) = clause_at(text) {
        lemma_after_symbol_len(rest, ","@);
    }
}

/// The elements of a literal list that `text` holds, separated by commas;
/// after the last one a comma may stand.
pub open spec fn elements_from(text: Seq<char>) -> Result<Seq<Seq<char>>, Failure>
    decreases text.len(),
    via elements_from_decreases
{
    if text.len() == 0 {
        Ok(Seq::empty())
    } else {
        match expression_at(text) {
            None => Err(Failure::Element { rest: text }),
            Some((element, rest)) => if rest.len() == 0 {
                Ok(seq![element])
            } else {
                match after_symbol(rest, ","@) {
                    None => Err(Failure::Comma { rest: rest }),
                    Some(next) => match elements_from(next) {
                        Ok(more) => Ok(seq![element] + more),
                        Err(failure) => Err(failure),
                    },
                }
            },
        }
    }
}

#[via_fn]
proof fn elements_from_decreases(text: Seq<char>) {
    lemma_clause_shortens(text);
    if let Some((element, rest)) = expression_at(text) {
        lemma_after_symbol_len(rest, ","@);
    }
}

/// The form of a text: a literal list where it is empty or begins with a
/// literal, else a comprehension.
pub open spec fn is_enumeration(text: Seq<char>) -> bool {
    text.len() == 0 || literal_leads(text) == Some(true)
}

/// What a text in canonical form is read as.
///
/// A comprehension is its output expression, the separator `:` and its
/// clauses. Where no expression can be read, or no `:` follows it, the
/// separator is what is missed.
pub open spec fn read(text: Seq<char>) -> Result<Input, Failure> {
    if is_enumeration(text) {
        match elements_from(text) {
            Ok(exprs) => Ok(Input::Enum { exprs: exprs }),
            Err(failure) => Err(failure),
        }
    } else {
        match expression_at(text) {
            None => Err(Failure::Separator { rest: text }),
            Some((map, rest)) => match after_symbol(rest, ":"@) {
                None => Err(Failure::Separator { rest: rest }),
                Some(body) => match clauses_from(body) {
                    Ok(auxiliary) => Ok(Input::Full { map: map, auxiliary: auxiliary }),
                    Err(failure) => Err(failure),
                },
            },
        }
    }
}

/// What an input is read as.
pub open spec fn parsed(input: Seq<char>) -> Result<Input, Failure> {
    match canonical_text(input) {
        None => Err(Failure::Lex),
        Some(text) => read(text),
    }
}

/// A literal list without elements is read from the empty text and from no
/// other.
pub proof fn law_empty_list_is_empty_text(text: Seq<char>)
    ensures
        read(text) == Ok::<Input, Failure>(Input::Enum { exprs: Seq::empty() }) <==> text.len()
            == 0,
{
    if text.len() > 0 && is_enumeration(text) {
        if let Some((element, rest)) = expression_at(text) {
            if rest.len() > 0 {
                if let Some(next) = after_symbol(rest, ","@) {
                    if let Ok(more) = elements_from(next) {
                        assert((seq![element] + more).len() > 0);
                    }
                }
            }
        }
    }
    if text.len() == 0 {
        assert(elements_from(text) == Ok::<Seq<Seq<char>>, Failure>(Seq::empty()));
    }
}

/// `more` behind the items read so far.
spec fn behind<A>(items: Seq<A>, more: Result<Seq<A>, Failure>) -> Result<
    Seq<A>,
    Failure,
> {
    match more {
        Ok(rest) => Ok(items + rest),
        Err(failure) => Err(failure),
    }
}

/// Reads one expression off the front of `text`, and gives it with what
/// follows. The text is taken in canonical form: what the host's parser leaves
/// is printed in that form, and nothing is read where that is not the end of
/// `text`.
pub fn take_expression(text: &str) -> (taken: Option<(String, String)>)
    ensures
        taken.deep_view() == expression_at(text@),
{
    match rest_after_expression(text) {
        Some(rest) => match split_off_rest(text, rest.as_str()) {
            Some(fragment) => Some((fragment, rest)),
            None => None,
        },
        None => None,
    }
}

/// Reads one pattern off the front of `text`, and gives it with what follows.
/// The text is taken in canonical form, as for an expression.
pub fn take_pattern(text: &str) -> (taken: Option<(String, String)>)
    ensures
        taken.deep_view() == pattern_at(text@),
{
    match rest_after_pattern(text) {
        Some(rest) => match split_off_rest(text, rest.as_str()) {
            Some(fragment) => Some((fragment, rest)),
            None => None,
        },
        None => None,
    }
}

impl SetMapping {
    /// Reads a binding `pattern <- expression` off the front of `text`, and
    /// gives it with what follows. The attempt is all or nothing.
    pub fn parse(text: &str) -> (taken: Option<(SetMapping, String)>)
        ensures
            taken.deep_view() == binding_at(text@),
    {
        let (name, arrow) = match take_pattern(text) {
            Some(taken) => taken,
            None => {
                return None;
            },
        };
        let source = match strip_symbol(arrow.as_str(), "<-") {
            Some(source) => source,
            None => {
                return None;
            },
        };
        match take_expression(source.as_str()) {
            Some((set, rest)) => Some((SetMapping { name, set }, rest)),
            None => None,
        }
    }
}

impl Auxiliary {
    /// Reads a clause off the front of `text`, and gives it with what
    /// follows: a binding where one can be read, else a predicate.
    pub fn parse(text: &str) -> (taken: Option<(Auxiliary, String)>)
        ensures
            taken.deep_view() == clause_at(text@),
    {
        match SetMapping::parse(text) {
            Some((binding, rest)) => Some((Auxiliary::SetMapping(binding), rest)),
            None => match take_expression(text) {
                Some((condition, rest)) => Some((Auxiliary::Predicate(condition), rest)),
                None => None,
            },
        }
    }
}

/// Reads the clauses of a comprehension: all of `body`, or an error.
pub fn parse_clauses(body: String) -> (clauses: Result<Vec<Auxiliary>, SetError>)
    ensures
        outcome(clauses) == clauses_from(body@),
{
    let ghost whole = body@;
    let mut text = body;
    let mut clauses: Vec<Auxiliary> = Vec::new();
    assert(clauses.deep_view() + Seq::<Clause>::empty() =~= Seq::<Clause>::empty());
    while !text.as_str().is_empty()
        invariant
            whole == body@,
            clauses_from(whole) == behind(clauses.deep_view(), clauses_from(text@)),
        decreases text@.len(),
    {
        let ghost here = text@;
        let ghost read = clauses.deep_view();
        let (clause, rest) = match Auxiliary::parse(text.as_str()) {
            Some(taken) => taken,
            None => {
                return Err(SetError::Clause { rest: text });
            },
        };
        proof {
            lemma_clause_shortens(here);
            lemma_after_symbol_len(rest@, ","@);
        }
        clauses.push(clause);
        assert(clauses.deep_view() =~= read.push(clause@));
        if rest.as_str().is_empty() {
            assert(read + seq![clause@] =~= read.push(clause@));
            return Ok(clauses);
        }
        match strip_symbol(rest.as_str(), ",") {
            Some(next) => {
                proof {
                    if let Ok(more) = clauses_from(next@) {
                        assert(read + (seq![clause@] + more) =~= read.push(clause@) + more);
                    }
                }
                text = next;
            },
            None => {
                return Err(SetError::Comma { rest });
            },
        }
    }
    assert(clauses.deep_view() + Seq::<Clause>::empty() =~= clauses.deep_view());
    Ok(clauses)
}

/// Reads the elements of a literal list: all of `list`, or an error.
pub fn parse_elements(list: String) -> (exprs: Result<Vec<String>, SetError>)
    ensures
        outcome(exprs) == elements_from(list@),
{
    let ghost whole = list@;
    let mut text = list;
    let mut exprs: Vec<String> = Vec::new();
    assert(exprs.deep_view() + Seq::<Seq<char>>::empty() =~= Seq::<Seq<char>>::empty());
    while !text.as_str().is_empty()
        invariant
            whole == list@,
            elements_from(whole) == behind(exprs.deep_view(), elements_from(text@)),
        decreases text@.len(),
    {
        let ghost here = text@;
        let ghost read = exprs.deep_view();
        let (element, rest) = match take_expression(text.as_str()) {
            Some(taken) => taken,
            None => {
                return Err(SetError::Element { rest: text });
            },
        };
        proof {
            lemma_clause_shortens(here);
            lemma_after_symbol_len(rest@, ","@);
        }
        let ghost fragment = element@;
        exprs.push(element);
        assert(exprs.deep_view() =~= read.push(fragment));
        if rest.as_str().is_empty() {
            assert(read + seq![fragment] =~= read.push(fragment));
            return Ok(exprs);
        }
        match strip_symbol(rest.as_str(), ",") {
            Some(next) => {
                proof {
                    if let Ok(more) = elements_from(next@) {
                        assert(read + (seq![fragment] + more) =~= read.push(fragment) + more);
                    }
                }
                text = next;
            },
            None => {
                return Err(SetError::Comma { rest });
            },
        }
    }
    assert(exprs.deep_view() + Seq::<Seq<char>>::empty() =~= exprs.deep_view());
    Ok(exprs)
}

impl DeepView for SetBuilderInput {
    type V = Input;

    open spec fn deep_view(&self) -> Input {
        self@
    }
}

/// Reads a text in canonical form: decides the form by its first token, once,
/// and reads it as that.
pub fn read_canonical(text: String) -> (input: Result<SetBuilderInput, SetError>)
    ensures
        outcome(input) == read(text@),
{
    let literal = if text.as_str().is_empty() {
        true
    } else {
        match literal_ahead(text.as_str()) {
            Some(leads) => leads,
            None => false,
        }
    };
    if literal {
        match parse_elements(text) {
            Ok(exprs) => Ok(SetBuilderInput::Enum { exprs }),
            Err(error) => Err(error),
        }
    } else {
        let (map, rest) = match take_expression(text.as_str()) {
            Some(taken) => taken,
            None => {
                return Err(SetError::Separator { rest: text });
            },
        };
        let body = match strip_symbol(rest.as_str(), ":") {
            Some(body) => body,
            None => {
                return Err(SetError::Separator { rest });
            },
        };
        match parse_clauses(body) {
            Ok(auxiliary) => Ok(SetBuilderInput::Full { map, auxiliary }),
            Err(error) => Err(error),
        }
    }
}

impl SetBuilderInput {
    /// Reads an input.
    pub fn parse(input: &str) -> (read: Result<SetBuilderInput, SetError>)
        ensures
            outcome(read) == parsed(input@),
            input@.len() == 0 ==> outcome(read) == Ok::<Input, Failure>(
                Input::Enum { exprs: Seq::empty() },
            ),
    {
        match canonical(input) {
            Some(text) => read_canonical(text),
            None => Err(SetError::Lex),
        }
    }
}

} // verus!
