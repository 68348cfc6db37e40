//! Strict validation: the names that the caller declares against the names
//! that the clauses bind.
//!
//! The check goes by the names alone. It can be made where every binding binds
//! a plain identifier; what a destructuring pattern binds, or what an
//! expression uses, is not looked into.

use vstd::prelude::*;
use crate::clause::{Auxiliary, Clause, Input, SetBuilderInput};
use crate::error::{outcome, Failure, SetError};
use crate::pipeline::bound_names;
use crate::text::{identifier, is_identifier};

verus! {

/// The first of `wanted`, in its order, that is not among `have`.
pub open spec fn first_missing(wanted: Seq<Seq<char>>, have: Seq<Seq<char>>) -> Option<
    Seq<char>,
>
    decreases wanted.len(),
{
    if wanted.len() == 0 {
        None
    } else if !have.contains(wanted[0]) {
        Some(wanted[0])
    } else {
        first_missing(wanted.skip(1), have)
    }
}

/// The first of `names`, from the place `from` on, that stands at an earlier
/// place too.
pub open spec fn first_repeated(names: Seq<Seq<char>>, from: int) -> Option<Seq<char>>
    decreases names.len() - from,
{
    if from < 0 || from >= names.len() {
        None
    } else if names.take(from).contains(names[from]) {
        Some(names[from])
    } else {
        first_repeated(names, from + 1)
    }
}

/// The verdict on the names: every declared name must be bound, every bound
/// name declared, and no name bound twice. The first rule that is broken, in
/// this order, gives the error, for the first name that breaks it.
pub open spec fn verdict(declared: Seq<Seq<char>>, bound: Seq<Seq<char>>) -> Result<(), Failure> {
    match first_missing(declared, bound) {
        Some(name) => Err(Failure::Unbound { name: name }),
        None => match first_missing(bound, declared) {
            Some(name) => Err(Failure::Unused { name: name }),
            None => match first_repeated(bound, 0) {
                Some(name) => Err(Failure::Redeclared { name: name }),
                None => Ok(()),
            },
        },
    }
}

/// Every name is a plain identifier.
pub open spec fn all_plain(names: Seq<Seq<char>>) -> bool {
    forall|i: int| 0 <= i < names.len() ==> identifier(#[trigger] names[i])
}

/// The verdict on an input. A literal list binds nothing and passes. A
/// comprehension is checked where `declared` is given and every binding binds
/// a plain identifier; else it passes unchecked.
pub open spec fn validated(input: Input, declared: Option<Seq<Seq<char>>>) -> Result<
    (),
    Failure,
> {
    match (input, declared) {
        (Input::Full { map, auxiliary }, Some(names)) => {
            let bound = bound_names(auxiliary, auxiliary.len() as int);
            if all_plain(bound) {
                verdict(names, bound)
            } else {
                Ok(())
            }
        },
        _ => Ok(()),
    }
}

proof fn lemma_first_missing(wanted: Seq<Seq<char>>, have: Seq<Seq<char>>)
    ensures
        match first_missing(wanted, have) {
            Some(name) => wanted.contains(name) && !have.contains(name),
            None => forall|i: int| 0 <= i < wanted.len() ==> have.contains(#[trigger] wanted[i]),
        },
    decreases wanted.len(),
{
    if wanted.len() > 0 {
        if have.contains(wanted[0]) {
            let tail = wanted.skip(1);
            lemma_first_missing(tail, have);
            match first_missing(tail, have) {
                Some(name) => {
                    let k = choose|k: int| 0 <= k < tail.len() && tail[k] == name;
                    assert(wanted[k + 1] == name);
                },
                None => {
                    assert forall|i: int| 0 <= i < wanted.len() implies have.contains(
                        #[trigger] wanted[i],
                    ) by {
                        if i > 0 {
                            assert(tail[i - 1] == wanted[i]);
                        }
                    }
                },
            }
        } else {
            assert(wanted[0] == wanted[0]);
        }
    }
}

proof fn lemma_first_repeated(names: Seq<Seq<char>>, from: int)
    requires
        0 <= from,
    ensures
        match first_repeated(names, from) {
            Some(name) => exists|j: int|
                from <= j < names.len() && #[trigger] names[j] == name && names.take(j).contains(
                    name,
                ),
            None => forall|j: int|
                from <= j < names.len() ==> !names.take(j).contains(#[trigger] names[j]),
        },
    decreases names.len() - from,
{
    if from < names.len() {
        if names.take(from).contains(names[from]) {
            assert(names[from] == names[from]);
        } else {
            lemma_first_repeated(names, from + 1);
        }
    }
}

/// The verdict is `Ok` where the declared names and the bound names are the
/// same names and no name is bound twice, and there only. An error names a
/// name that breaks the rule it stands for.
pub proof fn law_verdict(declared: Seq<Seq<char>>, bound: Seq<Seq<char>>)
    ensures
        verdict(declared, bound) is Ok <==> {
            &&& forall|i: int| 0 <= i < declared.len() ==> bound.contains(#[trigger] declared[i])
            &&& forall|i: int| 0 <= i < bound.len() ==> declared.contains(#[trigger] bound[i])
            &&& bound.no_duplicates()
        },
        verdict(declared, bound) matches Err(Failure::Unbound { name }) ==> declared.contains(name)
            && !bound.contains(name),
        verdict(declared, bound) matches Err(Failure::Unused { name }) ==> bound.contains(name)
            && !declared.contains(name),
        verdict(declared, bound) matches Err(Failure::Redeclared { name }) ==> exists|
            i: int,
            j: int,
        | 0 <= i < j < bound.len() && bound[i] == name && bound[j] == name,
{
    lemma_first_missing(declared, bound);
    lemma_first_missing(bound, declared);
    lemma_first_repeated(bound, 0);
    match first_missing(declared, bound) {
        Some(name) => {
            let k = choose|k: int| 0 <= k < declared.len() && declared[k] == name;
            assert(!bound.contains(declared[k]));
        },
        None => match first_missing(bound, declared) {
            Some(name) => {
                let k = choose|k: int| 0 <= k < bound.len() && bound[k] == name;
                assert(!declared.contains(bound[k]));
            },
            None => match first_repeated(bound, 0) {
                Some(name) => {
                    let j = choose|j: int|
                        0 <= j < bound.len() && #[trigger] bound[j] == name && bound.take(
                            j,
                        ).contains(name);
                    let i = choose|i: int| 0 <= i < bound.take(j).len() && bound.take(j)[i] == name;
                    assert(bound[i] == name && bound[j] == name && i < j);
                },
                None => {
                    assert forall|i: int, j: int|
                        0 <= i < bound.len() && 0 <= j < bound.len() && i != j implies bound[i]
                        != bound[j] by {
                        if i < j {
                            assert(bound.take(j)[i] == bound[i]);
                        } else {
                            assert(bound.take(i)[j] == bound[j]);
                        }
                    }
                },
            },
        },
    }
}

/// Tells whether `name` stands among the first `upto` of `names`.
fn stands_before(names: &Vec<String>, upto: usize, name: &String) -> (found: bool)
    requires
        upto <= names.len(),
    ensures
        found == names.deep_view().take(upto as int).contains(name@),
{
    let ghost seen = names.deep_view().take(upto as int);
    let mut j: usize = 0;
    while j < upto
        invariant
            j <= upto <= names.len(),
            seen == names.deep_view().take(upto as int),
            forall|k: int| 0 <= k < j ==> seen[k] != name@,
        decreases upto - j,
    {
        if names[j] == *name {
            assert(seen[j as int] == name@);
            return true;
        }
        j += 1;
    }
    false
}

/// Finds the first of `wanted` that is not among `have`.
fn find_missing(wanted: &Vec<String>, have: &Vec<String>) -> (missing: Option<String>)
    ensures
        missing.deep_view() == first_missing(wanted.deep_view(), have.deep_view()),
{
    let ghost all = wanted.deep_view();
    let mut i: usize = 0;
    assert(all.skip(0) =~= all);
    while i < wanted.len()
        invariant
            i <= wanted.len(),
            all == wanted.deep_view(),
            first_missing(all, have.deep_view()) == first_missing(
                all.skip(i as int),
                have.deep_view(),
            ),
        decreases wanted.len() - i,
    {
        proof {
            assert(all.skip(i as int)[0] == wanted[i as int]@);
            assert(all.skip(i as int).skip(1) =~= all.skip(i + 1));
            assert(have.deep_view().take(have.len() as int) =~= have.deep_view());
        }
        if !stands_before(have, have.len(), &wanted[i]) {
            return Some(wanted[i].clone());
        }
        i += 1;
    }
    None
}

/// Finds the first of `names` that stands at an earlier place too.
fn find_repeated(names: &Vec<String>) -> (repeated: Option<String>)
    ensures
        repeated.deep_view() == first_repeated(names.deep_view(), 0),
{
    let mut i: usize = 0;
    while i < names.len()
        invariant
            i <= names.len(),
            first_repeated(names.deep_view(), 0) == first_repeated(names.deep_view(), i as int),
        decreases names.len() - i,
    {
        if stands_before(names, i, &names[i]) {
            return Some(names[i].clone());
        }
        i += 1;
    }
    None
}

/// Checks the declared names against the bound names.
pub fn validate(declared: &Vec<String>, bound: &Vec<String>) -> (checked: Result<(), SetError>)
    ensures
        outcome(checked) == verdict(declared.deep_view(), bound.deep_view()),
{
    if let Some(name) = find_missing(declared, bound) {
        return Err(SetError::Unbound { name });
    }
    if let Some(name) = find_missing(bound, declared) {
        return Err(SetError::Unused { name });
    }
    if let Some(name) = find_repeated(bound) {
        return Err(SetError::Redeclared { name });
    }
    Ok(())
}

/// The names that the clauses bind, in binding order.
pub fn binding_names(auxiliary: &Vec<Auxiliary>) -> (names: Vec<String>)
    ensures
        names.deep_view() == bound_names(auxiliary.deep_view(), auxiliary.len() as int),
{
    let ghost clauses = auxiliary.deep_view();
    let mut names: Vec<String> = Vec::new();
    let mut i: usize = 0;
    assert(names.deep_view() =~= bound_names(clauses, 0));
    while i < auxiliary.len()
        invariant
            i <= auxiliary.len(),
            clauses == auxiliary.deep_view(),
            names.deep_view() == bound_names(clauses, i as int),
        decreases auxiliary.len() - i,
    {
        let ghost before = names.deep_view();
        assert(clauses[i as int] == auxiliary[i as int]@);
        match &auxiliary[i] {
            Auxiliary::SetMapping(sm) => {
                names.push(sm.name.clone());
                assert(names.deep_view() =~= before.push(sm.name@));
            },
            Auxiliary::Predicate(_) => {},
        }
        i += 1;
    }
    names
}

/// Tells whether every name is a plain identifier.
pub fn are_plain(names: &Vec<String>) -> (plain: bool)
    ensures
        plain == all_plain(names.deep_view()),
{
    let mut i: usize = 0;
    while i < names.len()
        invariant
            i <= names.len(),
            forall|j: int| 0 <= j < i ==> identifier(#[trigger] names.deep_view()[j]),
        decreases names.len() - i,
    {
        if !is_identifier(names[i].as_str()) {
            assert(names.deep_view()[i as int] == names[i as int]@);
            return false;
        }
        assert(names.deep_view()[i as int] == names[i as int]@);
        i += 1;
    }
    true
}

/// Validates an input against the names that the caller declares.
pub fn check(input: &SetBuilderInput, declared: &Vec<String>) -> (checked: Result<(), SetError>)
    ensures
        outcome(checked) == validated(input@, Some(declared.deep_view())),
{
    match input {
        SetBuilderInput::Enum { exprs } => Ok(()),
        SetBuilderInput::Full { map, auxiliary } => {
            let bound = binding_names(auxiliary);
            if are_plain(&bound) {
                validate(declared, &bound)
            } else {
                Ok(())
            }
        },
    }
}

} // verus!
