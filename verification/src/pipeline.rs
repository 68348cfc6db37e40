//! The pipeline that a comprehension is folded into, and the code that is
//! written for it.
//!
//! The clauses are folded left to right. Each binding after the first becomes
//! an expansion stage, each predicate a filter stage that stands directly
//! behind the last binding before it, and the output expression the closing
//! map. The names bound so far travel with the fold as a [`NameTuple`]: every
//! stage destructures its input by them.

use vstd::prelude::*;
use crate::clause::{Auxiliary, Clause, Input, SetBuilderInput, SetMapping};

verus! {

/// The names bound so far, in binding order, each followed by `", "`.
pub open spec fn names_list(names: Seq<Seq<char>>) -> Seq<char>
    decreases names.len(),
{
    if names.len() == 0 {
        Seq::empty()
    } else {
        names_list(names.drop_last()) + names.last() + ", "@
    }
}

/// The group pattern of all names bound so far.
pub open spec fn tuple_text(names: Seq<Seq<char>>) -> Seq<char> {
    "("@ + names_list(names) + ")"@
}

/// The pattern by which a stage takes its input: nothing is bound, so the
/// input is ignored; one name stands alone; more are grouped.
pub open spec fn input_pattern(names: Seq<Seq<char>>) -> Seq<char> {
    if names.len() == 0 {
        "_"@
    } else if names.len() == 1 {
        names[0]
    } else {
        tuple_text(names)
    }
}

/// The name bound last, by which an expansion stage takes and repeats the
/// value that it pairs.
pub open spec fn outer_name(names: Seq<Seq<char>>) -> Seq<char> {
    if names.len() == 0 {
        "_"@
    } else {
        names.last()
    }
}

/// A source expression as a lazy sequence.
pub open spec fn source_text(set: Seq<char>) -> Seq<char> {
    "("@ + set + ").into_iter()"@
}

/// The placeholder that a pipeline without bindings runs on: one value, which
/// every stage ignores.
pub open spec fn unit_text() -> Seq<char> {
    "::core::iter::once(())"@
}

/// A filter stage over the names in `bound`.
pub open spec fn filter_text(bound: Seq<Seq<char>>, condition: Seq<char>) -> Seq<char> {
    ".filter(| "@ + input_pattern(bound) + " | "@ + condition + ")"@
}

/// An expansion stage: each value that came so far is repeated once for every
/// element of `set` and paired with it. Behind the second binding the pairs are
/// what the next stage takes; behind a later one each pair is flattened again,
/// so that the names stay one group.
pub open spec fn expand_text(bound: Seq<Seq<char>>, set: Seq<char>) -> Seq<char> {
    let paired = ".flat_map(| "@ + outer_name(bound) + " | { ::core::iter::repeat("@ + outer_name(
        bound,
    ) + ").zip("@ + source_text(set) + ")"@;
    if bound.len() <= 1 {
        paired + " })"@
    } else {
        paired + ".map(| ("@ + tuple_text(bound) + ", new) | ("@ + names_list(bound)
            + "new)) })"@
    }
}

/// The closing stage, which evaluates the output expression.
pub open spec fn map_text(bound: Seq<Seq<char>>, output: Seq<char>) -> Seq<char> {
    ".map(| "@ + input_pattern(bound) + " | "@ + output + ")"@
}

/// The elements of a literal list, separated by `", "`.
pub open spec fn joined(exprs: Seq<Seq<char>>) -> Seq<char>
    decreases exprs.len(),
{
    if exprs.len() == 0 {
        Seq::empty()
    } else if exprs.len() == 1 {
        exprs[0]
    } else {
        joined(exprs.drop_last()) + ", "@ + exprs.last()
    }
}

/// The fixed sequence that a literal list stands for.
pub open spec fn array_text(exprs: Seq<Seq<char>>) -> Seq<char> {
    "["@ + joined(exprs) + "]"@
}

/// The ordered names bound while the clauses are folded. It grows by one name,
/// or one pattern, per binding clause; predicates only read it.
#[derive(Debug, PartialEq, Eq)]
pub struct NameTuple {
    pub names: Vec<String>,
}

impl View for NameTuple {
    type V = Seq<Seq<char>>;

    open spec fn view(&self) -> Seq<Seq<char>> {
        self.names.deep_view()
    }
}

impl DeepView for NameTuple {
    type V = Seq<Seq<char>>;

    open spec fn deep_view(&self) -> Seq<Seq<char>> {
        self@
    }
}

impl NameTuple {
    /// No name is bound yet.
    pub fn new() -> (t: NameTuple)
        ensures
            t@ == Seq::<Seq<char>>::empty(),
    {
        let t = NameTuple { names: Vec::new() };
        assert(t@ =~= Seq::<Seq<char>>::empty());
        t
    }

    /// How many names are bound.
    pub fn len(&self) -> (n: usize)
        ensures
            n == self@.len(),
    {
        self.names.len()
    }

    /// Binds one more name behind those bound so far.
    pub fn bind(&mut self, name: &String)
        ensures
            final(self)@ == old(self)@.push(name@),
    {
        self.names.push(name.clone());
        assert(self@ =~= old(self)@.push(name@));
    }

    /// A copy of the names as they stand.
    pub fn snapshot(&self) -> (t: NameTuple)
        ensures
            t@ == self@,
    {
        let mut t = NameTuple::new();
        let mut i: usize = 0;
        while i < self.names.len()
            invariant
                i <= self.names.len(),
                t@ == self@.take(i as int),
            decreases self.names.len() - i,
        {
            t.bind(&self.names[i]);
            assert(self@.take(i + 1) =~= self@.take(i as int).push(self.names[i as int]@));
            i += 1;
        }
        assert(self@.take(self.names.len() as int) =~= self@);
        t
    }

    /// The names, each followed by a comma.
    pub fn list(&self) -> (text: String)
        ensures
            text@ == names_list(self@),
    {
        let mut text = String::new();
        let mut i: usize = 0;
        while i < self.names.len()
            invariant
                i <= self.names.len(),
                text@ == names_list(self@.take(i as int)),
            decreases self.names.len() - i,
        {
            proof {
                let next = self@.take(i + 1);
                assert(next.drop_last() =~= self@.take(i as int));
                assert(next.last() == self.names[i as int]@);
            }
            text.append(self.names[i].as_str());
            text.append(", ");
            i += 1;
        }
        assert(self@.take(self.names.len() as int) =~= self@);
        text
    }

    /// The group pattern of the names.
    pub fn tuple(&self) -> (text: String)
        ensures
            text@ == tuple_text(self@),
    {
        let mut text = "(".to_owned();
        text.append(self.list().as_str());
        text.append(")");
        text
    }

    /// The pattern by which a stage takes its input. A single name is not
    /// wrapped into a group.
    pub fn pattern(&self) -> (text: String)
        ensures
            text@ == input_pattern(self@),
    {
        if self.names.len() == 0 {
            "_".to_owned()
        } else if self.names.len() == 1 {
            self.names[0].clone()
        } else {
            self.tuple()
        }
    }

    /// The name bound last.
    pub fn outer(&self) -> (text: String)
        ensures
            text@ == outer_name(self@),
    {
        if self.names.len() == 0 {
            "_".to_owned()
        } else {
            self.names[self.names.len() - 1].clone()
        }
    }
}

/// One stage of the pipeline.
#[derive(Debug, PartialEq, Eq)]
pub enum Stage {
    /// The placeholder: a single value that is ignored.
    Unit,
    /// The source of the first binding, taken as it is.
    Source { set: String },
    /// Keeps the values on which `condition` holds. `ordinal` counts the
    /// predicates in source order, `bound` holds the names in scope.
    Filter { ordinal: usize, bound: NameTuple, condition: String },
    /// Pairs each value with every element of `set`. `bound` holds the names
    /// bound before this stage: there are as many as bindings before it.
    Expand { bound: NameTuple, set: String },
}

/// The model of a [`Stage`].
pub enum Step {
    Unit,
    Source { set: Seq<char> },
    Filter { ordinal: nat, bound: Seq<Seq<char>>, condition: Seq<char> },
    Expand { bound: Seq<Seq<char>>, set: Seq<char> },
}

impl View for Stage {
    type V = Step;

    open spec fn view(&self) -> Step {
        match self {
            Stage::Unit => Step::Unit,
            Stage::Source { set } => Step::Source { set: set@ },
            Stage::Filter { ordinal, bound, condition } => Step::Filter {
                ordinal: *ordinal as nat,
                bound: bound@,
                condition: condition@,
            },
            Stage::Expand { bound, set } => Step::Expand { bound: bound@, set: set@ },
        }
    }
}

impl DeepView for Stage {
    type V = Step;

    open spec fn deep_view(&self) -> Step {
        self@
    }
}

/// The code of one stage.
pub open spec fn stage_text(step: Step) -> Seq<char> {
    match step {
        Step::Unit => unit_text(),
        Step::Source { set } => source_text(set),
        Step::Filter { ordinal, bound, condition } => filter_text(bound, condition),
        Step::Expand { bound, set } => expand_text(bound, set),
    }
}

/// The code of the stages, one behind the other.
pub open spec fn stages_text(steps: Seq<Step>) -> Seq<char>
    decreases steps.len(),
{
    if steps.len() == 0 {
        Seq::empty()
    } else {
        stages_text(steps.drop_last()) + stage_text(steps.last())
    }
}

fn source_code(set: &String) -> (text: String)
    ensures
        text@ == source_text(set@),
{
    let mut text = "(".to_owned();
    text.append(set.as_str());
    text.append(").into_iter()");
    text
}

/// The code that a clause stands for where it is put into a stage.
pub open spec fn clause_text(clause: Clause) -> Seq<char> {
    match clause {
        Clause::Binding(b) => source_text(b.set),
        Clause::Predicate(condition) => condition,
    }
}

impl SetMapping {
    /// Writes the binding as code: its source as a lazy sequence. The pattern
    /// is not part of it; the stages that take the values name it.
    pub fn to_tokens(&self) -> (text: String)
        ensures
            text@ == source_text(self@.set),
    {
        source_code(&self.set)
    }
}

impl Auxiliary {
    /// Writes the clause as code: a binding as its source, a predicate as it
    /// was read.
    pub fn to_tokens(&self) -> (text: String)
        ensures
            text@ == clause_text(self@),
    {
        match self {
            Auxiliary::SetMapping(sm) => sm.to_tokens(),
            Auxiliary::Predicate(pred) => pred.clone(),
        }
    }
}

impl Stage {
    /// Writes the stage as code.
    pub fn render(&self) -> (text: String)
        ensures
            text@ == stage_text(self@),
    {
        match self {
            Stage::Unit => "::core::iter::once(())".to_owned(),
            Stage::Source { set } => source_code(set),
            Stage::Filter { ordinal, bound, condition } => {
                let mut text = ".filter(| ".to_owned();
                text.append(bound.pattern().as_str());
                text.append(" | ");
                text.append(condition.as_str());
                text.append(")");
                text
            },
            Stage::Expand { bound, set } => {
                let outer = bound.outer();
                let mut text = ".flat_map(| ".to_owned();
                text.append(outer.as_str());
                text.append(" | { ::core::iter::repeat(");
                text.append(outer.as_str());
                text.append(").zip(");
                text.append(source_code(set).as_str());
                text.append(")");
                if bound.len() <= 1 {
                    text.append(" })");
                } else {
                    text.append(".map(| (");
                    text.append(bound.tuple().as_str());
                    text.append(", new) | (");
                    text.append(bound.list().as_str());
                    text.append("new)) })");
                }
                text
            },
        }
    }
}

/// A comprehension as a pipeline: the stages in the order in which values
/// pass them, the names that the last stage hands on, and the output
/// expression that the closing map evaluates.
#[derive(Debug, PartialEq, Eq)]
pub struct Pipeline {
    pub stages: Vec<Stage>,
    pub bound: NameTuple,
    pub output: String,
}

/// The model of a [`Pipeline`].
pub struct Plan {
    pub stages: Seq<Step>,
    pub bound: Seq<Seq<char>>,
    pub output: Seq<char>,
}

impl View for Pipeline {
    type V = Plan;

    open spec fn view(&self) -> Plan {
        Plan { stages: self.stages.deep_view(), bound: self.bound@, output: self.output@ }
    }
}

/// The code of a pipeline: a block that yields the lazy sequence.
pub open spec fn pipeline_text(plan: Plan) -> Seq<char> {
    "{ #[allow(unused_variables)] "@ + stages_text(plan.stages) + map_text(
        plan.bound,
        plan.output,
    ) + " }"@
}

impl Pipeline {
    /// Writes the pipeline as code.
    pub fn render(&self) -> (text: String)
        ensures
            text@ == pipeline_text(self@),
    {
        let mut body = String::new();
        let mut i: usize = 0;
        while i < self.stages.len()
            invariant
                i <= self.stages.len(),
                body@ == stages_text(self.stages.deep_view().take(i as int)),
            decreases self.stages.len() - i,
        {
            proof {
                let next = self.stages.deep_view().take(i + 1);
                assert(next.drop_last() =~= self.stages.deep_view().take(i as int));
                assert(next.last() == self.stages[i as int]@);
            }
            body.append(self.stages[i].render().as_str());
            i += 1;
        }
        assert(self.stages.deep_view().take(self.stages.len() as int) =~= self.stages.deep_view());
        let mut text = "{ #[allow(unused_variables)] ".to_owned();
        text.append(body.as_str());
        let mut closing = ".map(| ".to_owned();
        closing.append(self.bound.pattern().as_str());
        closing.append(" | ");
        closing.append(self.output.as_str());
        closing.append(")");
        text.append(closing.as_str());
        text.append(" }");
        text
    }
}

/// The names bound by the first `n` clauses.
pub open spec fn bound_names(clauses: Seq<Clause>, n: int) -> Seq<Seq<char>>
    decreases n,
{
    if n <= 0 {
        Seq::empty()
    } else {
        let before = bound_names(clauses, n - 1);
        match clauses[n - 1] {
            Clause::Binding(b) => before.push(b.name),
            Clause::Predicate(_) => before,
        }
    }
}

/// The stages that stand once the first `n` clauses are folded.
///
/// A predicate that finds no stage yet filters the placeholder. The first
/// binding makes its source the pipeline, whatever stood before; every later
/// binding expands what stands.
pub open spec fn stages_after(clauses: Seq<Clause>, n: int) -> Seq<Step>
    decreases n,
{
    if n <= 0 {
        Seq::empty()
    } else {
        let before = stages_after(clauses, n - 1);
        let bound = bound_names(clauses, n - 1);
        match clauses[n - 1] {
            Clause::Binding(b) => if bound.len() == 0 {
                seq![Step::Source { set: b.set }]
            } else {
                before.push(Step::Expand { bound: bound, set: b.set })
            },
            Clause::Predicate(condition) => {
                let base = if before.len() == 0 {
                    seq![Step::Unit]
                } else {
                    before
                };
                base.push(
                    Step::Filter {
                        ordinal: (n - 1 - bound.len()) as nat,
                        bound: bound,
                        condition: condition,
                    },
                )
            },
        }
    }
}

/// The pipeline of a comprehension. Without any clause it is the placeholder
/// alone.
pub open spec fn lowered(output: Seq<char>, clauses: Seq<Clause>) -> Plan {
    let stages = stages_after(clauses, clauses.len() as int);
    Plan {
        stages: if stages.len() == 0 {
            seq![Step::Unit]
        } else {
            stages
        },
        bound: bound_names(clauses, clauses.len() as int),
        output: output,
    }
}

/// No more names are bound than clauses were folded.
proof fn lemma_bound_names_len(clauses: Seq<Clause>, n: int)
    requires
        0 <= n,
    ensures
        bound_names(clauses, n).len() <= n,
    decreases n,
{
    if n > 0 {
        lemma_bound_names_len(clauses, n - 1);
    }
}

impl Plan {
    /// The pipeline is one that clauses fold into. It begins with the
    /// placeholder or with a source, and every other stage filters or expands.
    /// A stage takes the names bound before it, which are the first of the
    /// names that the closing map takes; an expansion takes one at least, and
    /// adds one. On the placeholder nothing is bound.
    pub open spec fn well_formed(self) -> bool {
        &&& self.stages.len() >= 1
        &&& self.stages[0] is Unit || self.stages[0] is Source
        &&& self.stages[0] is Unit ==> self.bound.len() == 0
        &&& self.stages[0] is Source ==> self.bound.len() >= 1
        &&& forall|i: int|
            1 <= i < self.stages.len() ==> match #[trigger] self.stages[i] {
                Step::Filter { ordinal, bound, condition } => {
                    &&& bound.len() <= self.bound.len()
                    &&& bound == self.bound.take(bound.len() as int)
                },
                Step::Expand { bound, set } => {
                    &&& 1 <= bound.len() < self.bound.len()
                    &&& bound == self.bound.take(bound.len() as int)
                },
                _ => false,
            }
    }
}

proof fn lemma_fold_is_well_formed(clauses: Seq<Clause>, n: int)
    requires
        0 <= n <= clauses.len(),
    ensures
        stages_after(clauses, n).len() == 0 ==> bound_names(clauses, n).len() == 0,
        stages_after(clauses, n).len() > 0 ==> (Plan {
            stages: stages_after(clauses, n),
            bound: bound_names(clauses, n),
            output: Seq::empty(),
        }).well_formed(),
    decreases n,
{
    if n > 0 {
        lemma_fold_is_well_formed(clauses, n - 1);
        let before = stages_after(clauses, n - 1);
        let bound = bound_names(clauses, n - 1);
        let stages = stages_after(clauses, n);
        let names = bound_names(clauses, n);
        assert(bound =~= names.take(bound.len() as int));
        assert forall|i: int| 1 <= i < stages.len() implies match #[trigger] stages[i] {
            Step::Filter { ordinal, bound, condition } => {
                &&& bound.len() <= names.len()
                &&& bound == names.take(bound.len() as int)
            },
            Step::Expand { bound, set } => {
                &&& 1 <= bound.len() < names.len()
                &&& bound == names.take(bound.len() as int)
            },
            _ => false,
        } by {
            if i < before.len() && before.len() + 1 == stages.len() {
                assert(stages[i] == before[i]);
                match before[i] {
                    Step::Filter { ordinal, bound: taken, condition } => {
                        assert(taken =~= names.take(taken.len() as int));
                    },
                    Step::Expand { bound: taken, set } => {
                        assert(taken =~= names.take(taken.len() as int));
                    },
                    _ => {},
                }
            }
        }
    }
}

/// What clauses fold into is well formed.
pub proof fn law_lowered_is_well_formed(output: Seq<char>, clauses: Seq<Clause>)
    ensures
        lowered(output, clauses).well_formed(),
{
    lemma_fold_is_well_formed(clauses, clauses.len() as int);
}

/// The name that a binding binds is its pattern as it was written, and it
/// keeps its place among the names: whatever is folded behind the `i`-th
/// clause, a binding, the stages take that pattern at the place that the
/// bindings before it leave.
pub proof fn law_patterns_keep_their_place(clauses: Seq<Clause>, i: int, n: int)
    requires
        0 <= i < n <= clauses.len(),
        clauses[i] is Binding,
    ensures
        bound_names(clauses, i).len() < bound_names(clauses, n).len(),
        bound_names(clauses, n)[bound_names(clauses, i).len() as int] == clauses[i]->Binding_0.name,
    decreases n,
{
    if n > i + 1 {
        law_patterns_keep_their_place(clauses, i, n - 1);
    }
}

/// Folds the clauses of a comprehension into its pipeline.
pub fn lower(map: &String, auxiliary: &Vec<Auxiliary>) -> (pipeline: Pipeline)
    ensures
        pipeline@ == lowered(map@, auxiliary.deep_view()),
        pipeline@.well_formed(),
{
    proof {
        law_lowered_is_well_formed(map@, auxiliary.deep_view());
    }
    let ghost clauses = auxiliary.deep_view();
    let mut stages: Vec<Stage> = Vec::new();
    let mut names = NameTuple::new();
    let mut i: usize = 0;
    assert(stages.deep_view() =~= stages_after(clauses, 0));
    while i < auxiliary.len()
        invariant
            i <= auxiliary.len(),
            clauses == auxiliary.deep_view(),
            stages.deep_view() == stages_after(clauses, i as int),
            names@ == bound_names(clauses, i as int),
        decreases auxiliary.len() - i,
    {
        proof {
            lemma_bound_names_len(clauses, i as int);
            assert(clauses[i as int] == auxiliary[i as int]@);
        }
        let ghost before = stages.deep_view();
        match &auxiliary[i] {
            Auxiliary::SetMapping(sm) => {
                if names.len() == 0 {
                    stages = Vec::new();
                    stages.push(Stage::Source { set: sm.set.clone() });
                    assert(stages.deep_view() =~= seq![Step::Source { set: sm.set@ }]);
                } else {
                    let stage = Stage::Expand { bound: names.snapshot(), set: sm.set.clone() };
                    stages.push(stage);
                    assert(stages.deep_view() =~= before.push(stage@));
                }
                names.bind(&sm.name);
            },
            Auxiliary::Predicate(condition) => {
                if stages.len() == 0 {
                    stages.push(Stage::Unit);
                    assert(stages.deep_view() =~= seq![Step::Unit]);
                }
                let ghost base = stages.deep_view();
                let stage = Stage::Filter {
                    ordinal: i - names.len(),
                    bound: names.snapshot(),
                    condition: condition.clone(),
                };
                stages.push(stage);
                assert(stages.deep_view() =~= base.push(stage@));
            },
        }
        i += 1;
    }
    if stages.len() == 0 {
        stages.push(Stage::Unit);
        assert(stages.deep_view() =~= seq![Step::Unit]);
    }
    Pipeline { stages, bound: names, output: map.clone() }
}

/// The code that an input compiles to.
pub open spec fn generated(input: Input) -> Seq<char> {
    match input {
        Input::Enum { exprs } => array_text(exprs),
        Input::Full { map, auxiliary } => pipeline_text(lowered(map, auxiliary)),
    }
}

/// Writes the fixed sequence of a literal list: the elements as they were
/// given, in their order.
pub fn enumerate(exprs: &Vec<String>) -> (text: String)
    ensures
        text@ == array_text(exprs.deep_view()),
{
    let mut list = String::new();
    let mut i: usize = 0;
    while i < exprs.len()
        invariant
            i <= exprs.len(),
            list@ == joined(exprs.deep_view().take(i as int)),
        decreases exprs.len() - i,
    {
        proof {
            let next = exprs.deep_view().take(i + 1);
            assert(next.drop_last() =~= exprs.deep_view().take(i as int));
            assert(next.last() == exprs[i as int]@);
            assert(next[0] == exprs[0]@);
        }
        if i > 0 {
            list.append(", ");
        }
        list.append(exprs[i].as_str());
        i += 1;
    }
    assert(exprs.deep_view().take(exprs.len() as int) =~= exprs.deep_view());
    let mut text = "[".to_owned();
    text.append(list.as_str());
    text.append("]");
    text
}

/// The fixed sequence without elements is `[]`.
pub proof fn law_empty_list()
    ensures
        array_text(Seq::empty()) == "[]"@,
{
    reveal_strlit("[");
    reveal_strlit("]");
    reveal_strlit("[]");
    assert(array_text(Seq::empty()) =~= "[]"@);
}

/// Where the `i`-th element of a literal list begins in the fixed sequence
/// written for it.
pub open spec fn element_offset(exprs: Seq<Seq<char>>, i: int) -> int
    decreases i,
{
    if i <= 0 {
        1
    } else {
        element_offset(exprs, i - 1) + exprs[i - 1].len() + 2
    }
}

proof fn lemma_offset_of_prefix(exprs: Seq<Seq<char>>, i: int)
    requires
        0 <= i < exprs.len(),
    ensures
        element_offset(exprs.drop_last(), i) == element_offset(exprs, i),
    decreases i,
{
    if i > 0 {
        lemma_offset_of_prefix(exprs, i - 1);
    }
}

proof fn lemma_joined(exprs: Seq<Seq<char>>, i: int)
    requires
        0 <= i < exprs.len(),
    ensures
        joined(exprs).len() + 1 == element_offset(exprs, exprs.len() - 1) + exprs.last().len(),
        1 <= element_offset(exprs, i),
        element_offset(exprs, i) + exprs[i].len() <= joined(exprs).len() + 1,
        joined(exprs).subrange(
            element_offset(exprs, i) - 1,
            element_offset(exprs, i) - 1 + exprs[i].len(),
        ) == exprs[i],
    decreases exprs.len(),
{
    reveal_strlit(", ");
    let n = exprs.len() as int;
    if n == 1 {
        assert(joined(exprs).subrange(0, exprs[0].len() as int) =~= exprs[0]);
    } else {
        let init = exprs.drop_last();
        lemma_joined(init, n - 2);
        lemma_offset_of_prefix(exprs, n - 2);
        assert(init.last() == exprs[n - 2]);
        if i < n - 1 {
            lemma_joined(init, i);
            lemma_offset_of_prefix(exprs, i);
            let at = element_offset(exprs, i) - 1;
            assert(init[i] == exprs[i]);
            assert(0 <= at && at + exprs[i].len() <= joined(init).len());
            assert(joined(exprs) == joined(init) + ", "@ + exprs.last());
            assert(joined(exprs).subrange(at, at + exprs[i].len()) =~= joined(init).subrange(
                at,
                at + init[i].len(),
            ));
        } else {
            let at = element_offset(exprs, i) - 1;
            assert(at == joined(init).len() + 2);
            assert(joined(exprs) == joined(init) + ", "@ + exprs.last());
            assert(joined(exprs).subrange(at, at + exprs[i].len()) =~= exprs[i]);
        }
    }
}

/// The fixed sequence of a literal list holds the elements as they were
/// given, each at its place: the list stands between `[` and `]`, and the
/// `i`-th element begins where the elements before it and their separators
/// end.
pub proof fn law_literal_identity(exprs: Seq<Seq<char>>, i: int)
    requires
        0 <= i < exprs.len(),
    ensures
        generated(Input::Enum { exprs: exprs }) == array_text(exprs),
        array_text(exprs).first() == '[',
        array_text(exprs).last() == ']',
        element_offset(exprs, i) + exprs[i].len() < array_text(exprs).len(),
        array_text(exprs).subrange(
            element_offset(exprs, i),
            element_offset(exprs, i) + exprs[i].len(),
        ) == exprs[i],
{
    reveal_strlit("[");
    reveal_strlit("]");
    lemma_joined(exprs, i);
    let at = element_offset(exprs, i);
    assert(array_text(exprs).subrange(at, at + exprs[i].len()) =~= joined(exprs).subrange(
        at - 1,
        at - 1 + exprs[i].len(),
    ));
}

/// Compiles a parsed input to code.
pub fn generate(input: &SetBuilderInput) -> (text: String)
    ensures
        text@ == generated(input@),
{
    match input {
        SetBuilderInput::Enum { exprs } => enumerate(exprs),
        SetBuilderInput::Full { map, auxiliary } => lower(map, auxiliary).render(),
    }
}

} // verus!
