//! What the generated pipeline yields when it runs.
//!
//! A value that passes through the pipeline is a row: the values of the names
//! bound so far, in binding order. Each stage is given the meaning of the
//! iterator adaptor that is written for it, and the comprehension itself the
//! meaning of nested loops, the first binding outermost. The laws of this
//! module relate the two.
//!
//! The expressions of the host language are not interpreted. What they
//! evaluate to is a parameter: `sources` holds, per binding in binding order,
//! the values that its source yields, and `holds` says of a predicate, by its
//! place among the predicates, and a row whether the predicate is true of it.
//! A source is taken to yield the same values whatever row it is paired with,
//! and finitely many.

use vstd::prelude::*;
use vstd::arithmetic::power::pow;
use crate::clause::Clause;
use crate::pipeline::{bound_names, lowered, stages_after, Pipeline, Stage, Step};

verus! {

/// The values of the binding with this place among the bindings. A binding
/// without a source yields nothing.
pub open spec fn source_at<T>(sources: Seq<Seq<T>>, k: int) -> Seq<T> {
    if 0 <= k < sources.len() {
        sources[k]
    } else {
        Seq::empty()
    }
}

/// `row` paired with every element of `source`, in the order of `source`.
pub open spec fn widen<T>(row: Seq<T>, source: Seq<T>) -> Seq<Seq<T>> {
    source.map_values(|v: T| row.push(v))
}

/// An expansion stage: every row in turn is paired with every element of
/// `source`.
pub open spec fn expand<T>(rows: Seq<Seq<T>>, source: Seq<T>) -> Seq<Seq<T>>
    decreases rows.len(),
{
    if rows.len() == 0 {
        Seq::empty()
    } else {
        expand(rows.drop_last(), source) + widen(rows.last(), source)
    }
}

/// A filter stage: the rows on which the predicate holds, in their order.
pub open spec fn keep<T>(
    rows: Seq<Seq<T>>,
    holds: spec_fn(nat, Seq<T>) -> bool,
    ordinal: nat,
) -> Seq<Seq<T>> {
    rows.filter(|row: Seq<T>| holds(ordinal, row))
}

/// What one stage makes of the rows that reach it.
pub open spec fn step<T>(
    rows: Seq<Seq<T>>,
    stage: Step,
    sources: Seq<Seq<T>>,
    holds: spec_fn(nat, Seq<T>) -> bool,
) -> Seq<Seq<T>> {
    match stage {
        Step::Unit => seq![Seq::empty()],
        Step::Source { set } => widen(Seq::empty(), source_at(sources, 0)),
        Step::Filter { ordinal, bound, condition } => keep(rows, holds, ordinal),
        Step::Expand { bound, set } => expand(rows, source_at(sources, bound.len() as int)),
    }
}

/// The rows that leave the last of `stages`, in the order in which the
/// pipeline yields them.
pub open spec fn run<T>(
    stages: Seq<Step>,
    sources: Seq<Seq<T>>,
    holds: spec_fn(nat, Seq<T>) -> bool,
) -> Seq<Seq<T>>
    decreases stages.len(),
{
    if stages.len() == 0 {
        Seq::empty()
    } else {
        step(run(stages.drop_last(), sources, holds), stages.last(), sources, holds)
    }
}

/// The rows that the clauses from the `i`-th on yield for the values in `row`,
/// as nested loops do: a binding loops over its source, a predicate lets the
/// row pass or ends it.
pub open spec fn rows_from<T>(
    clauses: Seq<Clause>,
    i: int,
    row: Seq<T>,
    sources: Seq<Seq<T>>,
    holds: spec_fn(nat, Seq<T>) -> bool,
) -> Seq<Seq<T>>
    decreases clauses.len() - i, 1int, 0int,
{
    if i < 0 || i >= clauses.len() {
        seq![row]
    } else {
        let k = bound_names(clauses, i).len();
        match clauses[i] {
            Clause::Predicate(_) => if holds((i - k) as nat, row) {
                rows_from(clauses, i + 1, row, sources, holds)
            } else {
                Seq::empty()
            },
            Clause::Binding(_) => rows_over(
                clauses,
                i,
                row,
                source_at(sources, k as int),
                sources,
                holds,
            ),
        }
    }
}

/// The loop of the `i`-th clause, a binding, over the values in `pending`.
pub open spec fn rows_over<T>(
    clauses: Seq<Clause>,
    i: int,
    row: Seq<T>,
    pending: Seq<T>,
    sources: Seq<Seq<T>>,
    holds: spec_fn(nat, Seq<T>) -> bool,
) -> Seq<Seq<T>>
    decreases clauses.len() - i, 0int, pending.len(),
{
    if i < 0 || i >= clauses.len() || pending.len() == 0 {
        Seq::empty()
    } else {
        rows_over(clauses, i, row, pending.drop_last(), sources, holds) + rows_from(
            clauses,
            i + 1,
            row.push(pending.last()),
            sources,
            holds,
        )
    }
}

/// What a comprehension means: its clauses as nested loops, the first binding
/// outermost, every predicate tested as soon as the loops before it have
/// bound their names.
pub open spec fn meaning<T>(
    clauses: Seq<Clause>,
    sources: Seq<Seq<T>>,
    holds: spec_fn(nat, Seq<T>) -> bool,
) -> Seq<Seq<T>> {
    rows_from(clauses, 0, Seq::empty(), sources, holds)
}

/// Every predicate that stands before the first binding holds of the empty
/// row. Such a predicate is folded onto the placeholder, and the first binding
/// then starts the pipeline from its source alone: the predicate is not asked.
pub open spec fn skipped_predicates_hold<T>(
    clauses: Seq<Clause>,
    holds: spec_fn(nat, Seq<T>) -> bool,
) -> bool {
    forall|i: int, j: int|
        #![trigger clauses[i], clauses[j]]
        0 <= i < j < clauses.len() && clauses[i] is Predicate && bound_names(clauses, i).len() == 0
            && clauses[j] is Binding ==> holds(i as nat, Seq::empty())
}

/// Every clause is a binding.
pub open spec fn only_bindings(clauses: Seq<Clause>) -> bool {
    forall|i: int| 0 <= i < clauses.len() ==> (#[trigger] clauses[i]) is Binding
}

/// The rows that the clauses from the `i`-th on yield for each of `rows` in
/// turn.
spec fn fan<T>(
    clauses: Seq<Clause>,
    i: int,
    rows: Seq<Seq<T>>,
    sources: Seq<Seq<T>>,
    holds: spec_fn(nat, Seq<T>) -> bool,
) -> Seq<Seq<T>>
    decreases rows.len(),
{
    if rows.len() == 0 {
        Seq::empty()
    } else {
        fan(clauses, i, rows.drop_last(), sources, holds) + rows_from(
            clauses,
            i,
            rows.last(),
            sources,
            holds,
        )
    }
}

/// The rows that stand once the first `n` clauses are folded: before any
/// stage is made, the one empty row.
spec fn standing<T>(
    clauses: Seq<Clause>,
    n: int,
    sources: Seq<Seq<T>>,
    holds: spec_fn(nat, Seq<T>) -> bool,
) -> Seq<Seq<T>> {
    let stages = stages_after(clauses, n);
    if stages.len() == 0 {
        seq![Seq::empty()]
    } else {
        run(stages, sources, holds)
    }
}

proof fn lemma_fan_add<T>(
    clauses: Seq<Clause>,
    i: int,
    a: Seq<Seq<T>>,
    b: Seq<Seq<T>>,
    sources: Seq<Seq<T>>,
    holds: spec_fn(nat, Seq<T>) -> bool,
)
    ensures
        fan(clauses, i, a + b, sources, holds) == fan(clauses, i, a, sources, holds) + fan(
            clauses,
            i,
            b,
            sources,
            holds,
        ),
    decreases b.len(),
{
    if b.len() == 0 {
        assert(a + b =~= a);
        assert(fan(clauses, i, a, sources, holds) + fan(clauses, i, b, sources, holds) =~= fan(
            clauses,
            i,
            a,
            sources,
            holds,
        ));
    } else {
        assert((a + b).drop_last() =~= a + b.drop_last());
        assert((a + b).last() == b.last());
        lemma_fan_add(clauses, i, a, b.drop_last(), sources, holds);
        assert(fan(clauses, i, a + b, sources, holds) =~= fan(clauses, i, a, sources, holds) + fan(
            clauses,
            i,
            b,
            sources,
            holds,
        ));
    }
}

proof fn lemma_fan_widen<T>(
    clauses: Seq<Clause>,
    i: int,
    row: Seq<T>,
    pending: Seq<T>,
    sources: Seq<Seq<T>>,
    holds: spec_fn(nat, Seq<T>) -> bool,
)
    requires
        0 <= i < clauses.len(),
    ensures
        fan(clauses, i + 1, widen(row, pending), sources, holds) == rows_over(
            clauses,
            i,
            row,
            pending,
            sources,
            holds,
        ),
    decreases pending.len(),
{
    if pending.len() > 0 {
        assert(widen(row, pending).drop_last() =~= widen(row, pending.drop_last()));
        assert(widen(row, pending).last() == row.push(pending.last()));
        lemma_fan_widen(clauses, i, row, pending.drop_last(), sources, holds);
    }
}

proof fn lemma_fan_binding<T>(
    clauses: Seq<Clause>,
    i: int,
    rows: Seq<Seq<T>>,
    sources: Seq<Seq<T>>,
    holds: spec_fn(nat, Seq<T>) -> bool,
)
    requires
        0 <= i < clauses.len(),
        clauses[i] is Binding,
    ensures
        fan(clauses, i, rows, sources, holds) == fan(
            clauses,
            i + 1,
            expand(rows, source_at(sources, bound_names(clauses, i).len() as int)),
            sources,
            holds,
        ),
    decreases rows.len(),
{
    let source = source_at(sources, bound_names(clauses, i).len() as int);
    if rows.len() > 0 {
        lemma_fan_binding(clauses, i, rows.drop_last(), sources, holds);
        lemma_fan_widen(clauses, i, rows.last(), source, sources, holds);
        lemma_fan_add(
            clauses,
            i + 1,
            expand(rows.drop_last(), source),
            widen(rows.last(), source),
            sources,
            holds,
        );
    }
}

proof fn lemma_fan_predicate<T>(
    clauses: Seq<Clause>,
    i: int,
    rows: Seq<Seq<T>>,
    sources: Seq<Seq<T>>,
    holds: spec_fn(nat, Seq<T>) -> bool,
)
    requires
        0 <= i < clauses.len(),
        clauses[i] is Predicate,
    ensures
        fan(clauses, i, rows, sources, holds) == fan(
            clauses,
            i + 1,
            keep(rows, holds, (i - bound_names(clauses, i).len()) as nat),
            sources,
            holds,
        ),
    decreases rows.len(),
{
    let ordinal = (i - bound_names(clauses, i).len()) as nat;
    if rows.len() == 0 {
        assert(keep(rows, holds, ordinal) =~= Seq::empty()) by {
            rows.lemma_filter_len(|row: Seq<T>| holds(ordinal, row));
        }
    } else {
        let init = rows.drop_last();
        let last = rows.last();
        lemma_fan_predicate(clauses, i, init, sources, holds);
        assert(init.push(last) =~= rows);
        init.lemma_filter_push(last, |row: Seq<T>| holds(ordinal, row));
        if holds(ordinal, last) {
            let kept = keep(init, holds, ordinal);
            assert(keep(rows, holds, ordinal) == kept.push(last));
            assert(kept.push(last).drop_last() =~= kept);
        } else {
            assert(fan(clauses, i, rows, sources, holds) =~= fan(
                clauses,
                i,
                init,
                sources,
                holds,
            ));
        }
    }
}

proof fn lemma_fan_done<T>(
    clauses: Seq<Clause>,
    rows: Seq<Seq<T>>,
    sources: Seq<Seq<T>>,
    holds: spec_fn(nat, Seq<T>) -> bool,
)
    ensures
        fan(clauses, clauses.len() as int, rows, sources, holds) == rows,
    decreases rows.len(),
{
    if rows.len() > 0 {
        lemma_fan_done(clauses, rows.drop_last(), sources, holds);
        assert(rows.drop_last() + seq![rows.last()] =~= rows);
    }
}

proof fn lemma_bound_after_binding(clauses: Seq<Clause>, first: int, n: int)
    requires
        0 <= first < n <= clauses.len(),
        clauses[first] is Binding,
    ensures
        bound_names(clauses, n).len() >= 1,
    decreases n,
{
    if n > first + 1 {
        lemma_bound_after_binding(clauses, first, n - 1);
    }
}

proof fn lemma_stages_once_bound(clauses: Seq<Clause>, n: int)
    requires
        0 <= n <= clauses.len(),
    ensures
        bound_names(clauses, n).len() > 0 ==> stages_after(clauses, n).len() > 0,
        n > 0 ==> stages_after(clauses, n).len() > 0,
    decreases n,
{
    if n > 0 {
        lemma_stages_once_bound(clauses, n - 1);
    }
}

proof fn lemma_unit_runs<T>(sources: Seq<Seq<T>>, holds: spec_fn(nat, Seq<T>) -> bool)
    ensures
        run(seq![Step::Unit], sources, holds) == seq![Seq::<T>::empty()],
{
    let stages = seq![Step::Unit];
    assert(stages.last() == Step::Unit);
    assert(run(stages, sources, holds) == step(
        run(stages.drop_last(), sources, holds),
        stages.last(),
        sources,
        holds,
    ));
}

proof fn lemma_run_push<T>(
    stages: Seq<Step>,
    stage: Step,
    sources: Seq<Seq<T>>,
    holds: spec_fn(nat, Seq<T>) -> bool,
)
    ensures
        run(stages.push(stage), sources, holds) == step(
            run(stages, sources, holds),
            stage,
            sources,
            holds,
        ),
{
    assert(stages.push(stage).drop_last() =~= stages);
    assert(stages.push(stage).last() == stage);
}

proof fn lemma_expand_one<T>(source: Seq<T>)
    ensures
        expand(seq![Seq::<T>::empty()], source) == widen(Seq::<T>::empty(), source),
{
    let rows = seq![Seq::<T>::empty()];
    assert(rows.drop_last() =~= Seq::<Seq<T>>::empty());
    assert(expand(rows.drop_last(), source) =~= Seq::<Seq<T>>::empty());
    assert(expand(rows, source) =~= widen(Seq::<T>::empty(), source));
}

/// The place of the first binding among the first `n` clauses, or `n` where
/// they hold none.
proof fn lemma_first_binding(clauses: Seq<Clause>, n: int) -> (first: int)
    requires
        0 <= n <= clauses.len(),
    ensures
        0 <= first <= n,
        bound_names(clauses, first).len() == 0,
        first < n ==> clauses[first] is Binding,
        first == n ==> bound_names(clauses, n).len() == 0,
        forall|i: int| 0 <= i < first ==> (#[trigger] clauses[i]) is Predicate,
    decreases n,
{
    if n == 0 {
        0
    } else {
        let before = lemma_first_binding(clauses, n - 1);
        if before < n - 1 {
            before
        } else if clauses[n - 1] is Binding {
            n - 1
        } else {
            n
        }
    }
}

proof fn lemma_skipped_predicates<T>(
    clauses: Seq<Clause>,
    first: int,
    i: int,
    sources: Seq<Seq<T>>,
    holds: spec_fn(nat, Seq<T>) -> bool,
)
    requires
        0 <= i <= first < clauses.len(),
        clauses[first] is Binding,
        bound_names(clauses, first).len() == 0,
        forall|k: int| 0 <= k < first ==> (#[trigger] clauses[k]) is Predicate,
        skipped_predicates_hold(clauses, holds),
    ensures
        bound_names(clauses, i).len() == 0,
        rows_from(clauses, i, Seq::empty(), sources, holds) == rows_from(
            clauses,
            first,
            Seq::empty(),
            sources,
            holds,
        ),
    decreases first - i,
{
    lemma_no_name_before(clauses, first, i);
    if i < first {
        assert(clauses[i] is Predicate && clauses[first] is Binding);
        assert(holds(i as nat, Seq::empty()));
        lemma_skipped_predicates(clauses, first, i + 1, sources, holds);
    }
}

proof fn lemma_no_name_before(clauses: Seq<Clause>, first: int, i: int)
    requires
        0 <= i <= first <= clauses.len(),
        forall|k: int| 0 <= k < first ==> (#[trigger] clauses[k]) is Predicate,
    ensures
        bound_names(clauses, i).len() == 0,
    decreases i,
{
    if i > 0 {
        lemma_no_name_before(clauses, first, i - 1);
        assert(clauses[i - 1] is Predicate);
    }
}

proof fn lemma_standing_predicates<T>(
    clauses: Seq<Clause>,
    n: int,
    sources: Seq<Seq<T>>,
    holds: spec_fn(nat, Seq<T>) -> bool,
)
    requires
        0 <= n <= clauses.len(),
        forall|k: int| 0 <= k < n ==> (#[trigger] clauses[k]) is Predicate,
    ensures
        fan(clauses, n, standing(clauses, n, sources, holds), sources, holds) == meaning(
            clauses,
            sources,
            holds,
        ),
    decreases n,
{
    if n == 0 {
        let rows = seq![Seq::<T>::empty()];
        assert(rows.drop_last() =~= Seq::<Seq<T>>::empty());
        assert(rows.last() == Seq::<T>::empty());
        assert(fan(clauses, 0, rows.drop_last(), sources, holds) =~= Seq::<Seq<T>>::empty());
        assert(fan(clauses, 0, rows, sources, holds) =~= meaning(clauses, sources, holds));
    } else {
        lemma_standing_predicates(clauses, n - 1, sources, holds);
        let before = stages_after(clauses, n - 1);
        let bound = bound_names(clauses, n - 1);
        let stood = standing(clauses, n - 1, sources, holds);
        assert(clauses[n - 1] is Predicate);
        lemma_fan_predicate(clauses, n - 1, stood, sources, holds);
        match clauses[n - 1] {
            Clause::Binding(_) => {},
            Clause::Predicate(condition) => {
                let stage = Step::Filter {
                    ordinal: (n - 1 - bound.len()) as nat,
                    bound: bound,
                    condition: condition,
                };
                if before.len() == 0 {
                    lemma_unit_runs(sources, holds);
                    lemma_run_push(seq![Step::Unit], stage, sources, holds);
                } else {
                    lemma_run_push(before, stage, sources, holds);
                }
            },
        }
    }
}

proof fn lemma_standing<T>(
    clauses: Seq<Clause>,
    first: int,
    n: int,
    sources: Seq<Seq<T>>,
    holds: spec_fn(nat, Seq<T>) -> bool,
)
    requires
        0 <= first < n <= clauses.len(),
        clauses[first] is Binding,
        bound_names(clauses, first).len() == 0,
    ensures
        fan(clauses, n, standing(clauses, n, sources, holds), sources, holds) == rows_from(
            clauses,
            first,
            Seq::empty(),
            sources,
            holds,
        ),
    decreases n,
{
    lemma_stages_once_bound(clauses, n);
    let bound = bound_names(clauses, n - 1);
    if n == first + 1 {
        let start = seq![Seq::<T>::empty()];
        assert(start.drop_last() =~= Seq::<Seq<T>>::empty());
        assert(start.last() == Seq::<T>::empty());
        assert(fan(clauses, first, start.drop_last(), sources, holds) =~= Seq::<Seq<T>>::empty());
        assert(fan(clauses, first, start, sources, holds) =~= rows_from(
            clauses,
            first,
            Seq::empty(),
            sources,
            holds,
        ));
        lemma_fan_binding(clauses, first, start, sources, holds);
        match clauses[first] {
            Clause::Binding(b) => {
                let stages = seq![Step::Source { set: b.set }];
                assert(stages_after(clauses, n) == stages);
                assert(stages.last() == Step::Source { set: b.set });
                assert(run(stages, sources, holds) == widen(
                    Seq::<T>::empty(),
                    source_at(sources, 0),
                ));
                lemma_expand_one(source_at(sources, 0));
            },
            Clause::Predicate(_) => {},
        }
    } else {
        lemma_standing(clauses, first, n - 1, sources, holds);
        lemma_stages_once_bound(clauses, n - 1);
        lemma_bound_after_binding(clauses, first, n - 1);
        let before = stages_after(clauses, n - 1);
        let stood = standing(clauses, n - 1, sources, holds);
        match clauses[n - 1] {
            Clause::Binding(b) => {
                lemma_fan_binding(clauses, n - 1, stood, sources, holds);
                lemma_run_push(before, Step::Expand { bound: bound, set: b.set }, sources, holds);
            },
            Clause::Predicate(condition) => {
                lemma_fan_predicate(clauses, n - 1, stood, sources, holds);
                lemma_run_push(
                    before,
                    Step::Filter {
                        ordinal: (n - 1 - bound.len()) as nat,
                        bound: bound,
                        condition: condition,
                    },
                    sources,
                    holds,
                );
            },
        }
    }
}

/// The pipeline yields what the nested loops yield, row for row and in their
/// order. So a predicate that stands between two bindings has removed its rows
/// before the later binding's source is paired in, and what comes out is what
/// filtering strictly from left to right leaves.
///
/// A predicate that stands before the first binding is the exception: the
/// pipeline does not ask it, the loops do. The two agree where every such
/// predicate holds.
pub proof fn law_pipeline_is_nested_loops<T>(
    output: Seq<char>,
    clauses: Seq<Clause>,
    sources: Seq<Seq<T>>,
    holds: spec_fn(nat, Seq<T>) -> bool,
)
    requires
        skipped_predicates_hold(clauses, holds),
    ensures
        run(lowered(output, clauses).stages, sources, holds) == meaning(clauses, sources, holds),
{
    let n = clauses.len() as int;
    let first = lemma_first_binding(clauses, n);
    if first < n {
        lemma_skipped_predicates(clauses, first, 0, sources, holds);
        lemma_standing(clauses, first, n, sources, holds);
    } else {
        lemma_standing_predicates(clauses, n, sources, holds);
    }
    lemma_fan_done(clauses, standing(clauses, n, sources, holds), sources, holds);
    if stages_after(clauses, n).len() == 0 {
        lemma_unit_runs(sources, holds);
    }
}

proof fn lemma_row_widths<T>(
    clauses: Seq<Clause>,
    n: int,
    sources: Seq<Seq<T>>,
    holds: spec_fn(nat, Seq<T>) -> bool,
)
    requires
        0 <= n <= clauses.len(),
    ensures
        forall|i: int|
            0 <= i < standing(clauses, n, sources, holds).len() ==> (#[trigger] standing(
                clauses,
                n,
                sources,
                holds,
            )[i]).len() == bound_names(clauses, n).len(),
    decreases n,
{
    if n > 0 {
        lemma_row_widths(clauses, n - 1, sources, holds);
        lemma_stages_once_bound(clauses, n - 1);
        lemma_stages_once_bound(clauses, n);
        let before = stages_after(clauses, n - 1);
        let bound = bound_names(clauses, n - 1);
        let stood = standing(clauses, n - 1, sources, holds);
        let rows = standing(clauses, n, sources, holds);
        match clauses[n - 1] {
            Clause::Binding(b) => {
                if bound.len() == 0 {
                    let stages = seq![Step::Source { set: b.set }];
                    assert(stages_after(clauses, n) == stages);
                    assert(stages.last() == Step::Source { set: b.set });
                    assert(rows == widen(Seq::<T>::empty(), source_at(sources, 0)));
                } else {
                    let source = source_at(sources, bound.len() as int);
                    lemma_run_push(before, Step::Expand { bound: bound, set: b.set }, sources, holds);
                    assert(rows == expand(stood, source));
                    assert forall|i: int| 0 <= i < rows.len() implies (#[trigger] rows[i]).len()
                        == bound.len() + 1 by {
                        lemma_expand_at(stood, source, i);
                    }
                }
            },
            Clause::Predicate(condition) => {
                let ordinal = (n - 1 - bound.len()) as nat;
                let stage = Step::Filter { ordinal: ordinal, bound: bound, condition: condition };
                if before.len() == 0 {
                    lemma_unit_runs(sources, holds);
                    lemma_run_push(seq![Step::Unit], stage, sources, holds);
                } else {
                    lemma_run_push(before, stage, sources, holds);
                }
                assert(rows == keep(stood, holds, ordinal));
                assert forall|i: int| 0 <= i < rows.len() implies (#[trigger] rows[i]).len()
                    == bound.len() by {
                    assert(rows.contains(rows[i]));
                    stood.lemma_filter_contains_rev(|row: Seq<T>| holds(ordinal, row), rows[i]);
                    let j = choose|j: int| 0 <= j < stood.len() && stood[j] == rows[i];
                    assert(stood[j].len() == bound.len());
                }
            },
        }
    }
}

/// Every row that reaches the closing map holds one value for each name that
/// the map destructures, whatever the clauses are.
pub proof fn law_rows_match_names<T>(
    output: Seq<char>,
    clauses: Seq<Clause>,
    sources: Seq<Seq<T>>,
    holds: spec_fn(nat, Seq<T>) -> bool,
)
    ensures
        forall|i: int|
            0 <= i < run(lowered(output, clauses).stages, sources, holds).len() ==> (#[trigger] run(
                lowered(output, clauses).stages,
                sources,
                holds,
            )[i]).len() == lowered(output, clauses).bound.len(),
{
    let n = clauses.len() as int;
    let rows = run(lowered(output, clauses).stages, sources, holds);
    let stood = standing(clauses, n, sources, holds);
    lemma_row_widths(clauses, n, sources, holds);
    if stages_after(clauses, n).len() == 0 {
        lemma_unit_runs(sources, holds);
    }
    assert(rows == stood);
    assert forall|i: int| 0 <= i < rows.len() implies (#[trigger] rows[i]).len() == lowered(
        output,
        clauses,
    ).bound.len() by {
        assert(stood[i].len() == bound_names(clauses, n).len());
    }
}

/// The stage that the `i`-th clause is folded into.
pub open spec fn stage_for(clauses: Seq<Clause>, i: int) -> Step {
    let bound = bound_names(clauses, i);
    match clauses[i] {
        Clause::Binding(b) => if bound.len() == 0 {
            Step::Source { set: b.set }
        } else {
            Step::Expand { bound: bound, set: b.set }
        },
        Clause::Predicate(condition) => Step::Filter {
            ordinal: (i - bound.len()) as nat,
            bound: bound,
            condition: condition,
        },
    }
}

proof fn lemma_stage_per_clause(clauses: Seq<Clause>, n: int)
    requires
        1 <= n <= clauses.len(),
        clauses[0] is Binding,
    ensures
        stages_after(clauses, n) == Seq::new(n as nat, |i: int| stage_for(clauses, i)),
    decreases n,
{
    if n == 1 {
        assert(bound_names(clauses, 0).len() == 0);
        assert(stages_after(clauses, 1) =~= Seq::new(1, |i: int| stage_for(clauses, i)));
    } else {
        lemma_stage_per_clause(clauses, n - 1);
        lemma_bound_after_binding(clauses, 0, n - 1);
        assert(stages_after(clauses, n) =~= Seq::new(n as nat, |i: int| stage_for(clauses, i)));
    }
}

/// Where a binding leads, the pipeline has one stage per clause, in the order
/// of the clauses. So a filter stands directly behind the stage of the clause
/// before it, and takes the names bound up to there and no others: it runs
/// before any later binding expands the rows.
pub proof fn law_stages_follow_clauses(output: Seq<char>, clauses: Seq<Clause>)
    requires
        clauses.len() >= 1,
        clauses[0] is Binding,
    ensures
        lowered(output, clauses).stages == Seq::new(
            clauses.len(),
            |i: int| stage_for(clauses, i),
        ),
{
    lemma_stage_per_clause(clauses, clauses.len() as int);
}

/// The row with the one value `v`.
pub open spec fn single<T>(v: T) -> Seq<T> {
    seq![v]
}

proof fn lemma_filter_of_map<A, B>(s: Seq<A>, f: spec_fn(A) -> B, p: spec_fn(B) -> bool)
    ensures
        s.map_values(f).filter(p) == s.filter(|a: A| p(f(a))).map_values(f),
    decreases s.len(),
{
    let q = |a: A| p(f(a));
    if s.len() == 0 {
        s.map_values(f).lemma_filter_len(p);
        s.lemma_filter_len(q);
        assert(s.map_values(f).filter(p) =~= s.filter(q).map_values(f));
    } else {
        let init = s.drop_last();
        let last = s.last();
        lemma_filter_of_map(init, f, p);
        assert(init.push(last) =~= s);
        assert(init.map_values(f).push(f(last)) =~= s.map_values(f));
        init.map_values(f).lemma_filter_push(f(last), p);
        init.lemma_filter_push(last, q);
        if q(last) {
            assert(init.filter(q).push(last).map_values(f) =~= init.filter(q).map_values(f).push(
                f(last),
            ));
        }
    }
}

/// One binding and one predicate behind it: the pipeline yields the elements
/// of the source on which the predicate holds, in the order of the source, and
/// the closing map gives the output for each of them.
pub proof fn law_single_binding_filter<T, W>(
    output: Seq<char>,
    clauses: Seq<Clause>,
    sources: Seq<Seq<T>>,
    holds: spec_fn(nat, Seq<T>) -> bool,
    value: spec_fn(Seq<T>) -> W,
)
    requires
        clauses.len() == 2,
        clauses[0] is Binding,
        clauses[1] is Predicate,
    ensures
        run(lowered(output, clauses).stages, sources, holds) == source_at(sources, 0).filter(
            |v: T| holds(0, single(v)),
        ).map_values(|v: T| single(v)),
        run(lowered(output, clauses).stages, sources, holds).map_values(value) == source_at(
            sources,
            0,
        ).filter(|v: T| holds(0, single(v))).map_values(|v: T| value(single(v))),
{
    let source = source_at(sources, 0);
    let stages = lowered(output, clauses).stages;
    law_stages_follow_clauses(output, clauses);
    assert(bound_names(clauses, 0).len() == 0);
    assert(bound_names(clauses, 1).len() == 1);
    assert(stages[0] is Source);
    assert(stages[1] matches Step::Filter { ordinal, .. } && ordinal == 0);
    assert(stages.drop_last().drop_last() =~= Seq::<Step>::empty());
    assert(stages.drop_last().last() is Source);
    assert(run(stages.drop_last(), sources, holds) == widen(Seq::<T>::empty(), source));
    assert(run(stages, sources, holds) == keep(widen(Seq::<T>::empty(), source), holds, 0));
    let wrap = |v: T| single(v);
    let test = |row: Seq<T>| holds(0, row);
    let pick = |v: T| test(wrap(v));
    assert forall|v: T| Seq::<T>::empty().push(v) == #[trigger] single(v) by {
        assert(Seq::<T>::empty().push(v) =~= single(v));
    }
    assert(widen(Seq::<T>::empty(), source) =~= source.map_values(wrap));
    lemma_filter_of_map(source, wrap, test);
    assert(pick =~= (|v: T| holds(0, single(v))));
    let kept = source.filter(|v: T| holds(0, single(v)));
    assert(kept.map_values(wrap).map_values(value) =~= kept.map_values(|v: T| value(single(v))));
}

proof fn lemma_expand_len<T>(rows: Seq<Seq<T>>, source: Seq<T>)
    ensures
        expand(rows, source).len() == rows.len() * source.len(),
    decreases rows.len(),
{
    if rows.len() > 0 {
        lemma_expand_len(rows.drop_last(), source);
        assert((rows.len() - 1) * source.len() + source.len() == rows.len() * source.len())
            by (nonlinear_arith);
    } else {
        assert(0 * source.len() == 0);
    }
}

proof fn lemma_expand_index<T>(rows: Seq<Seq<T>>, source: Seq<T>, i: int, j: int)
    requires
        0 <= i < rows.len(),
        0 <= j < source.len(),
    ensures
        0 <= i * source.len() + j < expand(rows, source).len(),
        expand(rows, source)[i * source.len() + j] == rows[i].push(source[j]),
    decreases rows.len(),
{
    let m = source.len() as int;
    let n = rows.len() as int;
    lemma_expand_len(rows.drop_last(), source);
    lemma_expand_len(rows, source);
    assert(0 <= i * m) by (nonlinear_arith)
        requires
            0 <= i,
            0 <= m,
    ;
    assert(i * m + m <= n * m) by (nonlinear_arith)
        requires
            i < n,
            0 <= m,
    ;
    if i == n - 1 {
        assert(expand(rows, source)[i * m + j] == widen(rows.last(), source)[j]);
    } else {
        lemma_expand_index(rows.drop_last(), source, i, j);
        assert(i * m + m <= (n - 1) * m) by (nonlinear_arith)
            requires
                i < n - 1,
                0 <= m,
        ;
    }
}

/// The rows of the first `n` bindings where nothing filters.
spec fn product<T>(sources: Seq<Seq<T>>, n: int) -> Seq<Seq<T>>
    decreases n,
{
    if n <= 0 {
        seq![Seq::empty()]
    } else {
        expand(product(sources, n - 1), source_at(sources, n - 1))
    }
}

proof fn lemma_bindings_standing<T>(
    clauses: Seq<Clause>,
    n: int,
    sources: Seq<Seq<T>>,
    holds: spec_fn(nat, Seq<T>) -> bool,
)
    requires
        0 <= n <= clauses.len(),
        only_bindings(clauses),
    ensures
        bound_names(clauses, n).len() == n,
        standing(clauses, n, sources, holds) == product(sources, n),
    decreases n,
{
    if n > 0 {
        lemma_bindings_standing(clauses, n - 1, sources, holds);
        lemma_stages_once_bound(clauses, n - 1);
        let before = stages_after(clauses, n - 1);
        let bound = bound_names(clauses, n - 1);
        assert(clauses[n - 1] is Binding);
        match clauses[n - 1] {
            Clause::Binding(b) => {
                if n == 1 {
                    let stages = seq![Step::Source { set: b.set }];
                    assert(stages_after(clauses, n) == stages);
                    assert(stages.last() == Step::Source { set: b.set });
                    assert(run(stages, sources, holds) == widen(
                        Seq::<T>::empty(),
                        source_at(sources, 0),
                    ));
                    lemma_expand_one(source_at(sources, 0));
                } else {
                    lemma_run_push(before, Step::Expand { bound: bound, set: b.set }, sources, holds);
                }
            },
            Clause::Predicate(_) => {},
        }
    }
}

proof fn lemma_bindings_run<T>(
    output: Seq<char>,
    clauses: Seq<Clause>,
    sources: Seq<Seq<T>>,
    holds: spec_fn(nat, Seq<T>) -> bool,
)
    requires
        only_bindings(clauses),
    ensures
        run(lowered(output, clauses).stages, sources, holds) == product(
            sources,
            clauses.len() as int,
        ),
{
    lemma_bindings_standing(clauses, clauses.len() as int, sources, holds);
    if stages_after(clauses, clauses.len() as int).len() == 0 {
        lemma_unit_runs(sources, holds);
    }
}

/// Bindings alone, with no predicate: the rows come in row-major order, the
/// last binding varying fastest. Each row of the bindings before the last
/// comes once for every element of the last source, in the order of that
/// source, before the next row has its turn.
pub proof fn law_last_binding_varies_fastest<T>(
    output: Seq<char>,
    clauses: Seq<Clause>,
    sources: Seq<Seq<T>>,
    holds: spec_fn(nat, Seq<T>) -> bool,
)
    requires
        clauses.len() >= 1,
        only_bindings(clauses),
    ensures
        ({
            let rows = run(lowered(output, clauses).stages, sources, holds);
            let outer = run(lowered(output, clauses.drop_last()).stages, sources, holds);
            let inner = source_at(sources, clauses.len() - 1);
            &&& rows.len() == outer.len() * inner.len()
            &&& forall|i: int, j: int|
                0 <= i < outer.len() && 0 <= j < inner.len() ==> rows[i * inner.len() + j]
                    == #[trigger] outer[i].push(inner[j])
        }),
{
    let n = clauses.len() as int;
    let rows = run(lowered(output, clauses).stages, sources, holds);
    let outer = run(lowered(output, clauses.drop_last()).stages, sources, holds);
    let inner = source_at(sources, n - 1);
    lemma_bindings_run(output, clauses, sources, holds);
    assert(only_bindings(clauses.drop_last())) by {
        assert forall|i: int| 0 <= i < clauses.drop_last().len() implies (
        #[trigger] clauses.drop_last()[i]) is Binding by {
            assert(clauses.drop_last()[i] == clauses[i]);
        }
    }
    lemma_bindings_run(output, clauses.drop_last(), sources, holds);
    lemma_expand_len(outer, inner);
    assert forall|i: int, j: int| 0 <= i < outer.len() && 0 <= j < inner.len() implies rows[i
        * inner.len() + j] == #[trigger] outer[i].push(inner[j]) by {
        lemma_expand_index(outer, inner, i, j);
    }
}

/// The number of rows of `n` bindings whose sources hold `m` elements each.
proof fn lemma_product_len<T>(sources: Seq<Seq<T>>, n: int, m: nat)
    requires
        0 <= n,
        forall|k: int| 0 <= k < n ==> (#[trigger] source_at(sources, k)).len() == m,
    ensures
        product(sources, n).len() == pow(m as int, n as nat),
    decreases n,
{
    reveal(pow);
    if n > 0 {
        lemma_product_len(sources, n - 1, m);
        lemma_expand_len(product(sources, n - 1), source_at(sources, n - 1));
        assert(source_at(sources, n - 1).len() == m);
        assert(pow(m as int, n as nat) == m * pow(m as int, (n - 1) as nat));
        assert(pow(m as int, (n - 1) as nat) * m == m * pow(m as int, (n - 1) as nat))
            by (nonlinear_arith);
    }
}

/// `n` bindings, each over a source of `m` elements, and no predicate: the
/// pipeline yields `m` to the `n` rows.
pub proof fn law_arity_scaling<T>(
    output: Seq<char>,
    clauses: Seq<Clause>,
    sources: Seq<Seq<T>>,
    holds: spec_fn(nat, Seq<T>) -> bool,
    m: nat,
)
    requires
        only_bindings(clauses),
        forall|k: int| 0 <= k < clauses.len() ==> (#[trigger] source_at(sources, k)).len() == m,
    ensures
        run(lowered(output, clauses).stages, sources, holds).len() == pow(
            m as int,
            clauses.len(),
        ),
{
    lemma_bindings_run(output, clauses, sources, holds);
    lemma_product_len(sources, clauses.len() as int, m);
}

/// Over how many rows in a row the `k`-th of `n` bindings keeps its value:
/// once for every combination of the bindings behind it.
pub open spec fn stride<T>(sources: Seq<Seq<T>>, k: int, n: int) -> int
    decreases n - k,
{
    if n <= k + 1 {
        1
    } else {
        stride(sources, k, n - 1) * source_at(sources, n - 1).len()
    }
}

proof fn lemma_expand_at<T>(rows: Seq<Seq<T>>, source: Seq<T>, i: int)
    requires
        0 <= i < expand(rows, source).len(),
    ensures
        source.len() > 0,
        0 <= i / (source.len() as int) < rows.len(),
        0 <= i % (source.len() as int) < source.len(),
        expand(rows, source)[i] == rows[i / (source.len() as int)].push(
            source[i % (source.len() as int)],
        ),
{
    let m = source.len() as int;
    let n = rows.len() as int;
    lemma_expand_len(rows, source);
    assert(m > 0) by (nonlinear_arith)
        requires
            0 <= i < n * m,
            0 <= m,
    ;
    let q = i / m;
    let r = i % m;
    vstd::arithmetic::div_mod::lemma_fundamental_div_mod(i, m);
    vstd::arithmetic::div_mod::lemma_mod_pos_bound(i, m);
    vstd::arithmetic::div_mod::lemma_div_pos_is_pos(i, m);
    assert(q < n) by (nonlinear_arith)
        requires
            i == m * q + r,
            0 <= r,
            0 < m,
            i < n * m,
    ;
    assert(q * m + r == i) by (nonlinear_arith)
        requires
            i == m * q + r,
    ;
    lemma_expand_index(rows, source, q, r);
}

proof fn lemma_product_row_len<T>(sources: Seq<Seq<T>>, n: int, i: int)
    requires
        0 <= n,
        0 <= i < product(sources, n).len(),
    ensures
        product(sources, n)[i].len() == n,
    decreases n,
{
    if n > 0 {
        let before = product(sources, n - 1);
        let source = source_at(sources, n - 1);
        lemma_expand_at(before, source, i);
        lemma_product_row_len(sources, n - 1, i / (source.len() as int));
    }
}

proof fn lemma_product_row<T>(sources: Seq<Seq<T>>, n: int, i: int, k: int)
    requires
        0 <= k < n,
        0 <= i < product(sources, n).len(),
    ensures
        stride(sources, k, n) > 0,
        source_at(sources, k).len() > 0,
        product(sources, n)[i].len() == n,
        product(sources, n)[i][k] == source_at(sources, k)[(i / stride(sources, k, n)) % (
        source_at(sources, k).len() as int)],
    decreases n,
{
    let before = product(sources, n - 1);
    let source = source_at(sources, n - 1);
    let m = source.len() as int;
    lemma_expand_at(before, source, i);
    lemma_product_row_len(sources, n, i);
    lemma_product_row_len(sources, n - 1, i / m);
    if k == n - 1 {
        vstd::arithmetic::div_mod::lemma_div_basics(i);
    } else {
        lemma_product_row(sources, n - 1, i / m, k);
        let inner = stride(sources, k, n - 1);
        vstd::arithmetic::div_mod::lemma_div_denominator(i, m, inner);
        assert(inner * m == m * inner && inner * m > 0) by (nonlinear_arith)
            requires
                inner > 0,
                m > 0,
        ;
    }
}

/// The rows stand in row-major order over the first `n` sources: the `i`-th
/// row holds of the `k`-th source the element at the place `i` divided by the
/// stride of that binding, counted round the source.
pub open spec fn row_major<T>(rows: Seq<Seq<T>>, sources: Seq<Seq<T>>, n: int) -> bool {
    &&& forall|i: int| 0 <= i < rows.len() ==> (#[trigger] rows[i]).len() == n
    &&& forall|i: int, k: int|
        #![trigger rows[i][k]]
        0 <= i < rows.len() && 0 <= k < n ==> rows[i][k] == source_at(sources, k)[(i / stride(
            sources,
            k,
            n,
        )) % (source_at(sources, k).len() as int)]
}

/// Bindings alone, with no predicate: the rows come in row-major order, the
/// first binding varying slowest and the last fastest.
pub proof fn law_row_major<T>(
    output: Seq<char>,
    clauses: Seq<Clause>,
    sources: Seq<Seq<T>>,
    holds: spec_fn(nat, Seq<T>) -> bool,
)
    requires
        only_bindings(clauses),
    ensures
        row_major(
            run(lowered(output, clauses).stages, sources, holds),
            sources,
            clauses.len() as int,
        ),
{
    let rows = run(lowered(output, clauses).stages, sources, holds);
    let n = clauses.len() as int;
    lemma_bindings_run(output, clauses, sources, holds);
    assert forall|i: int| 0 <= i < rows.len() implies (#[trigger] rows[i]).len() == n by {
        lemma_product_row_len(sources, n, i);
    }
    assert forall|i: int, k: int|
        #![trigger rows[i][k]]
        0 <= i < rows.len() && 0 <= k < n implies rows[i][k] == source_at(sources, k)[(i / stride(
        sources,
        k,
        n,
    )) % (source_at(sources, k).len() as int)] by {
        lemma_product_row(sources, n, i, k);
    }
}

/// Rows as they are held, seen as rows of values.
pub open spec fn table<T>(rows: Seq<Vec<T>>) -> Seq<Seq<T>> {
    rows.map_values(|row: Vec<T>| row@)
}

/// The answer of `holds` depends on nothing but the predicate's place and the
/// values of the row.
pub open spec fn decided<T, P: Fn(usize, &Vec<T>) -> bool>(holds: P) -> bool {
    forall|k: usize, a: &Vec<T>, b: &Vec<T>, x: bool, y: bool|
        a@ == b@ && #[trigger] call_ensures(holds, (k, a), x) && #[trigger] call_ensures(
            holds,
            (k, b),
            y,
        ) ==> x == y
}

/// What `holds` answers, as a function of the predicate's place and the row.
pub open spec fn verdicts<T, P: Fn(usize, &Vec<T>) -> bool>(holds: P) -> spec_fn(
    nat,
    Seq<T>,
) -> bool {
    |ordinal: nat, row: Seq<T>|
        exists|a: &Vec<T>|
            a@ == row && ordinal <= usize::MAX && #[trigger] call_ensures(
                holds,
                (ordinal as usize, a),
                true,
            )
}

fn copy_row<T: Copy>(row: &Vec<T>) -> (copy: Vec<T>)
    ensures
        copy@ == row@,
{
    let mut copy: Vec<T> = Vec::new();
    let mut j: usize = 0;
    while j < row.len()
        invariant
            j <= row.len(),
            copy@ == row@.take(j as int),
        decreases row.len() - j,
    {
        copy.push(row[j]);
        assert(row@.take(j + 1) =~= row@.take(j as int).push(row@[j as int]));
        j += 1;
    }
    assert(row@.take(row.len() as int) =~= row@);
    copy
}

fn pair_with_each<T: Copy>(row: &Vec<T>, source: &Vec<T>, out: &mut Vec<Vec<T>>)
    ensures
        table(final(out)@) == table(old(out)@) + widen(row@, source@),
{
    let ghost before = table(out@);
    let mut j: usize = 0;
    assert(table(out@) =~= before + widen(row@, source@.take(0)));
    while j < source.len()
        invariant
            j <= source.len(),
            table(out@) == before + widen(row@, source@.take(j as int)),
        decreases source.len() - j,
    {
        let mut next = copy_row(row);
        next.push(source[j]);
        let ghost held = out@;
        out.push(next);
        proof {
            assert(source@.take(j + 1) =~= source@.take(j as int).push(source@[j as int]));
            assert(widen(row@, source@.take(j + 1)) =~= widen(row@, source@.take(j as int)).push(
                row@.push(source@[j as int]),
            ));
            assert(table(out@) =~= table(held).push(next@));
            assert(table(out@) =~= before + widen(row@, source@.take(j + 1)));
        }
        j += 1;
    }
    assert(source@.take(source.len() as int) =~= source@);
}

fn expand_rows<T: Copy>(rows: &Vec<Vec<T>>, source: &Vec<T>) -> (out: Vec<Vec<T>>)
    ensures
        table(out@) == expand(table(rows@), source@),
{
    let mut out: Vec<Vec<T>> = Vec::new();
    let mut i: usize = 0;
    assert(table(out@) =~= expand(table(rows@).take(0), source@));
    while i < rows.len()
        invariant
            i <= rows.len(),
            table(out@) == expand(table(rows@).take(i as int), source@),
        decreases rows.len() - i,
    {
        proof {
            let next = table(rows@).take(i + 1);
            assert(next.drop_last() =~= table(rows@).take(i as int));
            assert(next.last() == rows[i as int]@);
        }
        pair_with_each(&rows[i], source, &mut out);
        i += 1;
    }
    assert(table(rows@).take(rows.len() as int) =~= table(rows@));
    out
}

fn keep_rows<T: Copy, P: Fn(usize, &Vec<T>) -> bool>(
    rows: &Vec<Vec<T>>,
    ordinal: usize,
    holds: &P,
) -> (out: Vec<Vec<T>>)
    requires
        forall|k: usize, row: &Vec<T>| call_requires(*holds, (k, row)),
        decided(*holds),
    ensures
        table(out@) == keep(table(rows@), verdicts(*holds), ordinal as nat),
{
    let ghost test = |row: Seq<T>| verdicts(*holds)(ordinal as nat, row);
    let mut out: Vec<Vec<T>> = Vec::new();
    let mut i: usize = 0;
    proof {
        table(rows@).take(0).lemma_filter_len(test);
        assert(table(out@) =~= table(rows@).take(0).filter(test));
    }
    while i < rows.len()
        invariant
            i <= rows.len(),
            forall|k: usize, row: &Vec<T>| call_requires(*holds, (k, row)),
            decided(*holds),
            test == (|row: Seq<T>| verdicts(*holds)(ordinal as nat, row)),
            table(out@) == table(rows@).take(i as int).filter(test),
        decreases rows.len() - i,
    {
        let row = &rows[i];
        let passes = holds(ordinal, row);
        proof {
            let seen = table(rows@).take(i as int);
            assert(table(rows@).take(i + 1) =~= seen.push(row@));
            let verdict = verdicts(*holds)(ordinal as nat, row@);
            assert((ordinal as nat) as usize == ordinal);
            if passes {
                assert(call_ensures(*holds, (ordinal, row), true));
            } else if verdict {
                let a = choose|a: &Vec<T>|
                    a@ == row@ && ordinal as nat <= usize::MAX && #[trigger] call_ensures(
                        *holds,
                        ((ordinal as nat) as usize, a),
                        true,
                    );
                assert(call_ensures(*holds, (ordinal, a), true));
                assert(call_ensures(*holds, (ordinal, row), false));
            }
            assert(passes == verdict);
            assert(passes == test(row@));
            seen.lemma_filter_push(row@, test);
        }
        if passes {
            let copy = copy_row(row);
            let ghost held = out@;
            out.push(copy);
            assert(table(out@) =~= table(held).push(row@));
        }
        i += 1;
    }
    assert(table(rows@).take(rows.len() as int) =~= table(rows@));
    out
}

fn advance<T: Copy, P: Fn(usize, &Vec<T>) -> bool>(
    rows: &Vec<Vec<T>>,
    stage: &Stage,
    sources: &Vec<Vec<T>>,
    holds: &P,
) -> (out: Vec<Vec<T>>)
    requires
        forall|k: usize, row: &Vec<T>| call_requires(*holds, (k, row)),
        decided(*holds),
    ensures
        table(out@) == step(table(rows@), stage@, table(sources@), verdicts(*holds)),
{
    let nothing: Vec<T> = Vec::new();
    match stage {
        Stage::Unit => {
            let mut out: Vec<Vec<T>> = Vec::new();
            out.push(Vec::new());
            assert(table(out@) =~= seq![Seq::<T>::empty()]);
            out
        },
        Stage::Source { set } => {
            let source = if 0 < sources.len() {
                &sources[0]
            } else {
                &nothing
            };
            let mut out: Vec<Vec<T>> = Vec::new();
            assert(table(out@) =~= Seq::<Seq<T>>::empty());
            pair_with_each(&nothing, source, &mut out);
            assert(table(out@) =~= widen(Seq::<T>::empty(), source@));
            out
        },
        Stage::Filter { ordinal, bound, condition } => keep_rows(rows, *ordinal, holds),
        Stage::Expand { bound, set } => {
            let k = bound.len();
            let source = if k < sources.len() {
                &sources[k]
            } else {
                &nothing
            };
            expand_rows(rows, source)
        },
    }
}

/// Runs the stages of a pipeline on given values: `sources` holds what each
/// binding's source yields, in binding order, and `holds` answers for the
/// predicate with the given place among the predicates whether it is true of a
/// row. What comes back are the rows that reach the closing map, in the order
/// in which the pipeline yields them.
pub fn evaluate<T: Copy, P: Fn(usize, &Vec<T>) -> bool>(
    pipeline: &Pipeline,
    sources: &Vec<Vec<T>>,
    holds: P,
) -> (rows: Vec<Vec<T>>)
    requires
        forall|k: usize, row: &Vec<T>| call_requires(holds, (k, row)),
        decided(holds),
    ensures
        table(rows@) == run(pipeline@.stages, table(sources@), verdicts(holds)),
{
    let ghost stages = pipeline@.stages;
    let mut rows: Vec<Vec<T>> = Vec::new();
    let mut i: usize = 0;
    assert(table(rows@) =~= run(stages.take(0), table(sources@), verdicts(holds)));
    while i < pipeline.stages.len()
        invariant
            i <= pipeline.stages.len(),
            stages == pipeline@.stages,
            forall|k: usize, row: &Vec<T>| call_requires(holds, (k, row)),
            decided(holds),
            table(rows@) == run(stages.take(i as int), table(sources@), verdicts(holds)),
        decreases pipeline.stages.len() - i,
    {
        proof {
            let next = stages.take(i + 1);
            assert(next.drop_last() =~= stages.take(i as int));
            assert(next.last() == pipeline.stages[i as int]@);
        }
        rows = advance(&rows, &pipeline.stages[i], sources, &holds);
        i += 1;
    }
    assert(stages.take(pipeline.stages.len() as int) =~= stages);
    rows
}

} // verus!
