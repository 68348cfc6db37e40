use set_builder::clause::{Auxiliary, SetMapping};
use set_builder::pipeline::{lower, NameTuple, Pipeline, Stage};
use set_builder::semantics::evaluate;

fn text(s: &str) -> String {
    s.to_string()
}

fn binding(name: &str) -> Auxiliary {
    Auxiliary::SetMapping(SetMapping { name: text(name), set: text("s") })
}

fn predicate() -> Auxiliary {
    Auxiliary::Predicate(text("p"))
}

fn pipeline(clauses: Vec<Auxiliary>) -> Pipeline {
    lower(&text("out"), &clauses)
}

fn everything(_: usize, _: &Vec<i32>) -> bool {
    true
}

#[test]
fn one_binding_and_a_filter() {
    let rows = evaluate(
        &pipeline(vec![binding("x"), predicate()]),
        &vec![vec![5, 8, 1, 9, 2]],
        |_: usize, row: &Vec<i32>| row[0] % 2 == 1,
    );
    let expected: Vec<i32> = [5, 8, 1, 9, 2].into_iter().filter(|v| v % 2 == 1).collect();
    assert_eq!(rows, expected.iter().map(|v| vec![*v]).collect::<Vec<_>>());
    let outputs: Vec<i32> = rows.iter().map(|row| row[0] * 10).collect();
    assert_eq!(outputs, [50, 10, 90]);
}

#[test]
fn the_last_binding_varies_fastest() {
    let rows = evaluate(
        &pipeline(vec![binding("a"), binding("b"), binding("c")]),
        &vec![vec![1, 2, 3], vec![4, 5, 6], vec![7, 8, 9]],
        everything,
    );
    assert_eq!(rows[0], [1, 4, 7]);
    assert_eq!(rows[1], [1, 4, 8]);
    assert_eq!(rows[2], [1, 4, 9]);
    assert_eq!(rows[3], [1, 5, 7]);
    assert_eq!(rows[26], [3, 6, 9]);
}

#[test]
fn rows_stand_in_row_major_order() {
    let sources = vec![vec![1, 2], vec![10, 20, 30], vec![100, 200, 300, 400]];
    let rows = evaluate(&pipeline(vec![binding("a"), binding("b"), binding("c")]), &sources, everything);
    assert_eq!(rows.len(), 2 * 3 * 4);
    let strides = [12, 4, 1];
    for (i, row) in rows.iter().enumerate() {
        assert_eq!(row.len(), 3);
        for k in 0..3 {
            assert_eq!(row[k], sources[k][(i / strides[k]) % sources[k].len()]);
        }
    }
}

#[test]
fn each_outer_row_comes_once_per_inner_element() {
    let sources = vec![vec![1, 2, 3], vec![4, 5], vec![6, 7]];
    let outer = evaluate(&pipeline(vec![binding("a"), binding("b")]), &sources, everything);
    let rows = evaluate(&pipeline(vec![binding("a"), binding("b"), binding("c")]), &sources, everything);
    assert_eq!(rows.len(), outer.len() * 2);
    for i in 0..outer.len() {
        for j in 0..2 {
            let mut expected = outer[i].clone();
            expected.push(sources[2][j]);
            assert_eq!(rows[i * 2 + j], expected);
        }
    }
}

#[test]
fn a_predicate_between_bindings_prunes_before_the_next_source() {
    let clauses = vec![binding("x"), predicate(), binding("y"), binding("z"), predicate()];
    let plan = pipeline(clauses);
    // The filter on `x` stands before the expansion by `y`.
    assert!(matches!(plan.stages[1], Stage::Filter { ordinal: 0, .. }));
    assert!(matches!(plan.stages[2], Stage::Expand { .. }));

    let sources = vec![vec![1, 2, 3], vec![4, 5, 6], vec![7, 8, 9]];
    let rows = evaluate(&plan, &sources, |predicate: usize, row: &Vec<i32>| match predicate {
        0 => row[0] > 1,
        _ => row[2] != 8,
    });

    let mut expected = Vec::new();
    for x in [1, 2, 3] {
        if x > 1 {
            for y in [4, 5, 6] {
                for z in [7, 8, 9] {
                    if z != 8 {
                        expected.push(vec![x, y, z]);
                    }
                }
            }
        }
    }
    assert_eq!(rows, expected);
    assert!(rows.iter().all(|row| row[0] != 1 && row[2] != 8));
    assert_eq!(rows.len(), 2 * 3 * 2);
}

#[test]
fn a_filter_sees_the_names_bound_so_far() {
    let plan = pipeline(vec![binding("x"), binding("y"), predicate(), binding("z")]);
    let mut widths = Vec::new();
    let rows = evaluate(
        &plan,
        &vec![vec![1, 2], vec![1, 2], vec![0]],
        |_: usize, row: &Vec<i32>| row.len() == 2 && row[0] != row[1],
    );
    for row in rows.iter() {
        widths.push(row.len());
    }
    assert_eq!(rows, [[1, 2, 0], [2, 1, 0]]);
    assert_eq!(widths, [3, 3]);
}

#[test]
fn bindings_over_equal_sources_yield_a_power() {
    for n in 0..6_u32 {
        for m in 0..4_usize {
            let clauses: Vec<Auxiliary> = (0..n).map(|_| binding("v")).collect();
            let sources: Vec<Vec<i32>> = (0..n).map(|_| (0..m as i32).collect()).collect();
            let rows = evaluate(&pipeline(clauses), &sources, everything);
            assert_eq!(rows.len(), m.pow(n), "{} bindings over {} elements", n, m);
        }
    }
}

#[test]
fn no_binding_yields_one_row() {
    assert_eq!(evaluate(&pipeline(vec![]), &vec![], everything), [Vec::<i32>::new()]);
    assert_eq!(evaluate(&pipeline(vec![predicate()]), &vec![], everything), [Vec::<i32>::new()]);
    assert_eq!(
        evaluate(&pipeline(vec![predicate(), predicate()]), &vec![], |k: usize, _: &Vec<i32>| k == 0),
        Vec::<Vec<i32>>::new()
    );
}

#[test]
fn an_empty_source_yields_nothing() {
    let rows = evaluate(
        &pipeline(vec![binding("a"), binding("b")]),
        &vec![vec![1, 2, 3], vec![]],
        everything,
    );
    assert_eq!(rows, Vec::<Vec<i32>>::new());
}

#[test]
fn a_binding_without_a_source_yields_nothing() {
    let rows = evaluate(&pipeline(vec![binding("a"), binding("b")]), &vec![vec![1, 2, 3]], everything);
    assert_eq!(rows, Vec::<Vec<i32>>::new());
    let rows = evaluate(&pipeline(vec![binding("a")]), &vec![], everything);
    assert_eq!(rows, Vec::<Vec<i32>>::new());
}

#[test]
fn a_predicate_before_the_first_binding_does_not_filter() {
    let rows = evaluate(
        &pipeline(vec![predicate(), binding("x")]),
        &vec![vec![1, 2]],
        |_: usize, _: &Vec<i32>| false,
    );
    assert_eq!(rows, [[1], [2]]);
}

#[test]
fn predicates_are_counted_in_source_order() {
    let plan = pipeline(vec![binding("x"), predicate(), predicate(), binding("y"), predicate()]);
    let mut asked = vec![];
    for stage in plan.stages.iter() {
        if let Stage::Filter { ordinal, .. } = stage {
            asked.push(*ordinal);
        }
    }
    assert_eq!(asked, [0, 1, 2]);
}

#[test]
fn stages_run_as_they_stand() {
    let plan = Pipeline {
        stages: vec![
            Stage::Source { set: text("a") },
            Stage::Expand { bound: NameTuple { names: vec![text("x")] }, set: text("b") },
            Stage::Filter {
                ordinal: 7,
                bound: NameTuple { names: vec![text("x"), text("y")] },
                condition: text("p"),
            },
        ],
        bound: NameTuple { names: vec![text("x"), text("y")] },
        output: text("out"),
    };
    let rows = evaluate(&plan, &vec![vec!['a', 'b'], vec!['c', 'd']], |k: usize, row: &Vec<char>| {
        k == 7 && row[1] == 'd'
    });
    assert_eq!(rows, [['a', 'd'], ['b', 'd']]);
}

#[test]
fn filters_keep_the_order_of_the_rows() {
    let rows = evaluate(
        &pipeline(vec![binding("x"), binding("y"), predicate()]),
        &vec![vec![3, 1, 2], vec![2, 3, 1]],
        |_: usize, row: &Vec<i32>| row[0] < row[1],
    );
    assert_eq!(rows, [[1, 2], [1, 3], [2, 3]]);
}

#[test]
fn rows_hold_one_value_for_each_name() {
    let lists = vec![
        vec![],
        vec![predicate()],
        vec![binding("a")],
        vec![predicate(), binding("a"), predicate()],
        vec![binding("a"), predicate(), binding("b"), binding("c"), predicate()],
    ];
    for clauses in lists {
        let plan = pipeline(clauses);
        let rows = evaluate(&plan, &vec![vec![1, 2], vec![3, 4], vec![5, 6]], everything);
        assert!(!rows.is_empty());
        for row in rows.iter() {
            assert_eq!(row.len(), plan.bound.len());
        }
    }
}

#[test]
fn a_skipped_predicate_that_holds_changes_nothing() {
    let with = evaluate(
        &pipeline(vec![predicate(), binding("x"), predicate(), binding("y")]),
        &vec![vec![1, 2, 3], vec![1, 2, 3]],
        |k: usize, row: &Vec<i32>| k == 0 || row[0] != 2,
    );
    let mut expected = Vec::new();
    let holds_of_nothing = true;
    if holds_of_nothing {
        for x in [1, 2, 3] {
            if x != 2 {
                for y in [1, 2, 3] {
                    expected.push(vec![x, y]);
                }
            }
        }
    }
    assert_eq!(with, expected);
}
