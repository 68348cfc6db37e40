use set_builder::clause::{Auxiliary, SetBuilderInput, SetMapping};
use set_builder::pipeline::{enumerate, generate, lower, NameTuple, Pipeline, Stage};

fn text(s: &str) -> String {
    s.to_string()
}

fn names(list: &[&str]) -> NameTuple {
    NameTuple { names: list.iter().map(|name| name.to_string()).collect() }
}

fn binding(name: &str, set: &str) -> Auxiliary {
    Auxiliary::SetMapping(SetMapping { name: text(name), set: text(set) })
}

fn predicate(condition: &str) -> Auxiliary {
    Auxiliary::Predicate(text(condition))
}

#[test]
fn names_grow_in_binding_order() {
    let mut tuple = NameTuple::new();
    assert_eq!(tuple.len(), 0);
    tuple.bind(&text("x"));
    tuple.bind(&text("(i , a)"));
    assert_eq!(tuple.len(), 2);
    assert_eq!(tuple, names(&["x", "(i , a)"]));
    assert_eq!(tuple.snapshot(), tuple);
}

#[test]
fn no_name_is_an_ignored_input() {
    let tuple = NameTuple::new();
    assert_eq!(tuple.pattern(), "_");
    assert_eq!(tuple.outer(), "_");
    assert_eq!(tuple.list(), "");
    assert_eq!(tuple.tuple(), "()");
}

#[test]
fn one_name_stands_alone() {
    let tuple = names(&["x"]);
    assert_eq!(tuple.pattern(), "x");
    assert_eq!(tuple.outer(), "x");
    assert_eq!(tuple.list(), "x, ");
    assert_eq!(tuple.tuple(), "(x, )");
}

#[test]
fn more_names_are_one_group() {
    let tuple = names(&["x", "y", "z"]);
    assert_eq!(tuple.pattern(), "(x, y, z, )");
    assert_eq!(tuple.outer(), "z");
    assert_eq!(tuple.list(), "x, y, z, ");
    assert_eq!(tuple.tuple(), "(x, y, z, )");
}

#[test]
fn code_of_the_stages() {
    assert_eq!(Stage::Unit.render(), "::core::iter::once(())");
    assert_eq!(Stage::Source { set: text("[1 , 2]") }.render(), "([1 , 2]).into_iter()");
    assert_eq!(
        Stage::Filter { ordinal: 0, bound: names(&[]), condition: text("a > b") }.render(),
        ".filter(| _ | a > b)"
    );
    assert_eq!(
        Stage::Filter { ordinal: 3, bound: names(&["x"]), condition: text("* x > 1") }.render(),
        ".filter(| x | * x > 1)"
    );
    assert_eq!(
        Stage::Filter { ordinal: 1, bound: names(&["x", "y"]), condition: text("x != y") }.render(),
        ".filter(| (x, y, ) | x != y)"
    );
}

#[test]
fn code_of_the_expansion_behind_the_second_binding() {
    assert_eq!(
        Stage::Expand { bound: names(&["x"]), set: text("b") }.render(),
        ".flat_map(| x | { ::core::iter::repeat(x).zip((b).into_iter()) })"
    );
}

#[test]
fn code_of_the_expansion_behind_a_later_binding() {
    assert_eq!(
        Stage::Expand { bound: names(&["x", "y"]), set: text("c") }.render(),
        ".flat_map(| y | { ::core::iter::repeat(y).zip((c).into_iter())\
         .map(| ((x, y, ), new) | (x, y, new)) })"
    );
}

#[test]
fn folds_bindings_and_predicates_in_their_order() {
    let clauses = vec![
        binding("x", "a"),
        predicate("p"),
        binding("y", "b"),
        predicate("q"),
        binding("z", "c"),
        predicate("r"),
    ];
    assert_eq!(
        lower(&text("out"), &clauses),
        Pipeline {
            stages: vec![
                Stage::Source { set: text("a") },
                Stage::Filter { ordinal: 0, bound: names(&["x"]), condition: text("p") },
                Stage::Expand { bound: names(&["x"]), set: text("b") },
                Stage::Filter { ordinal: 1, bound: names(&["x", "y"]), condition: text("q") },
                Stage::Expand { bound: names(&["x", "y"]), set: text("c") },
                Stage::Filter { ordinal: 2, bound: names(&["x", "y", "z"]), condition: text("r") },
            ],
            bound: names(&["x", "y", "z"]),
            output: text("out"),
        }
    );
}

#[test]
fn no_clause_leaves_the_placeholder() {
    assert_eq!(
        lower(&text("out"), &vec![]),
        Pipeline { stages: vec![Stage::Unit], bound: names(&[]), output: text("out") }
    );
    assert_eq!(
        set_builder::set("x + 1 :"),
        Ok(text("{ #[allow(unused_variables)] ::core::iter::once(()).map(| _ | x + 1) }"))
    );
}

#[test]
fn predicates_alone_filter_the_placeholder() {
    assert_eq!(
        lower(&text("out"), &vec![predicate("p"), predicate("q")]),
        Pipeline {
            stages: vec![
                Stage::Unit,
                Stage::Filter { ordinal: 0, bound: names(&[]), condition: text("p") },
                Stage::Filter { ordinal: 1, bound: names(&[]), condition: text("q") },
            ],
            bound: names(&[]),
            output: text("out"),
        }
    );
    assert_eq!(
        set_builder::set("x : a > b"),
        Ok(text(
            "{ #[allow(unused_variables)] ::core::iter::once(()).filter(| _ | a > b).map(| _ | x) }"
        ))
    );
}

#[test]
fn the_first_binding_starts_the_pipeline() {
    // What was folded before the first binding does not stay.
    assert_eq!(
        lower(&text("x"), &vec![predicate("p"), binding("x", "a"), predicate("q")]),
        Pipeline {
            stages: vec![
                Stage::Source { set: text("a") },
                Stage::Filter { ordinal: 1, bound: names(&["x"]), condition: text("q") },
            ],
            bound: names(&["x"]),
            output: text("x"),
        }
    );
}

#[test]
fn one_binding_is_not_wrapped_into_a_group() {
    assert_eq!(
        set_builder::set("x * 2 : x <- [1, 2, 3], *x > 1"),
        Ok(text(
            "{ #[allow(unused_variables)] ([1 , 2 , 3]).into_iter().filter(| x | * x > 1).map(| x | x * 2) }"
        ))
    );
}

#[test]
fn three_bindings_stay_one_flat_group() {
    assert_eq!(
        set_builder::set("(x, y, z) : x <- a, y <- b, z <- c"),
        Ok(text(
            "{ #[allow(unused_variables)] (a).into_iter()\
             .flat_map(| x | { ::core::iter::repeat(x).zip((b).into_iter()) })\
             .flat_map(| y | { ::core::iter::repeat(y).zip((c).into_iter())\
             .map(| ((x, y, ), new) | (x, y, new)) })\
             .map(| (x, y, z, ) | (x , y , z)) }"
        ))
    );
}

#[test]
fn four_bindings_flatten_again() {
    let code = set_builder::set("w : w <- a, x <- b, y <- c, z <- d").unwrap();
    assert!(code.contains(".map(| ((w, x, y, ), new) | (w, x, y, new)) })"));
    assert!(code.ends_with(".map(| (w, x, y, z, ) | w) }"));
    assert!(syn::parse_str::<syn::Expr>(&code).is_ok());
}

#[test]
fn a_pattern_is_written_as_it_was_read() {
    let code = set_builder::set("a : (i, a) <- s, (j, b) <- t, i != j").unwrap();
    assert_eq!(
        code,
        "{ #[allow(unused_variables)] (s).into_iter()\
         .flat_map(| (i , a) | { ::core::iter::repeat((i , a)).zip((t).into_iter()) })\
         .filter(| ((i , a), (j , b), ) | i != j)\
         .map(| ((i , a), (j , b), ) | a) }"
    );
    assert!(syn::parse_str::<syn::Expr>(&code).is_ok());
}

#[test]
fn writes_a_literal_list() {
    assert_eq!(enumerate(&vec![]), "[]");
    assert_eq!(enumerate(&vec![text("1")]), "[1]");
    assert_eq!(enumerate(&vec![text("1"), text("a + b"), text("3")]), "[1, a + b, 3]");
}

#[test]
fn a_literal_list_holds_each_element_at_its_place() {
    let elements = vec![text("10"), text("f (x)"), text("3")];
    let code = enumerate(&elements);
    let mut at = 1;
    for element in elements.iter() {
        assert_eq!(&code[at..at + element.len()], element);
        at += element.len() + 2;
    }
    assert_eq!(code.len(), at - 1);
    assert!(code.starts_with('['));
    assert!(code.ends_with(']'));
}

#[test]
fn generates_either_form() {
    assert_eq!(generate(&SetBuilderInput::Enum { exprs: vec![text("1"), text("2")] }), "[1, 2]");
    assert_eq!(
        generate(&SetBuilderInput::Full { map: text("x"), auxiliary: vec![binding("x", "a")] }),
        "{ #[allow(unused_variables)] (a).into_iter().map(| x | x) }"
    );
}

#[test]
fn generated_code_is_an_expression() {
    for input in [
        "",
        "1, 2, 3",
        "x :",
        "x : a > b",
        "x : x <- a",
        "(x, y) : x <- a, y <- b",
        "(x, y, z) : x <- a, x > 1, y <- b, z <- c, z != 8",
        "a : (i, a) <- s.iter().enumerate(), (j, b) <- t.iter().enumerate(), (k, c) <- u, i != j",
    ] {
        let code = set_builder::set(input).unwrap();
        assert!(syn::parse_str::<syn::Expr>(&code).is_ok(), "{}", code);
    }
}

#[test]
fn what_clauses_fold_into_is_well_formed() {
    let lists = vec![
        vec![],
        vec![predicate("p")],
        vec![binding("x", "a")],
        vec![predicate("p"), binding("x", "a"), predicate("q"), binding("y", "b")],
        vec![binding("x", "a"), binding("y", "b"), predicate("p"), binding("z", "c")],
    ];
    for clauses in lists {
        let plan = lower(&text("out"), &clauses);
        assert!(matches!(plan.stages[0], Stage::Unit | Stage::Source { .. }));
        if matches!(plan.stages[0], Stage::Unit) {
            assert_eq!(plan.bound.len(), 0);
        }
        for stage in plan.stages[1..].iter() {
            match stage {
                Stage::Filter { bound, .. } => {
                    assert_eq!(bound.names[..], plan.bound.names[..bound.len()]);
                }
                Stage::Expand { bound, .. } => {
                    assert!(1 <= bound.len() && bound.len() < plan.bound.len());
                    assert_eq!(bound.names[..], plan.bound.names[..bound.len()]);
                }
                _ => panic!("a pipeline begins once"),
            }
        }
    }
}
