use set_builder::clause::{Auxiliary, SetBuilderInput};
use set_builder::pipeline::{lower, Pipeline};
use set_builder::semantics::evaluate;

/// The pipeline of a comprehension.
fn pipeline_of(input: &str) -> Pipeline {
    match SetBuilderInput::parse(input).unwrap() {
        SetBuilderInput::Full { map, auxiliary } => lower(&map, &auxiliary),
        SetBuilderInput::Enum { .. } => panic!("a comprehension was expected"),
    }
}

/// The integers of an array expression.
fn integers(array: &str) -> Vec<i32> {
    let array = syn::parse_str::<syn::ExprArray>(array).unwrap();
    let mut values = Vec::new();
    for element in array.elems.iter() {
        match element {
            syn::Expr::Lit(syn::ExprLit { lit: syn::Lit::Int(n), .. }) => {
                values.push(n.base10_parse::<i32>().unwrap())
            }
            _ => panic!("an integer was expected"),
        }
    }
    values
}

/// What the sources of a comprehension yield, where they are arrays of integers.
fn sources_of(input: &str) -> Vec<Vec<i32>> {
    match SetBuilderInput::parse(input).unwrap() {
        SetBuilderInput::Full { auxiliary, .. } => auxiliary
            .iter()
            .filter_map(|clause| match clause {
                Auxiliary::SetMapping(sm) => Some(integers(&sm.set)),
                Auxiliary::Predicate(_) => None,
            })
            .collect(),
        SetBuilderInput::Enum { .. } => panic!("a comprehension was expected"),
    }
}

/// The tokens of a text, one space apart.
fn tokens(code: &str) -> String {
    code.parse::<proc_macro2::TokenStream>().unwrap().to_string()
}

#[test]
fn full_readme() {
    let input = "x * 2 : x <- [1, 2, 3], *x > 1";
    let code = set_builder::set(input).unwrap();
    assert_eq!(
        tokens(&code),
        tokens("{ #[allow(unused_variables)] ([1, 2, 3]).into_iter().filter(|x| *x > 1).map(|x| x * 2) }")
    );
    assert!(syn::parse_str::<syn::Expr>(&code).is_ok());

    let rows = evaluate(&pipeline_of(input), &sources_of(input), |_: usize, row: &Vec<i32>| {
        let x = &row[0];
        *x > 1
    });
    let set = rows.iter().map(|row| {
        let x = row[0];
        x * 2
    });
    assert_eq!(set.collect::<Vec<_>>(), [4, 6]);
}

#[test]
fn full_unpredicated() {
    let input = "(x, y, z) : x <- [1, 2, 3], y <- [4, 5, 6], z <- [7, 8, 9]";
    let code = set_builder::set(input).unwrap();
    assert_eq!(
        tokens(&code),
        tokens(
            "{ #[allow(unused_variables)] ([1, 2, 3]).into_iter()\
             .flat_map(|x| { ::core::iter::repeat(x).zip(([4, 5, 6]).into_iter()) })\
             .flat_map(|y| { ::core::iter::repeat(y).zip(([7, 8, 9]).into_iter())\
             .map(|((x, y,), new)| (x, y, new)) })\
             .map(|(x, y, z,)| (x, y, z)) }"
        )
    );
    assert!(syn::parse_str::<syn::Expr>(&code).is_ok());

    let rows = evaluate(&pipeline_of(input), &sources_of(input), |_: usize, _: &Vec<i32>| true);
    let set = rows.iter().map(|row| (row[0], row[1], row[2]));

    assert_eq!(
        set.collect::<Vec<_>>(),
        [
            (1, 4, 7),
            (1, 4, 8),
            (1, 4, 9),
            (1, 5, 7),
            (1, 5, 8),
            (1, 5, 9),
            (1, 6, 7),
            (1, 6, 8),
            (1, 6, 9),
            (2, 4, 7),
            (2, 4, 8),
            (2, 4, 9),
            (2, 5, 7),
            (2, 5, 8),
            (2, 5, 9),
            (2, 6, 7),
            (2, 6, 8),
            (2, 6, 9),
            (3, 4, 7),
            (3, 4, 8),
            (3, 4, 9),
            (3, 5, 7),
            (3, 5, 8),
            (3, 5, 9),
            (3, 6, 7),
            (3, 6, 8),
            (3, 6, 9)
        ]
    );
}

#[test]
fn full_predicated() {
    let input = "(x, y, z) : x <- [1, 2, 3], *x > 1, y <- [4, 5, 6], z <- [7, 8, 9], *z != 8";
    let code = set_builder::set(input).unwrap();
    assert_eq!(
        tokens(&code),
        tokens(
            "{ #[allow(unused_variables)] ([1, 2, 3]).into_iter()\
             .filter(|x| *x > 1)\
             .flat_map(|x| { ::core::iter::repeat(x).zip(([4, 5, 6]).into_iter()) })\
             .flat_map(|y| { ::core::iter::repeat(y).zip(([7, 8, 9]).into_iter())\
             .map(|((x, y,), new)| (x, y, new)) })\
             .filter(|(x, y, z,)| *z != 8)\
             .map(|(x, y, z,)| (x, y, z)) }"
        )
    );
    assert!(syn::parse_str::<syn::Expr>(&code).is_ok());

    let rows = evaluate(
        &pipeline_of(input),
        &sources_of(input),
        |predicate: usize, row: &Vec<i32>| match predicate {
            0 => {
                let x = &row[0];
                *x > 1
            }
            _ => {
                let z = &row[2];
                *z != 8
            }
        },
    );
    let set = rows.iter().map(|row| (row[0], row[1], row[2]));

    assert_eq!(
        set.collect::<Vec<_>>(),
        [
            (2, 4, 7),
            (2, 4, 9),
            (2, 5, 7),
            (2, 5, 9),
            (2, 6, 7),
            (2, 6, 9),
            (3, 4, 7),
            (3, 4, 9),
            (3, 5, 7),
            (3, 5, 9),
            (3, 6, 7),
            (3, 6, 9)
        ]
    );
}

#[test]
fn full_pattern() {
    let input =
        "(*a, *b) : (i, a) <- [1, 2, 3].iter().enumerate(), (j, b) <- [10, 20, 30].iter().enumerate(), i != j";
    let code = set_builder::set(input).unwrap();
    assert_eq!(
        tokens(&code),
        tokens(
            "{ #[allow(unused_variables)] ([1, 2, 3].iter().enumerate()).into_iter()\
             .flat_map(|(i, a)| { ::core::iter::repeat((i, a))\
             .zip(([10, 20, 30].iter().enumerate()).into_iter()) })\
             .filter(|((i, a), (j, b),)| i != j)\
             .map(|((i, a), (j, b),)| (*a, *b)) }"
        )
    );
    assert!(syn::parse_str::<syn::Expr>(&code).is_ok());

    let first: Vec<(usize, i32)> = [1, 2, 3].iter().copied().enumerate().collect();
    let second: Vec<(usize, i32)> = [10, 20, 30].iter().copied().enumerate().collect();
    let rows = evaluate(
        &pipeline_of(input),
        &vec![first, second],
        |_: usize, row: &Vec<(usize, i32)>| {
            let ((i, _a), (j, _b)) = (row[0], row[1]);
            i != j
        },
    );
    let set = rows.iter().map(|row| {
        let ((_i, a), (_j, b)) = (row[0], row[1]);
        (a, b)
    });
    assert_eq!(
        set.collect::<Vec<_>>(),
        [(1, 20), (1, 30), (2, 10), (2, 30), (3, 10), (3, 20)]
    );
}

#[test]
fn many() {
    let input = "(a, b, c, d, e, f, g, h, i, j, k)
        : a <- [1, 2, 3],
          b <- [1, 2, 3],
          c <- [1, 2, 3],
          d <- [1, 2, 3],
          e <- [1, 2, 3],
          f <- [1, 2, 3],
          g <- [1, 2, 3],
          h <- [1, 2, 3],
          i <- [1, 2, 3],
          j <- [1, 2, 3],
          k <- [1, 2, 3],
    ";
    let code = set_builder::set(input).unwrap();
    assert!(syn::parse_str::<syn::Expr>(&code).is_ok());

    let rows = evaluate(&pipeline_of(input), &sources_of(input), |_: usize, _: &Vec<i32>| true);
    let set = rows.iter();
    assert_eq!(set.count(), 3_usize.pow(11));
}

#[test]
fn enumeration() {
    let code = set_builder::set("1, 2, 3, 4").unwrap();
    assert_eq!(code, "[1, 2, 3, 4]");
    let set = integers(&code);
    assert_eq!(set, [1, 2, 3, 4]);
}
