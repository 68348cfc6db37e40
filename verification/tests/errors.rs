use set_builder::error::SetError;

fn rest(text: &str) -> String {
    text.to_string()
}

#[test]
fn rejects_what_does_not_lex() {
    assert_eq!(set_builder::set("("), Err(SetError::Lex));
    assert_eq!(set_builder::set("x : y <- [1, 2"), Err(SetError::Lex));
    assert_eq!(set_builder::set("x : y <- \"open"), Err(SetError::Lex));
}

#[test]
fn misses_the_separator_behind_the_output() {
    assert_eq!(set_builder::set("x"), Err(SetError::Separator { rest: rest("") }));
    assert_eq!(set_builder::set("x y"), Err(SetError::Separator { rest: rest("y") }));
    assert_eq!(
        set_builder::set("(x, y), x <- a"),
        Err(SetError::Separator { rest: rest(", x <- a") })
    );
}

#[test]
fn misses_the_separator_where_no_output_can_be_read() {
    assert_eq!(
        set_builder::set("+ : x <- [1]"),
        Err(SetError::Separator { rest: rest("+ : x <- [1]") })
    );
    assert_eq!(set_builder::set(": x <- [1]"), Err(SetError::Separator { rest: rest(": x <- [1]") }));
}

#[test]
fn names_the_text_that_is_no_clause() {
    assert_eq!(set_builder::set("x : x <- [1], <"), Err(SetError::Clause { rest: rest("<") }));
    assert_eq!(set_builder::set("x : x <-"), Err(SetError::Clause { rest: rest("x <-") }));
    assert_eq!(set_builder::set("x : , x <- a"), Err(SetError::Clause { rest: rest(", x <- a") }));
}

#[test]
fn names_the_text_before_which_a_comma_is_missing() {
    assert_eq!(
        set_builder::set("x : x <- [1] y <- [2]"),
        Err(SetError::Comma { rest: rest("y <- [2]") })
    );
    assert_eq!(set_builder::set("1 2"), Err(SetError::Comma { rest: rest("2") }));
}

#[test]
fn names_the_text_that_is_no_element() {
    assert_eq!(set_builder::set("1, <"), Err(SetError::Element { rest: rest("<") }));
    assert_eq!(set_builder::set("1, , 2"), Err(SetError::Element { rest: rest(", 2") }));
}

#[test]
fn an_error_leaves_no_code() {
    assert!(set_builder::set("x : x <- [1], <").is_err());
    assert!(set_builder::set("1, <").is_err());
}

#[test]
fn messages_of_parse_errors() {
    assert_eq!(SetError::Lex.message(), "cannot read the input as tokens");
    assert_eq!(
        SetError::Separator { rest: rest("y") }.message(),
        "expected `:` after bindings, if you were trying to create an array, use `[...]` instead"
    );
    assert_eq!(
        SetError::Clause { rest: rest("< 1") }.message(),
        "expected a binding or a predicate, found `< 1`"
    );
    assert_eq!(SetError::Comma { rest: rest("y <- b") }.message(), "expected `,`, found `y <- b`");
    assert_eq!(SetError::Element { rest: rest("<") }.message(), "expected an expression, found `<`");
}

#[test]
fn messages_of_validation_errors() {
    assert_eq!(
        SetError::Unbound { name: rest("y") }.message(),
        "`y` is not bound to any sets."
    );
    assert_eq!(SetError::Unused { name: rest("z") }.message(), "binding to `z` is unused.");
    assert_eq!(
        SetError::Redeclared { name: rest("x") }.message(),
        "`x` is bound more than once."
    );
}

#[test]
fn the_separator_message_tells_the_array_apart() {
    let message = set_builder::set("x, y").unwrap_err().message();
    assert!(message.contains("expected `:`"));
    assert!(message.contains("use `[...]` instead"));
}
