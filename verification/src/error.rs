//! Why an input is rejected.

use vstd::prelude::*;

verus! {

/// A rejection. Where text is at fault the error holds it: the input from the
/// place at which parsing stopped, or the name that a rule was broken for.
#[derive(Debug, PartialEq, Eq)]
pub enum SetError {
    /// The input is no sequence of tokens.
    Lex,
    /// No output expression followed by `:` stands where `rest` begins.
    Separator { rest: String },
    /// `rest` begins with neither a binding nor a predicate.
    Clause { rest: String },
    /// A clause or an element ended before `rest`, and no `,` follows it.
    Comma { rest: String },
    /// `rest` begins with no element of a literal list.
    Element { rest: String },
    /// A declared name that no binding binds.
    Unbound { name: String },
    /// A bound name that is not declared.
    Unused { name: String },
    /// A name that an earlier binding has bound already.
    Redeclared { name: String },
}

/// The model of a [`SetError`].
pub enum Failure {
    Lex,
    Separator { rest: Seq<char> },
    Clause { rest: Seq<char> },
    Comma { rest: Seq<char> },
    Element { rest: Seq<char> },
    Unbound { name: Seq<char> },
    Unused { name: Seq<char> },
    Redeclared { name: Seq<char> },
}

impl View for SetError {
    type V = Failure;

    open spec fn view(&self) -> Failure {
        match self {
            SetError::Lex => Failure::Lex,
            SetError::Separator { rest } => Failure::Separator { rest: rest@ },
            SetError::Clause { rest } => Failure::Clause { rest: rest@ },
            SetError::Comma { rest } => Failure::Comma { rest: rest@ },
            SetError::Element { rest } => Failure::Element { rest: rest@ },
            SetError::Unbound { name } => Failure::Unbound { name: name@ },
            SetError::Unused { name } => Failure::Unused { name: name@ },
            SetError::Redeclared { name } => Failure::Redeclared { name: name@ },
        }
    }
}

impl DeepView for SetError {
    type V = Failure;

    open spec fn deep_view(&self) -> Failure {
        self@
    }
}

/// The model of a result.
pub open spec fn outcome<T: DeepView>(result: Result<T, SetError>) -> Result<T::V, Failure> {
    match result {
        Ok(value) => Ok(value.deep_view()),
        Err(error) => Err(error@),
    }
}

/// What a rejection says.
pub open spec fn message_text(failure: Failure) -> Seq<char> {
    match failure {
        Failure::Lex => "cannot read the input as tokens"@,
        Failure::Separator { rest } =>
            "expected `:` after bindings, if you were trying to create an array, use `[...]` instead"@,
        Failure::Clause { rest } => "expected a binding or a predicate, found `"@ + rest + "`"@,
        Failure::Comma { rest } => "expected `,`, found `"@ + rest + "`"@,
        Failure::Element { rest } => "expected an expression, found `"@ + rest + "`"@,
        Failure::Unbound { name } => "`"@ + name + "` is not bound to any sets."@,
        Failure::Unused { name } => "binding to `"@ + name + "` is unused."@,
        Failure::Redeclared { name } => "`"@ + name + "` is bound more than once."@,
    }
}

fn quoted(before: &str, text: &String, after: &str) -> (message: String)
    ensures
        message@ == before@ + text@ + after@,
{
    let mut message = before.to_owned();
    message.append(text.as_str());
    message.append(after);
    message
}

impl SetError {
    /// The message of this error.
    pub fn message(&self) -> (message: String)
        ensures
            message@ == message_text(self@),
    {
        match self {
            SetError::Lex => "cannot read the input as tokens".to_owned(),
            SetError::Separator { rest } =>
                "expected `:` after bindings, if you were trying to create an array, use `[...]` instead".to_owned(),
            SetError::Clause { rest } => quoted("expected a binding or a predicate, found `", rest, "`"),
            SetError::Comma { rest } => quoted("expected `,`, found `", rest, "`"),
            SetError::Element { rest } => quoted("expected an expression, found `", rest, "`"),
            SetError::Unbound { name } => quoted("`", name, "` is not bound to any sets."),
            SetError::Unused { name } => quoted("binding to `", name, "` is unused."),
            SetError::Redeclared { name } => quoted("`", name, "` is bound more than once."),
        }
    }
}

} // verus!
