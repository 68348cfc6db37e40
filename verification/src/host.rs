//! The boundary to the host language.
//!
//! Expressions and patterns are the host language's own: where one ends is
//! asked of `syn`, and what a text holds as tokens of `proc_macro2`. Nothing
//! here is proved; the contracts name what these crates return.

use vstd::prelude::*;

verus! {

/// What `proc_macro2` prints for the token stream that it lexes from `src`:
/// the tokens one space apart, the characters of an operator together.
/// `None` where `src` does not lex.
pub uninterp spec fn canonical_text(src: Seq<char>) -> Option<Seq<char>>;

/// What is left of `src`, as `proc_macro2` prints it, once `syn` has read one
/// expression off its front. `None` where it reads none.
pub uninterp spec fn expression_rest(src: Seq<char>) -> Option<Seq<char>>;

/// What is left of `src`, as `proc_macro2` prints it, once `syn` has read one
/// pattern without a leading or top-level `|` off its front. `None` where it
/// reads none.
pub uninterp spec fn pattern_rest(src: Seq<char>) -> Option<Seq<char>>;

/// Whether the tokens of `src` begin with what `syn` takes for a literal.
/// `None` where `src` does not lex.
pub uninterp spec fn literal_leads(src: Seq<char>) -> Option<bool>;

/// Lexes `src` with `proc_macro2::TokenStream::from_str` and prints the stream
/// with its `Display`. The empty text lexes to the empty stream, which prints
/// as the empty text.
#[verifier::external_body]
pub(crate) fn canonical(src: &str) -> (text: Option<String>)
    ensures
        text.deep_view() == canonical_text(src@),
        src@.len() == 0 ==> text.deep_view() == Some(Seq::<char>::empty()),
{
    match <proc_macro2::TokenStream as std::str::FromStr>::from_str(src) {
        Ok(stream) => Some(stream.to_string()),
        Err(_) => None,
    }
}

/// Lexes `src`, runs `syn`'s parser for `syn::Expr` on the tokens through
/// `syn::parse::Parser::parse_str`, and prints the tokens that it left.
#[verifier::external_body]
pub(crate) fn rest_after_expression(src: &str) -> (rest: Option<String>)
    ensures
        rest.deep_view() == expression_rest(src@),
{
    let parser = |input: syn::parse::ParseStream| -> syn::Result<proc_macro2::TokenStream> {
        input.parse::<syn::Expr>()?;
        input.parse::<proc_macro2::TokenStream>()
    };
    match syn::parse::Parser::parse_str(parser, src) {
        Ok(rest) => Some(rest.to_string()),
        Err(_) => None,
    }
}

/// Lexes `src`, runs `syn::Pat::parse_single` on the tokens through
/// `syn::parse::Parser::parse_str`, and prints the tokens that it left.
#[verifier::external_body]
pub(crate) fn rest_after_pattern(src: &str) -> (rest: Option<String>)
    ensures
        rest.deep_view() == pattern_rest(src@),
{
    let parser = |input: syn::parse::ParseStream| -> syn::Result<proc_macro2::TokenStream> {
        syn::Pat::parse_single(input)?;
        input.parse::<proc_macro2::TokenStream>()
    };
    match syn::parse::Parser::parse_str(parser, src) {
        Ok(rest) => Some(rest.to_string()),
        Err(_) => None,
    }
}

/// Lexes `src` and asks `syn`, by `ParseBuffer::peek` for `syn::Lit`, whether
/// the tokens begin with a literal: a literal token, `true` or `false`, or a
/// number behind a minus sign.
#[verifier::external_body]
pub(crate) fn literal_ahead(src: &str) -> (leads: Option<bool>)
    ensures
        leads == literal_leads(src@),
{
    let parser = |input: syn::parse::ParseStream| -> syn::Result<bool> {
        let leads = input.peek(syn::Lit);
        input.parse::<proc_macro2::TokenStream>()?;
        Ok(leads)
    };
    match syn::parse::Parser::parse_str(parser, src) {
        Ok(leads) => Some(leads),
        Err(_) => None,
    }
}

} // verus!
