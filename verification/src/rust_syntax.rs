//! Questions about Rust syntax that the `syn` crate answers: whether a text
//! parses completely as an expression, a type, a function parameter or an
//! identifier, and `syn`'s message when it does not.
use vstd::prelude::*;

verus! {

/// What `syn::parse_str::<syn::Expr>` says of the text: `None` when it parses,
/// else the error's message.
pub uninterp spec fn syn_expr(text: Seq<char>) -> Option<Seq<char>>;

/// What parsing the whole text with `syn::Expr::parse_without_eager_brace`
/// says: `None` when it parses, else the error's message.
pub uninterp spec fn syn_expr_no_brace(text: Seq<char>) -> Option<Seq<char>>;

/// What `syn::parse_str::<syn::Type>` says of the text.
pub uninterp spec fn syn_type(text: Seq<char>) -> Option<Seq<char>>;

/// What `syn::parse_str::<syn::FnArg>` says of the text.
pub uninterp spec fn syn_fn_arg(text: Seq<char>) -> Option<Seq<char>>;

/// What `syn::parse_str::<syn::Ident>` says of the text.
pub uninterp spec fn syn_ident(text: Seq<char>) -> Option<Seq<char>>;

pub open spec fn answer_view(r: Option<String>) -> Option<Seq<char>> {
    match r {
        Some(m) => Some(m@),
        None => None,
    }
}

/// Calls `syn::parse_str::<syn::Expr>`: `None` when the whole text is one
/// expression, else the error's message. Rust's expression grammar is not
/// restated; the contract names the answer, a function of the text alone.
#[verifier::external_body]
pub(crate) fn expr_error(text: &str) -> (r: Option<String>)
    ensures
        answer_view(r) == syn_expr(text@),
{
    match syn::parse_str::<syn::Expr>(text) {
        Ok(_) => None,
        Err(e) => Some(e.to_string()),
    }
}

/// Parses the whole text with `syn::Expr::parse_without_eager_brace` through
/// `syn::parse::Parser::parse_str`: `None` when it succeeds, else the message.
#[verifier::external_body]
pub(crate) fn expr_no_brace_error(text: &str) -> (r: Option<String>)
    ensures
        answer_view(r) == syn_expr_no_brace(text@),
{
    match syn::parse::Parser::parse_str(syn::Expr::parse_without_eager_brace, text) {
        Ok(_) => None,
        Err(e) => Some(e.to_string()),
    }
}

/// Calls `syn::parse_str::<syn::Type>`: `None` when the whole text is one type.
#[verifier::external_body]
pub(crate) fn type_error(text: &str) -> (r: Option<String>)
    ensures
        answer_view(r) == syn_type(text@),
{
    match syn::parse_str::<syn::Type>(text) {
        Ok(_) => None,
        Err(e) => Some(e.to_string()),
    }
}

/// Calls `syn::parse_str::<syn::FnArg>`: `None` when the whole text is one
/// function parameter.
#[verifier::external_body]
pub(crate) fn fn_arg_error(text: &str) -> (r: Option<String>)
    ensures
        answer_view(r) == syn_fn_arg(text@),
{
    match syn::parse_str::<syn::FnArg>(text) {
        Ok(_) => None,
        Err(e) => Some(e.to_string()),
    }
}

/// Calls `syn::parse_str::<syn::Ident>`: `None` when the text is one
/// identifier that is not a keyword.
#[verifier::external_body]
pub(crate) fn ident_error(text: &str) -> (r: Option<String>)
    ensures
        answer_view(r) == syn_ident(text@),
{
    match syn::parse_str::<syn::Ident>(text) {
        Ok(_) => None,
        Err(e) => Some(e.to_string()),
    }
}

} // verus!
