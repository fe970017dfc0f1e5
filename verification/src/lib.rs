//! Formatter for the Nestix `layout!` and `style!` DSLs embedded in Rust source.
use vstd::prelude::*;

pub mod text;
pub mod scan;
pub mod lexer;
pub mod rust_syntax;
pub mod format;
pub mod style;
pub mod syntax;
pub mod style_syntax;
pub mod source;
pub mod comments;
pub mod properties;
pub mod cli;

verus! {
} // verus!
