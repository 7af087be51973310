//! A reader for TJSON, a text-first spelling of JSON data.
use vstd::prelude::*;

pub mod text;
pub mod jsonlit;
pub mod number;
pub mod error;
pub mod options;
pub mod value;
pub mod document;
pub mod lex;
pub mod minimal;
pub mod parse;
pub mod cli;

verus! {
} // verus!
