//! A small INI parser: `key=value` lines, `[section]` headers and `;` comments.
use vstd::prelude::*;

pub mod error;
pub mod laws;
pub mod parser;
pub mod text;

pub use error::Error;
pub use parser::Ini;
use parser::parse_outcome;

verus! {

/// Parses INI text into a document whose strings borrow from `input`; see
/// [`parser::parse`] for the grammar.
pub fn parse_ini(input: &str) -> (r: Result<Ini<'_>, Error>)
    ensures
        parse_outcome(r, input@),
{
    parser::parse(input)
}

} // verus!
