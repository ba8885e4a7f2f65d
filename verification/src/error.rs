use vstd::prelude::*;

verus! {

/// The errors this library reports.
#[derive(Debug)]
pub enum Error {
    /// A line of the input that is neither blank, a `key=value` pair nor a `[section]`
    /// header; the message names the offending line.
    ParseError(String),
    /// A message from the conversion of a parsed document into other values.
    Message(String),
}

} // verus!
