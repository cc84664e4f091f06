//! Parses Rust text into the plain syntax model.
use vstd::prelude::*;

use super::SyntaxItem;
use super::syn_api::{error_message, parse_file, rust_file};

verus! {

/// Why a text yields no syntax model.
#[derive(Debug)]
pub enum SyntaxError {
    /// `syn` rejects the text; the message is its error's.
    Invalid { message: String },
}

/// Whether `syn` accepts the text as a Rust file.
pub open spec fn parses_as_rust_file(text: Seq<char>) -> bool {
    rust_file(text) is Some
}

/// The items that `syn` parses from a Rust file, in the model's types.
pub open spec fn rust_items(text: Seq<char>) -> Seq<SyntaxItem>
    recommends
        parses_as_rust_file(text),
{
    rust_file(text).unwrap()
}

/// Parses Rust text into the items that the rules read: the items of the file where
/// `syn` accepts the text, its error's message where it does not.
pub fn parse_source(text: &str) -> (result: Result<Vec<SyntaxItem>, SyntaxError>)
    ensures
        result is Ok <==> parses_as_rust_file(text@),
        result matches Ok(items) ==> items@ == rust_items(text@),
{
    match parse_file(text) {
        Ok(items) => Ok(items),
        Err(error) => Err(SyntaxError::Invalid { message: error_message(&error) }),
    }
}

} // verus!
