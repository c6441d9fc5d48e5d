//! md-doc-search library: offline full-text search over Markdown corpora,
//! tuned for grounding AI coding agents on exact documentation.
//!
//! The pipeline has three stages:
//!
//! - [`parse`] slices a corpus into [`Section`]s along ATX/Setext headings
//!   (levels 1-3), skipping fenced code blocks and keeping each section's
//!   heading ancestry;
//! - [`rank`] normalizes the query into keywords, measures how each section
//!   matches them, and selects the top-k sections once they are scored;
//! - [`render`] lays the winning sections out under a character budget.

pub mod parse;
pub mod rank;
pub mod render;

pub mod text;

pub use parse::{parse_sections, Section};

use vstd::prelude::*;

verus! {

/// `std::io::Error`, carried by [`SearchError::Io`].
#[verifier::external_type_specification]
#[verifier::external_body]
pub struct ExIoError(std::io::Error);

/// Errors returned by the search pipeline.
#[derive(Debug)]
pub enum SearchError {
    /// The corpus file could not be read.
    Io(std::io::Error),
    /// The query contains no usable keyword.
    EmptyQuery,
    /// A numeric argument is out of range (must be at least 1).
    InvalidParam(&'static str),
}

/// The text of an I/O error, as its `Display` impl writes it. The text comes
/// from the operating system, so nothing is claimed of it.
#[verifier::external_body]
fn io_error_text(e: &std::io::Error) -> (r: String) {
    format!("{}", e)
}

/// The message for a corpus that could not be read, given the text of the
/// I/O error.
pub fn io_message(text: &str) -> (r: String)
    ensures
        r@ == "cannot read corpus file: "@ + text@,
{
    let mut r = String::new();
    r.append("cannot read corpus file: ");
    r.append(text);
    r
}

impl SearchError {
    /// The message of the error, as the command line prints it after
    /// `error: `. For an I/O error it is `io_message` of the error's text,
    /// which comes from the operating system.
    pub fn message(&self) -> (r: String)
        ensures
            self is Io ==> r@.len() >= "cannot read corpus file: "@.len() && r@.take(
                "cannot read corpus file: "@.len() as int,
            ) == "cannot read corpus file: "@,
            self is EmptyQuery ==> r@ == "query contains no keyword"@,
            self matches SearchError::InvalidParam(what) ==> r@ == what@ + " must be at least 1"@,
    {
        match self {
            SearchError::Io(e) => {
                let t = io_error_text(e);
                let r = io_message(t.as_str());
                assert(r@.take("cannot read corpus file: "@.len() as int)
                    =~= "cannot read corpus file: "@);
                r
            },
            SearchError::EmptyQuery => {
                let mut r = String::new();
                r.append("query contains no keyword");
                r
            },
            SearchError::InvalidParam(what) => {
                let mut r = String::new();
                r.append(what);
                r.append(" must be at least 1");
                r
            },
        }
    }
}

impl From<std::io::Error> for SearchError {
    fn from(e: std::io::Error) -> (r: Self) {
        SearchError::Io(e)
    }
}

impl vstd::std_specs::convert::FromSpecImpl<std::io::Error> for SearchError {
    open spec fn obeys_from_spec() -> bool {
        true
    }

    open spec fn from_spec(e: std::io::Error) -> Self {
        SearchError::Io(e)
    }
}

} // verus!
