//! The parse error.
//!
//! A [`ParseError`] is small: a byte `offset` into the query and a one-line,
//! human-readable `reason`. It never holds the query itself.

use vstd::prelude::*;
use vstd::string::StringExecFns;
use crate::text::{copy_of, decimal, push_decimal};

verus! {

/// An error met while parsing a monitor query: the byte `offset` at which
/// parsing failed, on a character boundary of the query, and a short `reason`.
#[derive(Debug, PartialEq, Eq)]
pub struct ParseError {
    offset: usize,
    reason: String,
}

/// What a [`ParseError`] says.
pub struct ParseErrorView {
    /// The byte offset.
    pub offset: nat,
    /// The reason.
    pub reason: Seq<char>,
}

impl View for ParseError {
    type V = ParseErrorView;

    closed spec fn view(&self) -> ParseErrorView {
        ParseErrorView { offset: self.offset as nat, reason: self.reason@ }
    }
}

impl Clone for ParseError {
    fn clone(&self) -> (e: Self)
        ensures
            e@ == self@,
    {
        ParseError { offset: self.offset, reason: copy_of(self.reason.as_str()) }
    }
}

/// The text of an error.
pub open spec fn error_text(e: ParseErrorView) -> Seq<char> {
    "parse error at byte "@ + decimal(e.offset) + ": "@ + e.reason
}

impl ParseError {
    /// An error at `offset` with the given `reason`.
    #[must_use]
    pub fn new(offset: usize, reason: &str) -> (e: Self)
        ensures
            e@ == (ParseErrorView { offset: offset as nat, reason: reason@ }),
    {
        ParseError { offset, reason: copy_of(reason) }
    }

    /// The byte offset into the query where parsing failed.
    #[must_use]
    pub fn offset(&self) -> (offset: usize)
        ensures
            offset == self@.offset,
    {
        self.offset
    }

    /// The one-line, human-readable reason.
    #[must_use]
    pub fn reason(&self) -> (reason: &str)
        ensures
            reason@ == self@.reason,
    {
        self.reason.as_str()
    }

    /// The error as a line of text.
    #[must_use]
    pub fn to_text(&self) -> (out: String)
        ensures
            out@ == error_text(self@),
    {
        let mut out = copy_of("parse error at byte ");
        push_decimal(&mut out, self.offset as u64);
        out.append(": ");
        out.append(self.reason.as_str());
        assert(out@ =~= error_text(self@));
        out
    }
}

} // verus!
