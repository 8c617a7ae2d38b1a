//! Parse and explain Datadog monitor queries.
//!
//! A monitor query packs an aggregation window, a metric, a scope, a grouping,
//! transforms, an evaluation function and a threshold into one dense line:
//!
//! ```text
//! avg(last_1d):anomalies(sum:app.service.latency{platform:macos, country:us}.as_count(), 'agile', 5, direction='below') >= 1
//! ```
//!
//! This crate turns that line into a typed syntax tree ([`MonitorQuery`]) and
//! renders it as a paragraph of plain English ([`explain`]) or as a structured
//! summary ([`summarize`]).
//!
//! # Design
//!
//! - **Recursive descent and a small Pratt loop** for arithmetic precedence. What
//!   each production reads is stated in [`grammar`], and the parser is proved to
//!   compute it.
//! - **Never panics on input.** Every failure returns a [`ParseError`] with a byte
//!   offset, on a character boundary, and a one-line reason.
//! - **Graceful degradation.** [`parse_or_unparsed`] never fails: a query that the
//!   grammar does not model becomes [`MonitorQuery::Unparsed`], with the query
//!   kept verbatim.
//! - **Bounded recursion.** Deeply nested input is rejected before the stack grows.
//! - **Pure.** No I/O, no global state; parsing is linear in the input length.
//! - **Exact numbers.** A threshold is a 64-bit binary floating-point number,
//!   kept by its bits ([`binary64`]), read by rounding to nearest ([`literal`])
//!   and written with the fewest digits that read back ([`rendering`]).
//!
//! # Dialects
//!
//! | Dialect | Shape | Tree |
//! | --- | --- | --- |
//! | metric | `time-agg(window): expr op threshold` | [`MetricQuery`] |
//! | search | `logs("...").rollup(...).last(...) op n` | [`SearchQuery`] |
//! | service check | `"check".over(...).last(n).count_by_status()` | [`CheckQuery`] |
//! | slo | `error_budget("id").over("7d") op n` | [`SloQuery`] |
//! | composite | `123 && !456 \|\| 789` | [`CompositeExpr`] |

pub mod ast;
pub mod binary64;
pub mod composites;
pub mod cursor;
pub mod error;
pub mod explain;
pub mod explanations;
pub mod grammar;
pub mod laws;
pub mod literal;
pub mod methods;
pub mod natural;
pub mod parser;
pub mod phrasing;
pub mod readback;
pub mod reasons;
pub mod refusals;
pub mod rendering;
pub mod spaces;
pub mod text;
pub mod tokens;
pub mod views;
pub mod window;
pub mod wording;

pub use ast::{
    ArithOp, BoolOp, ChangeKind, CheckQuery, CmpOp, CompositeExpr, Condition, Filter, FuncKind,
    FuncParam, MetricExpr, MetricQuery, Modifier, MonitorQuery, MonitorRef, ParamValue, Scalar,
    SearchQuery, SearchSource, Series, SloQuery, SpaceAgg, TimeAgg, Window,
};
pub use binary64::Binary64;
pub use error::ParseError;
pub use explain::{explain, summarize, KeyVal, QuerySummary};
pub use parser::parse;

use ast::MonitorQueryView;
use grammar::parsed;
use text::bytes;
use vstd::prelude::*;
use vstd::utf8::{encode_utf8, is_char_boundary};

verus! {

/// Parses a query, degrading to [`MonitorQuery::Unparsed`] where it fails.
///
/// This is for batch processing, where one query that does not parse must not
/// drop the record around it: the query, the reason of the failure and its byte
/// offset are kept, so that a consumer can still show the query verbatim.
#[must_use]
pub fn parse_or_unparsed(query: &str) -> (r: MonitorQuery)
    ensures
        r@ == parsed_or_kept(query@),
        r@ matches MonitorQueryView::Unparsed { raw, reason, offset } ==> offset <= bytes(query@)
            && is_char_boundary(encode_utf8(query@), offset as int),
{
    match parse(query) {
        Ok(q) => q,
        Err(err) => MonitorQuery::unparsed(query, &err),
    }
}

/// What `s` parses to; where it does not parse, `s` itself with the error.
pub open spec fn parsed_or_kept(s: Seq<char>) -> MonitorQueryView {
    match parsed(s) {
        Ok(q) => q,
        Err(e) => MonitorQueryView::Unparsed { raw: s, reason: e.reason, offset: e.offset },
    }
}

} // verus!
