//! Profile-driven HTTP request/diff core.
//!
//! The crate models declarative HTTP request specifications, run-time
//! key/value overrides that mutate them, canonicalization of HTTP responses
//! into comparable text, and a hunked line diff between two canonical texts.
//! Network transport, config-file I/O and terminal presentation live outside
//! this crate; it only computes over plain values handed to it.

use vstd::prelude::*;

mod chars;
mod diffcore;
mod json;
mod kv;
pub mod laws;
mod profile;
mod req;
mod resp;

pub use diffcore::{build_diff, inline_spans, split_lines, tokenize, DiffResult, LineOp};
pub use json::{parse_json, JsonValue};
pub use kv::{parse_key_val, KeyVal, KeyValType};
pub use profile::{resolve_request, unresolve_request, DiffConfig, DiffContext, RawRequestContext, RequestConfig};
pub use req::{RequestContext, ResolvedRequest};
pub use resp::{canonicalize, RawResponse, ResponseContext};

verus! {

/// The error kinds the core can report.  Every function that returns
/// `Result` says in its contract exactly on which inputs each kind comes.
#[derive(Debug, Clone, Copy, PartialEq, Eq, Structural)]
pub enum Error {
    /// A profile name was looked up that the store does not hold.
    ProfileNotFound,
    /// A key/value override argument does not follow the `key=value` grammar.
    InvalidOverrideSyntax,
    /// A profile's `params` field is not a JSON object.
    ParamsNotObject,
    /// A request URL has a scheme other than `http` or `https`.
    UnsupportedScheme,
    /// A request has a body and an explicit non-JSON content type.
    UnsupportedContentType,
    /// A header override's name or value is not valid header syntax.
    HeaderParseError,
    /// A URL string could not be parsed as an absolute URL.
    UrlParseError,
}

} // verus!
