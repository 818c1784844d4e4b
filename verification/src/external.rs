//! Date-time and URI syntax, decided by the `time` and `uriparse` crates.

use time::format_description::well_known::Rfc3339;
use time::OffsetDateTime;
use uriparse::URIReference;
use vstd::prelude::*;

verus! {

/// Whether `time` parses the text as an RFC 3339 date-time: full date, one
/// separator byte (so an ASCII separator), full time with optional fraction,
/// and `Z` or a numeric offset, forming a real calendar instant.
pub uninterp spec fn rfc3339_accepts(text: Seq<char>) -> bool;

/// Whether `uriparse` parses the text as a URI reference that has a scheme,
/// that is, as a URI.
pub uninterp spec fn uri_accepts(text: Seq<char>) -> bool;

/// Calls `time::OffsetDateTime::parse` with the `Rfc3339` description and
/// reports whether it succeeded. The claim is only that the answer depends on
/// the text alone; which texts succeed is left to the crate.
#[verifier::external_body]
fn offset_date_time_parses(value: &str) -> (ok: bool)
    ensures
        ok == rfc3339_accepts(value@),
{
    OffsetDateTime::parse(value, &Rfc3339).is_ok()
}

/// Calls `uriparse::URIReference::try_from` on the text and reports whether
/// it parsed into a reference with a scheme (`URIReference::is_uri`). The
/// claim is only that the answer depends on the text alone; which texts
/// succeed is left to the crate.
#[verifier::external_body]
fn uri_parses(value: &str) -> (ok: bool)
    ensures
        ok == uri_accepts(value@),
{
    match URIReference::try_from(value) {
        Ok(reference) => reference.is_uri(),
        Err(_) => false,
    }
}

/// Whether `value` is an RFC 3339 date-time.
pub fn is_rfc3339(value: &str) -> (r: bool)
    ensures
        r == rfc3339_accepts(value@),
{
    offset_date_time_parses(value)
}

/// Whether `value` is an absolute URI.
pub fn is_uri(value: &str) -> (r: bool)
    ensures
        r == uri_accepts(value@),
{
    uri_parses(value)
}

} // verus!
