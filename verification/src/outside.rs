//! Wrappers around the collaborator crates (chrono, uuid) and the one
//! Unicode-table operation of std that the rest of the crate relies on.
//! Every trusted item of the crate lives in this module.

use vstd::prelude::*;

verus! {

/// The RFC 3339 rendering of a millisecond UNIX timestamp; the rendering is a
/// function of the timestamp alone.
pub uninterp spec fn rfc3339_of(t: i64) -> Seq<char>;

/// What parsing a string as an RFC 3339 date-time yields, in milliseconds
/// since the UNIX epoch; `None` where the string does not parse. The outcome
/// is a function of the string alone.
pub uninterp spec fn rfc3339_parse(s: Seq<char>) -> Option<i64>;

/// The Unicode lowercase conversion of a string; a function of its characters
/// alone.
pub uninterp spec fn lower_of(s: Seq<char>) -> Seq<char>;

/// Milliseconds between 1970-01-01T00:00:00Z and 10000-01-01T00:00:00Z;
/// timestamps in `0..MAX_FORMAT_MILLIS` are accepted by `format_rfc3339`.
pub const MAX_FORMAT_MILLIS: i64 = 253402300800000;

/// Relies on `chrono::Utc::now`: the current wall-clock time in milliseconds
/// since the UNIX epoch. Nothing can be promised of a clock reading. On a
/// system clock set before 1970 the call aborts inside chrono; like memory
/// exhaustion, that is an environment failure no input can exclude.
#[verifier::external_body]
pub(crate) fn now_millis() -> i64 {
    chrono::Utc::now().timestamp_millis()
}

/// Relies on `chrono::DateTime::<Utc>::from_timestamp_millis` (documented to
/// return `None` only when the timestamp is more than about 262,000 years
/// from the common era) and `chrono::DateTime::to_rfc3339` (documented to
/// return the RFC 3339 rendering of the date-time).
#[verifier::external_body]
pub(crate) fn format_rfc3339(t: i64) -> (r: Option<String>)
    ensures
        r matches Some(s) ==> s@ == rfc3339_of(t),
        0 <= t < MAX_FORMAT_MILLIS ==> r is Some,
{
    match chrono::DateTime::<chrono::Utc>::from_timestamp_millis(t) {
        Some(dt) => Some(dt.to_rfc3339()),
        None => None,
    }
}

/// Relies on `chrono::DateTime::parse_from_rfc3339` (documented to parse all
/// valid RFC 3339 date-time strings and fail on others) and
/// `chrono::DateTime::timestamp_millis` (the represented instant in
/// milliseconds since the UNIX epoch).
#[verifier::external_body]
pub(crate) fn parse_rfc3339_millis(s: &str) -> (r: Option<i64>)
    ensures
        r == rfc3339_parse(s@),
{
    match chrono::DateTime::parse_from_rfc3339(s) {
        Ok(dt) => Some(dt.timestamp_millis()),
        Err(_) => None,
    }
}

/// Relies on `uuid::Uuid::new_v4` (a freshly generated random UUID) and its
/// `Display` rendering (documented to be the 36-character hyphenated form).
/// Nothing can be promised of which identifier comes back.
#[verifier::external_body]
pub(crate) fn new_uuid() -> (r: String)
    ensures
        r@.len() == 36,
{
    uuid::Uuid::new_v4().to_string()
}

/// Relies on `str::to_lowercase`: the Unicode lowercase conversion, which
/// depends on the characters alone; an empty string stays empty.
#[verifier::external_body]
pub(crate) fn lowercase(s: &str) -> (r: String)
    ensures
        r@ == lower_of(s@),
        s@.len() == 0 ==> r@.len() == 0,
{
    s.to_lowercase()
}

} // verus!
