//! Reading a log line's timestamp through chrono.

use vstd::prelude::*;
use crate::model::LogTimestamp;

verus! {

/// The layout of the timestamp that opens a log line:
/// `YYYY-MM-DDTHH:MM:SS.sss±HH:MM`.
pub const STAMP_LAYOUT: &'static str = "%Y-%m-%dT%H:%M:%S%.3f%:z";

/// What `DateTime::<FixedOffset>::parse_from_str` reads from a token with a
/// layout, as an instant and an offset; `None` where it rejects the token.
pub uninterp spec fn stamp_of(token: Seq<char>, layout: Seq<char>) -> Option<LogTimestamp>;

/// Relies on chrono's `DateTime::<FixedOffset>::parse_from_str`; the instant
/// is read back with `timestamp_millis` and the offset with
/// `local_minus_utc`.
#[verifier::external_body]
pub(crate) fn read_stamp(token: &str, layout: &str) -> (r: Option<LogTimestamp>)
    ensures
        r == stamp_of(token@, layout@),
{
    match chrono::DateTime::parse_from_str(token, layout) {
        Ok(d) => Some(
            LogTimestamp { utc_millis: d.timestamp_millis(), offset_seconds: d.offset().local_minus_utc() },
        ),
        Err(_) => None,
    }
}

} // verus!
