//! Timestamps of allocations.

use vstd::prelude::*;
use crate::text::text_of;

verus! {

/// The timestamp that stands for a number of seconds since the start of 1970 in UTC: the
/// calendar date and time of day in the form `2015-05-15T00:00:00Z`, or `None` where the
/// calendar of the `chrono` crate does not reach that far.
pub uninterp spec fn rfc3339_of(secs: int) -> Option<Seq<char>>;

/// Writes a time as a timestamp with `DateTime::to_rfc3339_opts` of the `chrono` crate,
/// to the second and with `Z` for the zone. The time is handed to it as a UTC
/// `DateTime`, which `DateTime::from_timestamp` makes of the seconds if they are within
/// its range. The result depends on the seconds alone; the contract gives it a name and
/// says no more of it.
#[verifier::external_body]
pub(crate) fn rfc3339(secs: i64) -> (r: Option<String>)
    ensures
        text_of(r) == rfc3339_of(secs as int),
{
    match chrono::DateTime::from_timestamp(secs, 0) {
        Some(t) => Some(t.to_rfc3339_opts(chrono::SecondsFormat::Secs, true)),
        None => None,
    }
}

} // verus!
