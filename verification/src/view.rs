//! Stored log entries and their presentation-side helpers.
use vstd::prelude::*;
use vstd::string::*;

verus! {

/// A stored log entry: opaque id, creation time in seconds since the epoch,
/// source label, text content, and an optional metadata string.
#[derive(Debug)]
pub struct Event {
    pub id: String,
    pub timestamp: i64,
    pub source: String,
    pub content: String,
    pub meta: Option<String>,
}

/// The text that the calendar rendering of a timestamp produces. It is a
/// function of the timestamp alone.
pub uninterp spec fn utc_label(ts: int) -> Seq<char>;

/// The highest timestamp the formatter accepts: the last second of year 9999.
pub const MAX_FORMAT_TS: i64 = 253_402_300_799;

/// Relies on chrono: `Utc.timestamp_opt(ts, 0)` is a single civil time for
/// every non-negative `ts` within the bound (the crate returns `None` only on
/// out-of-range seconds), and rendering it in the fixed
/// `%Y-%m-%d %H:%M:%S UTC` layout depends on `ts` alone.
#[verifier::external_body]
fn format_utc(ts: i64) -> (r: String)
    requires
        0 <= ts <= MAX_FORMAT_TS,
    ensures
        r@ == utc_label(ts as int),
{
    let dt: chrono::DateTime<chrono::Utc> = chrono::TimeZone::timestamp_opt(&chrono::Utc, ts, 0)
        .unwrap();
    dt.format("%Y-%m-%d %H:%M:%S UTC").to_string()
}

impl Event {
    /// The event's creation time rendered as a calendar date and clock time.
    pub fn format_time(&self) -> (r: String)
        requires
            0 <= self.timestamp <= MAX_FORMAT_TS,
        ensures
            r@ == utc_label(self.timestamp as int),
    {
        format_utc(self.timestamp)
    }
}

/// The pattern that substring search hands to the store: the term wrapped in
/// `%` wildcards. Wildcard characters inside the term are not escaped, so a
/// `%` or `_` in the term keeps its wildcard meaning.
pub fn like_pattern(term: &str) -> (r: String)
    ensures
        r@ == seq!['%'] + term@ + seq!['%'],
{
    let mut r = String::from_str("%");
    r.append(term);
    r.append("%");
    proof {
        reveal_strlit("%");
        assert(r@ =~= seq!['%'] + term@ + seq!['%']);
    }
    r
}

} // verus!
