use vstd::prelude::*;

verus! {

/// A point in time: whole seconds since the Unix epoch and the nanoseconds
/// past that second.
#[derive(Debug, Clone, Copy, PartialEq, Eq, Structural)]
pub struct Moment {
    pub secs: i64,
    pub nanos: u32,
}

/// The earliest second that a `chrono::DateTime<Utc>` can show
/// (-262143-01-01T00:00:00Z).
pub const MIN_TIMESTAMP: i64 = -8_334_601_315_200;

/// The last second that a `chrono::DateTime<Utc>` can show
/// (+262142-12-31T23:59:59Z).
pub const MAX_TIMESTAMP: i64 = 8_210_266_876_799;

/// A moment that the system clock can give: not before the Unix epoch,
/// within the dates `chrono` can show, and less than a second past a whole
/// second.
pub open spec fn clock_reading(m: Moment) -> bool {
    &&& 0 <= m.secs <= MAX_TIMESTAMP
    &&& m.nanos < 1_000_000_000
}

/// The calendar month, written `YYYY-MM`, in which the second `ts` after
/// the Unix epoch falls (UTC).
pub uninterp spec fn month_label_of(ts: i64) -> Seq<char>;

/// Writes the UTC month of a timestamp through `chrono`: builds the date
/// with `DateTime::from_timestamp(ts, 0)` and formats it with `%Y-%m`.
///
/// The contract claims that this gives a text, named `month_label_of(ts)`,
/// for every second that a `DateTime<Utc>` can show; what the text is, is
/// not stated here.
#[verifier::external_body]
pub(crate) fn month_label(ts: i64) -> (label: Option<String>)
    ensures
        MIN_TIMESTAMP <= ts <= MAX_TIMESTAMP ==> label is Some,
        label matches Some(l) ==> l@ == month_label_of(ts),
{
    chrono::DateTime::from_timestamp(ts, 0).map(|d| d.format("%Y-%m").to_string())
}

/// Reads the system clock through `chrono::Utc::now`, which takes the
/// time since the Unix epoch from `SystemTime` and builds the date with
/// `DateTime::from_timestamp`, then splits it with `timestamp` and
/// `timestamp_subsec_nanos`.
///
/// The contract claims what holds of every reading that returns: the
/// seconds are not before the epoch (`Utc::now` aborts on a clock set
/// before 1970) and within the dates `chrono` can show, and the sub-second
/// part is under 10^9 (a clock reading is never a leap second). What time
/// it is is not stated.
#[verifier::external_body]
pub(crate) fn current_moment() -> (m: Moment)
    ensures
        clock_reading(m),
{
    let now = chrono::Utc::now();
    Moment { secs: now.timestamp(), nanos: now.timestamp_subsec_nanos() }
}

} // verus!
