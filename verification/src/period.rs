use vstd::prelude::*;
use crate::clock::{clock_reading, current_moment, Moment, MIN_TIMESTAMP, MAX_TIMESTAMP};
use crate::model::VibeError;

verus! {

/// The largest span, in whole seconds, that a `chrono::TimeDelta` holds
/// (`i64::MAX` milliseconds, cut to whole seconds).
pub const MAX_SPAN_SECS: i64 = 9_223_372_036_854_775;

/// `c` is one of the ASCII digits `0`–`9`.
pub open spec fn is_digit(c: char) -> bool {
    '0' <= c <= '9'
}

/// The value of a digit character.
pub open spec fn digit_value(c: char) -> nat {
    (c as nat - '0' as nat) as nat
}

/// Every character of `t` is an ASCII digit.
pub open spec fn all_digits(t: Seq<char>) -> bool {
    forall|i: int| 0 <= i < t.len() ==> is_digit(#[trigger] t[i])
}

/// The number that a string of decimal digits denotes.
pub open spec fn digits_value(t: Seq<char>) -> nat
    decreases t.len(),
{
    if t.len() == 0 {
        0
    } else {
        digits_value(t.drop_last()) * 10 + digit_value(t.last())
    }
}

/// The `i64` that `t` denotes the way Rust reads one: an optional `+` or
/// `-`, then one or more ASCII digits, within the range of `i64`.
pub open spec fn parse_i64(t: Seq<char>) -> Option<int> {
    let negative = t.len() > 0 && t[0] == '-';
    let signed = t.len() > 0 && (t[0] == '-' || t[0] == '+');
    let body = if signed { t.drop_first() } else { t };
    let value: int = if negative { -(digits_value(body) as int) } else { digits_value(body) as int };
    if body.len() == 0 || !all_digits(body) || value < i64::MIN || value > i64::MAX {
        None
    } else {
        Some(value)
    }
}

/// The seconds of one unit of a period: day, week, month or year of 365
/// days. A month is a twelfth of a year (30 days and 10 hours), so that
/// twelve months make a year.
pub open spec fn unit_seconds(unit: char) -> Option<int> {
    if unit == 'd' {
        Some(86400)
    } else if unit == 'w' {
        Some(604800)
    } else if unit == 'm' {
        Some(2628000)
    } else if unit == 'y' {
        Some(31536000)
    } else {
        None
    }
}

/// How a period text such as `12m` reads.
#[derive(Debug, Clone, Copy, PartialEq, Eq, Structural)]
pub enum PeriodReading {
    /// Not a period: too short, the count is not a number, or the unit is
    /// not `d`, `w`, `m` or `y`.
    Malformed,
    /// A period too long to measure in seconds.
    OutOfRange,
    /// A well-formed period of this many seconds.
    Span(i64),
}

/// How `s` reads as a period: a count (an `i64`) followed by one unit
/// character.
pub open spec fn period_reading(s: Seq<char>) -> PeriodReading {
    if s.len() == 0 {
        PeriodReading::Malformed
    } else if s.len() == 1 {
        PeriodReading::Malformed
    } else {
        match (parse_i64(s.drop_last()), unit_seconds(s.last())) {
            (Some(n), Some(u)) => {
                let secs = n * u;
                if -MAX_SPAN_SECS <= secs <= MAX_SPAN_SECS {
                    PeriodReading::Span(secs as i64)
                } else {
                    PeriodReading::OutOfRange
                }
            },
            _ => PeriodReading::Malformed,
        }
    }
}

/// A period text that can be measured: malformed or well-formed, but not
/// out of range.
pub open spec fn period_fits(s: Seq<char>) -> bool {
    !(period_reading(s) is OutOfRange)
}

/// Twelve months make a year: a count of months twelve times a count of
/// years reads as the same period, so `12m` and `1y` (or `24m` and `2y`)
/// reach equally far back.
pub proof fn lemma_twelve_months_make_a_year(months: Seq<char>, years: Seq<char>)
    requires
        months.len() >= 2,
        years.len() >= 2,
        months.last() == 'm',
        years.last() == 'y',
        parse_i64(months.drop_last()) is Some,
        parse_i64(years.drop_last()) is Some,
        parse_i64(months.drop_last())->0 == 12 * parse_i64(years.drop_last())->0,
    ensures
        period_reading(months) == period_reading(years),
{
    let n = parse_i64(months.drop_last())->0;
    let k = parse_i64(years.drop_last())->0;
    assert(n * 2628000 == k * 31536000) by (nonlinear_arith)
        requires
            n == 12 * k,
    ;
}

/// The moment that lies `secs` seconds before `now`.
pub open spec fn moment_before(now: Moment, secs: int) -> Moment {
    Moment { secs: (now.secs - secs) as i64, nanos: now.nanos }
}

/// `now - secs` is a moment that a `chrono::DateTime<Utc>` can show.
pub open spec fn cutoff_representable(now: Moment, secs: int) -> bool {
    MIN_TIMESTAMP <= now.secs - secs <= MAX_TIMESTAMP
}

/// Reads the count part of a period.
fn parse_count(period: &str, end: usize) -> (count: Option<i64>)
    requires
        end <= period@.len(),
    ensures
        count matches Some(v) ==> parse_i64(period@.subrange(0, end as int)) == Some(v as int),
        count is None ==> parse_i64(period@.subrange(0, end as int)) is None,
{
    let ghost t = period@.subrange(0, end as int);
    if end == 0 {
        return None;
    }
    let first = period.get_char(0);
    let negative = first == '-';
    let signed = first == '-' || first == '+';
    let start: usize = if signed { 1 } else { 0 };
    let ghost body = if signed { t.drop_first() } else { t };
    assert(body =~= period@.subrange(start as int, end as int));
    if start == end {
        return None;
    }
    let mut magnitude: u64 = 0;
    let mut i: usize = start;
    while i < end
        invariant
            start <= i <= end,
            end <= period@.len(),
            end > 0,
            t == period@.subrange(0, end as int),
            first == t[0],
            negative == (first == '-'),
            signed == (first == '-' || first == '+'),
            start == (if signed { 1usize } else { 0usize }),
            body == (if signed { t.drop_first() } else { t }),
            body =~= period@.subrange(start as int, end as int),
            all_digits(period@.subrange(start as int, i as int)),
            magnitude as nat == digits_value(period@.subrange(start as int, i as int)),
            magnitude <= 9_223_372_036_854_775_808,
        decreases end - i,
    {
        let c = period.get_char(i);
        let ghost pre = period@.subrange(start as int, i as int);
        let ghost next = period@.subrange(start as int, i + 1);
        assert(next.drop_last() =~= pre);
        assert(next.last() == c);
        if !('0' <= c && c <= '9') {
            proof {
                assert(body[i - start] == c);
                assert(!is_digit(body[i - start]));
            }
            return None;
        }
        let d = (c as u32 - '0' as u32) as u64;
        if magnitude > 922_337_203_685_477_580 || magnitude * 10 + d > 9_223_372_036_854_775_808 {
            proof {
                lemma_digits_grow(body, (i + 1 - start) as int);
                assert(body.take((i + 1 - start) as int) =~= next);
            }
            return None;
        }
        magnitude = magnitude * 10 + d;
        i = i + 1;
    }
    assert(period@.subrange(start as int, end as int) =~= body);
    if negative {
        Some((0 - magnitude as i128) as i64)
    } else if magnitude <= 9_223_372_036_854_775_807 {
        Some(magnitude as i64)
    } else {
        None
    }
}

/// The value of a digit string never falls when it gets longer.
proof fn lemma_digits_grow(t: Seq<char>, k: int)
    requires
        0 <= k <= t.len(),
    ensures
        digits_value(t.take(k)) <= digits_value(t),
    decreases t.len() - k,
{
    if k < t.len() {
        lemma_digits_grow(t, k + 1);
        assert(t.take(k + 1).drop_last() =~= t.take(k));
    } else {
        assert(t.take(k) =~= t);
    }
}

/// Reads a period text such as `3m`, `1y`, `30d` or `4w`.
pub fn read_period(period: &str) -> (reading: PeriodReading)
    ensures
        reading == period_reading(period@),
{
    let n = period.unicode_len();
    if n == 0 {
        return PeriodReading::Malformed;
    }
    let unit = period.get_char(n - 1);
    if unit as u32 >= 128 {
        return PeriodReading::Malformed;
    }
    if n == 1 {
        return PeriodReading::Malformed;
    }
    assert(period@.subrange(0, n - 1) =~= period@.drop_last());
    let count = match parse_count(period, n - 1) {
        Some(v) => v,
        None => return PeriodReading::Malformed,
    };
    let unit_secs: i128 = if unit == 'd' {
        86400
    } else if unit == 'w' {
        604800
    } else if unit == 'm' {
        2628000
    } else if unit == 'y' {
        31536000
    } else {
        return PeriodReading::Malformed;
    };
    let secs: i128 = count as i128 * unit_secs;
    if -9_223_372_036_854_775 <= secs && secs <= 9_223_372_036_854_775 {
        PeriodReading::Span(secs as i64)
    } else {
        PeriodReading::OutOfRange
    }
}

/// The length in seconds of a well-formed period, or `InvalidPeriod` with
/// the text.
pub fn period_seconds(period: &str) -> (secs: Result<i64, VibeError>)
    requires
        period_fits(period@),
    ensures
        period_reading(period@) matches PeriodReading::Span(s) ==> secs == Ok::<i64, VibeError>(s),
        period_reading(period@) is Malformed ==> (secs matches Err(VibeError::InvalidPeriod(t)) && t@ == period@),
{
    match read_period(period) {
        PeriodReading::Span(s) => Ok(s),
        _ => Err(VibeError::InvalidPeriod(String::from_str(period))),
    }
}

/// The start of the analysed period: `now` less the length of `period`.
pub fn period_cutoff(period: &str, now: Moment) -> (since: Result<Moment, VibeError>)
    requires
        period_fits(period@),
        period_reading(period@) matches PeriodReading::Span(s) ==> cutoff_representable(now, s as int),
    ensures
        period_reading(period@) matches PeriodReading::Span(s) ==> since == Ok::<Moment, VibeError>(moment_before(now, s as int)),
        period_reading(period@) is Malformed ==> (since matches Err(VibeError::InvalidPeriod(t)) && t@ == period@),
{
    match period_seconds(period) {
        Ok(s) => Ok(Moment { secs: now.secs - s, nanos: now.nanos }),
        Err(e) => Err(e),
    }
}

/// Parses a period text against the current time: `Some(Ok(since))`, the
/// current time less the period, for a well-formed period, and
/// `Some(Err(InvalidPeriod))` for a malformed one.
///
/// Any text that is not a count followed by `d`, `w`, `m` or `y` is
/// malformed, whatever characters it holds. `None` only where a
/// well-formed period cannot be measured: it is too long for a `chrono`
/// time span, or it reaches outside the dates that `chrono` shows.
pub fn parse_period(period: &str) -> (since: Option<Result<Moment, VibeError>>)
    ensures
        period_reading(period@) is Malformed ==> (since matches Some(Err(VibeError::InvalidPeriod(t))) && t@ == period@),
        period_reading(period@) is OutOfRange ==> since is None,
        period_reading(period@) matches PeriodReading::Span(s) ==> exists|now: Moment| #[trigger] clock_reading(now) && (
            if cutoff_representable(now, s as int) {
                since == Some(Ok::<Moment, VibeError>(moment_before(now, s as int)))
            } else {
                since is None
            }),
{
    let now = current_moment();
    match read_period(period) {
        PeriodReading::Malformed => Some(Err(VibeError::InvalidPeriod(String::from_str(period)))),
        PeriodReading::OutOfRange => None,
        PeriodReading::Span(s) => {
            let secs = now.secs as i128 - s as i128;
            if -8_334_601_315_200 <= secs && secs <= 8_210_266_876_799 {
                Some(period_cutoff(period, now))
            } else {
                None
            }
        },
    }
}

/// A commit made at second `ts` lies before the start `since` of the
/// period: its time, a whole second, is earlier than `since`.
pub open spec fn precedes(ts: i64, since: Moment) -> bool {
    ts < since.secs || (ts == since.secs && since.nanos > 0)
}

/// Whether a commit made at second `ts` lies before the period that
/// starts at `since`; walking the history newest first, the walk stops at
/// the first such commit.
pub fn is_before_period(ts: i64, since: Moment) -> (before: bool)
    ensures
        before == precedes(ts, since),
{
    ts < since.secs || (ts == since.secs && since.nanos > 0)
}

} // verus!
