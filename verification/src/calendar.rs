//! Local days and the instants that bound them.
//!
//! Instants are unix milliseconds and local days are counted from 1970-01-01, so that day
//! arithmetic is plain integer arithmetic. "Day" is always the local day, taken from the
//! `secondsFromGMT` Arc records on every sample and place, never the UTC day. Writing and
//! reading the `YYYY-MM-DD` form of a day is left to jiff.

use vstd::prelude::*;

verus! {

pub const DAY_MS: i64 = 86_400_000;

/// The largest offset jiff accepts, 25:59:59 either way, in seconds.
pub const MAX_OFFSET_SECONDS: i32 = 93_599;

/// The first and last instant jiff can represent, in milliseconds: -9999-01-02T01:59:59Z and
/// 9999-12-30T22:00:00.999Z.
pub const MIN_MS: i64 = -377_705_023_201_000;
pub const MAX_MS: i64 = 253_402_207_200_999;

/// The last millisecond count `Timestamp::from_millisecond` accepts, 9999-12-30T22:00:00Z: jiff
/// bounds the count by its last whole second, so the fraction of a second that a `Timestamp`
/// itself can still hold past it has no millisecond count to be built from.
pub const MAX_MILLIS: i64 = 253_402_207_200_000;

/// The same two instants in whole seconds.
pub const MIN_SECONDS: i64 = -377_705_023_201;
pub const MAX_SECONDS: i64 = 253_402_207_200;

/// The first and last civil day jiff can represent, -9999-01-01 and 9999-12-31, counted from
/// 1970-01-01.
pub const MIN_DAY: i64 = -4_371_587;
pub const MAX_DAY: i64 = 2_932_896;

/// An offset outside ±26 h is a corrupt record, not something worth failing a bucket file over;
/// UTC is the least surprising stand-in.
pub open spec fn normal_offset(seconds: int) -> int {
    if -MAX_OFFSET_SECONDS <= seconds <= MAX_OFFSET_SECONDS {
        seconds
    } else {
        0
    }
}

/// The offset in seconds that a recorded `secondsFromGMT` stands for.
pub fn offset(seconds: i32) -> (r: i32)
    ensures
        r == normal_offset(seconds as int),
        -MAX_OFFSET_SECONDS <= r <= MAX_OFFSET_SECONDS,
{
    if -MAX_OFFSET_SECONDS <= seconds && seconds <= MAX_OFFSET_SECONDS {
        seconds
    } else {
        0
    }
}

/// Whether jiff can represent an instant.
pub open spec fn is_instant(ms: int) -> bool {
    MIN_MS <= ms <= MAX_MS
}

/// Whether `Timestamp::from_millisecond` accepts a millisecond count.
pub open spec fn is_millis(ms: int) -> bool {
    MIN_MS <= ms <= MAX_MILLIS
}

/// Whether jiff can represent a civil day.
pub open spec fn is_day(day: int) -> bool {
    MIN_DAY <= day <= MAX_DAY
}

/// The local day of an instant at an offset: the whole days since 1970-01-01 of the local
/// clock, rounded down.
pub open spec fn local_day_of(ms: int, offset_seconds: int) -> int {
    (ms + normal_offset(offset_seconds) * 1000) / (DAY_MS as int)
}

/// `a / b` rounded down, for a positive `b`.
fn floor_div(a: i64, b: i64) -> (r: i64)
    requires
        b > 0,
        a > i64::MIN,
    ensures
        r == a as int / b as int,
{
    if a >= 0 {
        a / b
    } else {
        let m = -a;
        let q = m / b;
        let r = m % b;
        assert(m == q * b + r) by (nonlinear_arith)
            requires
                q == m / b,
                r == m % b,
                b > 0,
        ;
        if r == 0 {
            assert(a as int / b as int == -q) by (nonlinear_arith)
                requires
                    a == -(q * b),
                    b > 0,
            ;
            -q
        } else {
            assert(a as int / b as int == -q - 1) by (nonlinear_arith)
                requires
                    a == -(q * b + r),
                    0 < r < b,
            ;
            -q - 1
        }
    }
}

/// The local day of an instant at a recorded offset.
pub fn local_day(ms: i64, offset_seconds: i32) -> (r: i64)
    requires
        is_instant(ms as int),
    ensures
        r == local_day_of(ms as int, offset_seconds as int),
        is_day(r as int),
{
    let off = offset(offset_seconds) as i64;
    let local = ms + off * 1000;
    let r = floor_div(local, DAY_MS);
    assert(MIN_DAY <= r <= MAX_DAY) by (nonlinear_arith)
        requires
            r == local as int / DAY_MS as int,
            MIN_MS - 93_599_000 <= local <= MAX_MS + 93_599_000,
            DAY_MS == 86_400_000,
            MIN_MS == -377_705_023_201_000,
            MAX_MS == 253_402_207_200_999,
            MIN_DAY == -4_371_587,
            MAX_DAY == 2_932_896,
    ;
    r
}

/// The `YYYY-MM-DD` text jiff writes for a civil day.
pub uninterp spec fn civil_text(day: int) -> Seq<char>;

/// jiff's `Display` for the civil date `day` days after 1970-01-01, reached with
/// `Date::checked_add` of a span of that many days. The text is a function of the day alone.
#[verifier::external_body]
fn civil_date_text(day: i64) -> (r: String)
    requires
        is_day(day as int),
    ensures
        r@ == civil_text(day as int),
{
    jiff::civil::date(1970, 1, 1).checked_add(jiff::Span::new().days(day)).unwrap().to_string()
}

/// The day jiff reads from a text, as days after 1970-01-01, where the text is a date it accepts.
pub uninterp spec fn civil_day_of(text: Seq<char>) -> Option<int>;

/// jiff's `FromStr` for a civil date, then `Date::since` 1970-01-01 in whole days. Any date jiff
/// accepts lies in its civil range, so the count does too; which texts it accepts is jiff's.
#[verifier::external_body]
fn parse_civil_day(text: &str) -> (r: Option<i64>)
    ensures
        match r {
            Some(d) => civil_day_of(text@) == Some(d as int) && is_day(d as int),
            None => civil_day_of(text@) is None,
        },
{
    match text.parse::<jiff::civil::Date>() {
        Ok(date) => match date.since(jiff::civil::date(1970, 1, 1)) {
            Ok(span) => Some(i64::from(span.get_days())),
            Err(_) => None,
        },
        Err(_) => None,
    }
}

/// A civil day as `YYYY-MM-DD`.
pub fn day_text(day: i64) -> (r: String)
    requires
        is_day(day as int),
    ensures
        r@ == civil_text(day as int),
{
    civil_date_text(day)
}

/// The civil day a `YYYY-MM-DD` text names, if it names one.
pub fn parse_day(text: &str) -> (r: Option<i64>)
    ensures
        match r {
            Some(d) => civil_day_of(text@) == Some(d as int) && is_day(d as int),
            None => civil_day_of(text@) is None,
        },
{
    parse_civil_day(text)
}

/// The local calendar date of an instant at a given UTC offset, `YYYY-MM-DD`.
pub fn local_date(ms: i64, offset_seconds: i32) -> (r: String)
    requires
        is_instant(ms as int),
    ensures
        r@ == civil_text(local_day_of(ms as int, offset_seconds as int)),
{
    day_text(local_day(ms, offset_seconds))
}

/// The local date of a millisecond count, or nothing for one jiff does not take.
pub fn millis_to_local_date(ms: i64, offset_seconds: i32) -> (r: Option<String>)
    ensures
        match r {
            Some(text) => is_millis(ms as int) && text@ == civil_text(
                local_day_of(ms as int, offset_seconds as int),
            ),
            None => !is_millis(ms as int),
        },
{
    if MIN_MS <= ms && ms <= MAX_MILLIS {
        Some(local_date(ms, offset_seconds))
    } else {
        None
    }
}

/// Local midnight starting `day` at `offset_seconds`, in milliseconds. Saturates at the ends of
/// the representable range, which only a day thousands of years out could reach.
pub open spec fn day_start_of(day: int, offset_seconds: int) -> int {
    let seconds = day * 86_400 - normal_offset(offset_seconds);
    if MIN_SECONDS <= seconds <= MAX_SECONDS {
        seconds * 1000
    } else if day < 0 {
        MIN_MS as int
    } else {
        MAX_MS as int
    }
}

pub fn day_start(day: i64, offset_seconds: i32) -> (r: i64)
    requires
        MIN_DAY <= day <= MAX_DAY + 1,
    ensures
        r == day_start_of(day as int, offset_seconds as int),
        MIN_MS <= r <= MAX_MS,
{
    let seconds = day * 86_400 - offset(offset_seconds) as i64;
    if MIN_SECONDS <= seconds && seconds <= MAX_SECONDS {
        seconds * 1000
    } else if day < 0 {
        MIN_MS
    } else {
        MAX_MS
    }
}

/// Every day from `from` to `to` inclusive. Empty if they are the wrong way round.
pub fn dates_in_range(from: i64, to: i64) -> (r: Vec<i64>)
    requires
        is_day(from as int),
        is_day(to as int),
    ensures
        r@.len() == if from <= to { to - from + 1 } else { 0 },
        forall|i: int| 0 <= i < r@.len() ==> #[trigger] r@[i] == from + i,
{
    let mut dates: Vec<i64> = Vec::new();
    let mut current = from;
    while current <= to
        invariant
            is_day(from as int),
            is_day(to as int),
            from <= current <= to + 1 || (from > to && current == from),
            dates@.len() == current - from,
            forall|i: int| 0 <= i < dates@.len() ==> #[trigger] dates@[i] == from + i,
        decreases to + 1 - current,
    {
        dates.push(current);
        current = current + 1;
    }
    dates
}

/// The part of `start..end` that falls on the local `day`, in milliseconds: the day begins at
/// local midnight at the start offset and ends at the next midnight at the end offset, and an
/// item that misses the day has nothing on it.
pub open spec fn clipped_of(start: int, end: int, start_offset: int, end_offset: int, day: int) -> int {
    let from = if start > day_start_of(day, start_offset) {
        start
    } else {
        day_start_of(day, start_offset)
    };
    let until = if end < day_start_of(day + 1, end_offset) {
        end
    } else {
        day_start_of(day + 1, end_offset)
    };
    if until > from {
        until - from
    } else {
        0
    }
}

/// The most of anything one local day can hold: a day plus the widest swing between two
/// offsets, in milliseconds.
pub const MAX_CLIPPED_MS: i64 = 273_598_000;

/// How much of an item falls on a local day, in milliseconds.
pub fn clipped_ms(start: i64, end: i64, start_offset: i32, end_offset: i32, day: i64) -> (r: i64)
    requires
        is_day(day as int),
    ensures
        r == clipped_of(start as int, end as int, start_offset as int, end_offset as int, day as int),
        0 <= r <= MAX_CLIPPED_MS,
{
    let day_from = day_start(day, start_offset);
    let day_until = day_start(day + 1, end_offset);
    let from = if start > day_from {
        start
    } else {
        day_from
    };
    let until = if end < day_until {
        end
    } else {
        day_until
    };
    if until > from {
        until - from
    } else {
        0
    }
}


/// The RFC 3339 text jiff writes for an instant, in UTC with as many fractional digits as it
/// needs: `2025-06-10T08:00:00Z`.
pub uninterp spec fn rfc3339_text(ms: int) -> Seq<char>;

/// jiff's `Display` for `Timestamp::from_millisecond(ms)`. The text is a function of the
/// instant alone.
#[verifier::external_body]
fn instant_text(ms: i64) -> (r: String)
    requires
        is_millis(ms as int),
    ensures
        r@ == rfc3339_text(ms as int),
{
    jiff::Timestamp::from_millisecond(ms).unwrap().to_string()
}

/// A millisecond count as RFC 3339, or nothing for one `Timestamp::from_millisecond` refuses.
pub fn rfc3339(ms: i64) -> (r: Option<String>)
    ensures
        match r {
            Some(t) => is_millis(ms as int) && t@ == rfc3339_text(ms as int),
            None => !is_millis(ms as int),
        },
{
    if MIN_MS <= ms && ms <= MAX_MILLIS {
        Some(instant_text(ms))
    } else {
        None
    }
}

/// The milliseconds of `start..end` on each local day from `first` to `last`, added up.
pub open spec fn clipped_total(start: int, end: int, offset_seconds: int, first: int, last: int) -> int
    decreases last - first + 1,
{
    if last < first {
        0
    } else {
        clipped_total(start, end, offset_seconds, first, last - 1) + clipped_of(
            start,
            end,
            offset_seconds,
            offset_seconds,
            last,
        )
    }
}

proof fn lemma_day_bounds(ms: int, offset_seconds: int)
    requires
        is_instant(ms),
    ensures
        ({
            let d = local_day_of(ms, offset_seconds);
            let o = normal_offset(offset_seconds);
            &&& (d * 86_400 - o) * 1000 <= ms
            &&& ms < ((d + 1) * 86_400 - o) * 1000
            &&& is_day(d)
        }),
{
    let o = normal_offset(offset_seconds);
    let x = ms + o * 1000;
    let d = x / 86_400_000;
    assert(d * 86_400_000 <= x < d * 86_400_000 + 86_400_000) by (nonlinear_arith)
        requires
            d == x / 86_400_000,
    ;
    assert(MIN_DAY <= d <= MAX_DAY) by (nonlinear_arith)
        requires
            d == x / 86_400_000,
            MIN_MS - 93_599_000 <= x <= MAX_MS + 93_599_000,
    ;
}

proof fn lemma_day_start_exact(day: int, offset_seconds: int, lo: int, hi: int)
    requires
        is_instant(lo),
        is_instant(hi),
        lo <= (day * 86_400 - normal_offset(offset_seconds)) * 1000 <= hi,
    ensures
        day_start_of(day, offset_seconds) == (day * 86_400 - normal_offset(offset_seconds)) * 1000,
{
}

proof fn lemma_day_start_at_or_before(ms: int, offset_seconds: int)
    requires
        is_instant(ms),
    ensures
        day_start_of(local_day_of(ms, offset_seconds), offset_seconds) <= ms,
        day_start_of(local_day_of(ms, offset_seconds) + 1, offset_seconds) > ms
            || ms == MAX_MS,
{
    lemma_day_bounds(ms, offset_seconds);
}

/// With one offset throughout, the local days an item touches share its whole duration between
/// them: an item that runs over local midnight belongs to both days and is clipped into each.
pub proof fn clipped_days_add_up(start: int, end: int, offset_seconds: int)
    requires
        is_instant(start),
        is_instant(end),
        start <= end,
    ensures
        clipped_total(
            start,
            end,
            offset_seconds,
            local_day_of(start, offset_seconds),
            local_day_of(end, offset_seconds),
        ) == end - start,
{
    let first = local_day_of(start, offset_seconds);
    let last = local_day_of(end, offset_seconds);
    let o = normal_offset(offset_seconds);
    lemma_day_bounds(start, offset_seconds);
    lemma_day_bounds(end, offset_seconds);
    lemma_day_start_at_or_before(start, offset_seconds);
    lemma_day_start_at_or_before(end, offset_seconds);
    assert(first <= last) by (nonlinear_arith)
        requires
            (first * 86_400 - o) * 1000 <= start,
            start <= end,
            end < ((last + 1) * 86_400 - o) * 1000,
    ;
    lemma_clipped_prefix(start, end, offset_seconds, first, last);
    if last + 1 <= MAX_DAY + 1 {
        assert(day_start_of(last + 1, offset_seconds) >= end);
    }
}

/// What the days `first..=k` hold of `start..end`: everything up to the end of day `k`.
proof fn lemma_clipped_prefix(start: int, end: int, offset_seconds: int, first: int, k: int)
    requires
        is_instant(start),
        is_instant(end),
        start <= end,
        first == local_day_of(start, offset_seconds),
        first <= k <= local_day_of(end, offset_seconds),
    ensures
        clipped_total(start, end, offset_seconds, first, k) == (if end < day_start_of(
            k + 1,
            offset_seconds,
        ) {
            end
        } else {
            day_start_of(k + 1, offset_seconds)
        }) - start,
    decreases k - first,
{
    let o = normal_offset(offset_seconds);
    let last = local_day_of(end, offset_seconds);
    lemma_day_bounds(start, offset_seconds);
    lemma_day_bounds(end, offset_seconds);
    let b = (k + 1) * 86_400 - o;
    // Midnights strictly inside the item are ordinary instants.
    if k + 1 <= last {
        assert(start < b * 1000 <= end) by (nonlinear_arith)
            requires
                (first * 86_400 - o) * 1000 <= start < ((first + 1) * 86_400 - o) * 1000,
                (last * 86_400 - o) * 1000 <= end,
                first <= k,
                k + 1 <= last,
                b == (k + 1) * 86_400 - o,
        ;
        lemma_day_start_exact(k + 1, offset_seconds, start, end);
    } else {
        assert(b * 1000 > end) by (nonlinear_arith)
            requires
                end < ((last + 1) * 86_400 - o) * 1000,
                k == last,
                b == (k + 1) * 86_400 - o,
        ;
    }
    if k == first {
        lemma_day_start_at_or_before(start, offset_seconds);
        if k + 1 > last {
            assert(day_start_of(k + 1, offset_seconds) >= end);
        }
        assert(clipped_total(start, end, offset_seconds, first, first - 1) == 0);
    } else {
        lemma_clipped_prefix(start, end, offset_seconds, first, k - 1);
        let a = k * 86_400 - o;
        assert(start < a * 1000 <= end) by (nonlinear_arith)
            requires
                (first * 86_400 - o) * 1000 <= start < ((first + 1) * 86_400 - o) * 1000,
                (last * 86_400 - o) * 1000 <= end,
                first < k <= last,
                a == k * 86_400 - o,
        ;
        lemma_day_start_exact(k, offset_seconds, start, end);
        assert(a * 1000 < b * 1000);
        if k + 1 > last {
            assert(day_start_of(k + 1, offset_seconds) >= end);
        }
    }
}

} // verus!
