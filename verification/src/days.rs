use vstd::prelude::*;
use vstd::arithmetic::div_mod::lemma_fundamental_div_mod;
use vstd::arithmetic::div_mod::lemma_fundamental_div_mod_converse;
use vstd::arithmetic::div_mod::lemma_mod_bound;
use chrono::Datelike;

verus! {

/// Length of one UTC day in milliseconds; UTC days have no leap-second
/// adjustment in Unix-epoch millisecond timestamps, so every day boundary is
/// an exact multiple of this.
pub const MS_PER_DAY: i64 = 86_400_000;

/// Upper bound on every timestamp this library works with. It keeps all the
/// cursor arithmetic far away from `i64` overflow and stays inside the range
/// chrono can represent as a date.
pub const MAX_TIME_MS: i64 = 8_000_000_000_000_000;

/// The UTC day number (days since the epoch) containing millisecond `ms`.
pub open spec fn day_index(ms: int) -> int {
    ms / (MS_PER_DAY as int)
}

/// The UTC-midnight timestamp strictly after `ms`: the first millisecond of
/// the day following the day that contains `ms`.
pub open spec fn next_day_boundary(ms: int) -> int {
    (day_index(ms) + 1) * (MS_PER_DAY as int)
}

/// The day boundary lies strictly after `ms`, at most one day ahead.
pub proof fn lemma_boundary_bounds(ms: int)
    requires
        0 <= ms,
    ensures
        ms < next_day_boundary(ms) <= ms + MS_PER_DAY,
{
    let d = MS_PER_DAY as int;
    lemma_fundamental_div_mod(ms, d);
    lemma_mod_bound(ms, d);
}

/// Every time from `c` up to (excluding) `c`'s next day boundary lies in the
/// same UTC day as `c`.
pub proof fn lemma_same_day(c: int, t: int)
    requires
        0 <= c,
        c <= t,
        t < next_day_boundary(c),
    ensures
        day_index(t) == day_index(c),
{
    let d = MS_PER_DAY as int;
    lemma_fundamental_div_mod(c, d);
    lemma_mod_bound(c, d);
    lemma_fundamental_div_mod_converse(t, d, day_index(c), t - day_index(c) * d);
}

/// Computes `next_day_boundary` on machine integers.
pub fn next_boundary_ms(ms: i64) -> (r: i64)
    requires
        0 <= ms,
        ms <= MAX_TIME_MS + MS_PER_DAY,
    ensures
        r as int == next_day_boundary(ms as int),
        ms < r <= ms + MS_PER_DAY,
{
    proof {
        lemma_boundary_bounds(ms as int);
    }
    let q: u64 = (ms as u64) / 86_400_000u64;
    ((q + 1) * 86_400_000u64) as i64
}

/// The `(year, month, day)` that the UTC calendar assigns to a given day
/// number. Stated abstractly: the civil-calendar rules are the calendar
/// library's business, and every consumer only needs the key to be a function
/// of the day number alone.
pub uninterp spec fn civil_date_of_day(day: int) -> (int, int, int);

/// Relies on chrono: `DateTime::<Utc>::from_timestamp_millis` followed by the
/// `Datelike` accessors `year`, `month` and `day`. The UTC calendar date of a
/// timestamp depends only on its UTC day number, and chrono documents `month`
/// as `1..=12` and `day` as `1..=31`. The required bounds keep the timestamp
/// inside chrono's representable range, where `from_timestamp_millis` cannot
/// return `None`.
#[verifier::external_body]
pub(crate) fn utc_ymd(ms: i64) -> (r: (i32, u32, u32))
    requires
        0 <= ms,
        ms <= MAX_TIME_MS + MS_PER_DAY,
    ensures
        (r.0 as int, r.1 as int, r.2 as int) == civil_date_of_day(day_index(ms as int)),
        1 <= r.1 <= 12,
        1 <= r.2 <= 31,
{
    let dt = chrono::DateTime::from_timestamp_millis(ms).unwrap();
    (dt.year(), dt.month(), dt.day())
}

} // verus!
