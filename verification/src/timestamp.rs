//! Wall-clock timestamps for records: a Gregorian date plus an hour of day,
//! derived from a fixed epoch by hour arithmetic, and formatted as the
//! ISO-8601 shape `YYYY-MM-DDTHH:00:00` the sink expects (records always lie
//! on a full hour).

use vstd::prelude::*;

verus! {

/// A calendar timestamp on a full hour.
#[derive(Clone, Copy, PartialEq, Eq, Structural, Debug)]
pub struct Timestamp {
    pub year: usize,
    pub month: usize,
    pub day: usize,
    pub hour: usize,
}

pub open spec fn is_leap(y: int) -> bool {
    y % 4 == 0 && (y % 100 != 0 || y % 400 == 0)
}

pub open spec fn days_in_month(y: int, m: int) -> int {
    if m == 2 {
        if is_leap(y) {
            29
        } else {
            28
        }
    } else if m == 4 || m == 6 || m == 9 || m == 11 {
        30
    } else {
        31
    }
}

impl Timestamp {
    /// A real calendar date on a full hour, the year uncapped.
    pub open spec fn date_ok(&self) -> bool {
        &&& 1000 <= self.year
        &&& 1 <= self.month <= 12
        &&& 1 <= self.day <= days_in_month(self.year as int, self.month as int)
        &&& self.hour < 24
    }

    /// A real calendar date with a four-digit year, on a full hour.
    pub open spec fn wf(&self) -> bool {
        self.date_ok() && self.year <= 9999
    }
}

/// The date one day later, at the same hour.
pub open spec fn spec_next_day(t: Timestamp) -> Timestamp {
    if t.day < days_in_month(t.year as int, t.month as int) {
        Timestamp { year: t.year, month: t.month, day: (t.day + 1) as usize, hour: t.hour }
    } else if t.month < 12 {
        Timestamp { year: t.year, month: (t.month + 1) as usize, day: 1, hour: t.hour }
    } else {
        Timestamp { year: (t.year + 1) as usize, month: 1, day: 1, hour: t.hour }
    }
}

pub open spec fn spec_add_days(t: Timestamp, d: nat) -> Timestamp
    decreases d,
{
    if d == 0 {
        t
    } else {
        spec_next_day(spec_add_days(t, (d - 1) as nat))
    }
}

/// `k` hours after `t`: the hour of day advances modulo 24 and the date
/// advances by the carried days.
pub open spec fn spec_add_hours(t: Timestamp, k: nat) -> Timestamp {
    let tot = t.hour + k;
    let base = spec_add_days(
        Timestamp { year: t.year, month: t.month, day: t.day, hour: 0 },
        (tot / 24) as nat,
    );
    Timestamp { year: base.year, month: base.month, day: base.day, hour: (tot % 24) as usize }
}

/// The days of year `y` that lie before month `m`.
pub open spec fn days_before_month(y: int, m: int) -> int
    decreases m,
{
    if m <= 1 {
        0
    } else {
        days_before_month(y, m - 1) + days_in_month(y, m - 1)
    }
}

/// The day's ordinal within its year, one-based.
pub open spec fn day_of_year(t: Timestamp) -> int {
    days_before_month(t.year as int, t.month as int) + t.day
}

proof fn lemma_days_before_month_bounds(y: int, m: int)
    requires
        1 <= m <= 12,
    ensures
        0 <= days_before_month(y, m) <= 31 * (m - 1),
    decreases m,
{
    if m > 1 {
        lemma_days_before_month_bounds(y, m - 1);
    }
}

/// At least 334 days of any year lie before December.
proof fn lemma_days_before_december(y: int)
    ensures
        days_before_month(y, 12) >= 334,
{
    assert(days_before_month(y, 1) == 0);
    assert(days_before_month(y, 2) == days_before_month(y, 1) + days_in_month(y, 1));
    assert(days_before_month(y, 3) == days_before_month(y, 2) + days_in_month(y, 2));
    assert(days_before_month(y, 4) == days_before_month(y, 3) + days_in_month(y, 3));
    assert(days_before_month(y, 5) == days_before_month(y, 4) + days_in_month(y, 4));
    assert(days_before_month(y, 6) == days_before_month(y, 5) + days_in_month(y, 5));
    assert(days_before_month(y, 7) == days_before_month(y, 6) + days_in_month(y, 6));
    assert(days_before_month(y, 8) == days_before_month(y, 7) + days_in_month(y, 7));
    assert(days_before_month(y, 9) == days_before_month(y, 8) + days_in_month(y, 8));
    assert(days_before_month(y, 10) == days_before_month(y, 9) + days_in_month(y, 9));
    assert(days_before_month(y, 11) == days_before_month(y, 10) + days_in_month(y, 10));
    assert(days_before_month(y, 12) == days_before_month(y, 11) + days_in_month(y, 11));
}

/// Day stepping keeps the date valid and raises the year by one only at a
/// year's end: the weighted day count `365 * year + day_of_year` grows by at
/// most one per day, so a year costs at least 365 carried days.
pub proof fn lemma_add_days_potential(t: Timestamp, d: nat)
    requires
        t.date_ok(),
        365 * t.year + day_of_year(t) + d <= 365 * ((usize::MAX - 1) as int),
    ensures
        spec_add_days(t, d).date_ok(),
        spec_add_days(t, d).hour == t.hour,
        spec_add_days(t, d).year >= t.year,
        365 * spec_add_days(t, d).year + day_of_year(spec_add_days(t, d)) <= 365 * t.year
            + day_of_year(t) + d,
    decreases d,
{
    if d > 0 {
        lemma_add_days_potential(t, (d - 1) as nat);
        let u = spec_add_days(t, (d - 1) as nat);
        let y = u.year as int;
        let m = u.month as int;
        lemma_days_before_month_bounds(y, m);
        assert(day_of_year(u) >= 1);
        assert(u.year <= usize::MAX - 1);
        if u.day < days_in_month(y, m) {
            // same month: the ordinal advances by one
        } else if u.month < 12 {
            // next month: the ordinal still advances by one
            assert(days_before_month(y, m + 1) == days_before_month(y, m) + days_in_month(y, m));
        } else {
            // next year: December ends at ordinal >= 365
            lemma_days_before_december(y);
        }
    }
}

pub fn days_in_month_x(y: usize, m: usize) -> (r: usize)
    requires
        1 <= m <= 12,
    ensures
        r == days_in_month(y as int, m as int),
{
    if m == 2 {
        if y % 4 == 0 && (y % 100 != 0 || y % 400 == 0) {
            29
        } else {
            28
        }
    } else if m == 4 || m == 6 || m == 9 || m == 11 {
        30
    } else {
        31
    }
}

fn next_day(t: &Timestamp) -> (r: Timestamp)
    requires
        t.date_ok(),
        t.year <= 9999,
    ensures
        r == spec_next_day(*t),
        r.date_ok(),
{
    let dim = days_in_month_x(t.year, t.month);
    if t.day < dim {
        Timestamp { year: t.year, month: t.month, day: t.day + 1, hour: t.hour }
    } else if t.month < 12 {
        Timestamp { year: t.year, month: t.month + 1, day: 1, hour: t.hour }
    } else {
        Timestamp { year: t.year + 1, month: 1, day: 1, hour: t.hour }
    }
}

/// The timestamp `k` hours after `t`. The year stays within four digits by
/// the precondition: a year costs at least 365 carried days, and the
/// current year contributes at most 371 further days.
pub fn add_hours(t: &Timestamp, k: usize) -> (r: Timestamp)
    requires
        t.wf(),
        k <= usize::MAX - 23,
        t.year + ((t.hour + k) / 24 + 371) / 365 <= 9999,
    ensures
        r == spec_add_hours(*t, k as nat),
        r.wf(),
{
    let tot: usize = t.hour + k;
    let d: usize = tot / 24;
    let ghost base = Timestamp { year: t.year, month: t.month, day: t.day, hour: 0usize };
    let mut cur = Timestamp { year: t.year, month: t.month, day: t.day, hour: 0 };
    proof {
        lemma_days_before_month_bounds(base.year as int, base.month as int);
        vstd::arithmetic::div_mod::lemma_fundamental_div_mod((d + 371) as int, 365);
    }
    let mut i: usize = 0;
    while i < d
        invariant
            i <= d,
            cur == spec_add_days(base, i as nat),
            cur.date_ok(),
            base.wf(),
            day_of_year(base) <= 372,
            365 * cur.year + day_of_year(cur) <= 365 * base.year + day_of_year(base) + i,
            base.year + ((d + 371) as int) / 365 <= 9999,
            365 * (((d + 371) as int) / 365) <= d + 371,
        decreases d - i,
    {
        proof {
            lemma_days_before_month_bounds(cur.year as int, cur.month as int);
            assert(day_of_year(cur) >= 1);
            assert(365 * cur.year <= 365 * base.year + 372 + d - 1);
            assert(365 * cur.year <= 365 * (base.year + ((d + 371) as int) / 365));
            assert(cur.year <= 9999);
        }
        let ghost prev = cur;
        cur = next_day(&cur);
        proof {
            lemma_add_days_potential(base, (i + 1) as nat);
            assert(spec_add_days(base, (i + 1) as nat) == spec_next_day(
                spec_add_days(base, i as nat),
            ));
        }
        i = i + 1;
    }
    proof {
        lemma_days_before_month_bounds(cur.year as int, cur.month as int);
        assert(day_of_year(cur) >= 1);
        assert(365 * cur.year <= 365 * base.year + 372 + d - 1);
        assert(365 * cur.year <= 365 * (base.year + ((d + 371) as int) / 365));
        assert(cur.year <= 9999);
    }
    Timestamp { year: cur.year, month: cur.month, day: cur.day, hour: tot % 24 }
}

/// The epoch the generated timeline starts at.
pub fn timeline_epoch() -> (t: Timestamp)
    ensures
        t == (Timestamp { year: 2015usize, month: 10usize, day: 20usize, hour: 0usize }),
        t.wf(),
{
    Timestamp { year: 2015, month: 10, day: 20, hour: 0 }
}

/// The timestamp written into the record of hour `h`: `h` hours past the
/// timeline epoch. Any hour count that keeps the year within four digits is
/// admitted.
pub fn record_timestamp(h: usize) -> (t: Timestamp)
    requires
        h <= 69939695,
    ensures
        t == spec_add_hours(
            Timestamp { year: 2015usize, month: 10usize, day: 20usize, hour: 0usize },
            h as nat,
        ),
        t.wf(),
{
    let epoch = timeline_epoch();
    proof {
        vstd::arithmetic::div_mod::lemma_div_is_ordered(h as int, 69939695, 24);
        vstd::arithmetic::div_mod::lemma_div_is_ordered((h as int) / 24 + 371, 2914524, 365);
    }
    add_hours(&epoch, h)
}

} // verus!
