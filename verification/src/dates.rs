//! Calendar dates and timestamps.

use crate::chars::dec;
use vstd::prelude::*;
use vstd::string::*;

verus! {

// ── Spans of time ────────────────────────────────────────────────────────────

/// A span of time: whole seconds, and what is over in nanoseconds.
#[derive(Debug, Clone, Copy, PartialEq, Eq, Structural)]
pub struct Duration {
    pub secs: u64,
    pub subsec_nanos: u32,
}

impl Duration {
    /// The span of `secs` seconds.
    pub open spec fn whole(secs: u64) -> Self {
        Duration { secs, subsec_nanos: 0 }
    }

    /// The span of `secs` seconds and `subsec_nanos` nanoseconds.
    pub fn new(secs: u64, subsec_nanos: u32) -> (r: Self)
        requires
            subsec_nanos < 1_000_000_000,
        ensures
            r == (Duration { secs, subsec_nanos }),
    {
        Self { secs, subsec_nanos }
    }

    /// The span of `secs` seconds.
    pub fn from_secs(secs: u64) -> (r: Self)
        ensures
            r == Duration::whole(secs),
    {
        Self { secs, subsec_nanos: 0 }
    }

    /// The whole seconds of the span.
    pub fn as_secs(&self) -> (r: u64)
        ensures
            r == self.secs,
    {
        self.secs
    }

    /// The length of the span in nanoseconds.
    pub open spec fn nanos(&self) -> int {
        self.secs * 1_000_000_000 + self.subsec_nanos
    }
}

/// Whether a year of the Gregorian calendar has 366 days.
pub open spec fn is_leap(y: int) -> bool {
    y % 4 == 0 && (y % 100 != 0 || y % 400 == 0)
}

/// The number of days before the given month in a year.
pub open spec fn days_before_month(y: int, m: int) -> int {
    let leap: int = if is_leap(y) {
        1
    } else {
        0
    };
    if m == 1 {
        0
    } else if m == 2 {
        31
    } else if m == 3 {
        59 + leap
    } else if m == 4 {
        90 + leap
    } else if m == 5 {
        120 + leap
    } else if m == 6 {
        151 + leap
    } else if m == 7 {
        181 + leap
    } else if m == 8 {
        212 + leap
    } else if m == 9 {
        243 + leap
    } else if m == 10 {
        273 + leap
    } else if m == 11 {
        304 + leap
    } else if m == 12 {
        334 + leap
    } else {
        365 + leap
    }
}

/// The number of days in a month.
pub open spec fn month_days(y: int, m: int) -> int {
    days_before_month(y, m + 1) - days_before_month(y, m)
}

/// The number of days between the first of January of year 1 and of year `y`.
pub open spec fn days_before_year(y: int) -> int {
    365 * (y - 1) + (y - 1) / 4 - (y - 1) / 100 + (y - 1) / 400
}

/// Whether a date exists in the Gregorian calendar.
pub open spec fn is_date(y: int, m: int, d: int) -> bool {
    1 <= m <= 12 && 1 <= d <= month_days(y, m)
}

/// The number of days from the first of January 1970 to a date.
pub open spec fn day_number(y: int, m: int, d: int) -> int {
    days_before_year(y) + days_before_month(y, m) + (d - 1) - days_before_year(1970)
}

/// The days of the years before year `k` of an era that starts in March.
spec fn era_days(k: int) -> int {
    365 * k + k / 4 - k / 100
}

proof fn lemma_year_of_era(doe: int)
    requires
        0 <= doe < 146097,
    ensures
        ({
            let yoe = (doe - doe / 1460 + doe / 36524 - doe / 146096) / 365;
            &&& 0 <= yoe <= 399
            &&& era_days(yoe) <= doe
            &&& doe - era_days(yoe) <= 365
            &&& (doe - era_days(yoe) == 365 ==> (yoe + 1) % 4 == 0 && ((yoe + 1) % 100 != 0 || (yoe
                + 1) % 400 == 0))
        }),
{
    let a = doe / 1460;
    let b = doe / 36524;
    let c = doe / 146096;
    assert(0 <= b <= 4);
    assert(0 <= c <= 1);
    let n = doe - a + b - c;
    let yoe = n / 365;
    assert(1460 * a <= doe < 1460 * a + 1460);
    assert(36524 * b <= doe < 36524 * b + 36524);
    assert(365 * yoe <= n < 365 * yoe + 365);
}

/// What the civil-from-days computation gives is the date with that day
/// number.
proof fn lemma_civil(z: int, era: int, doe: int, yoe: int, doy: int, mp: int, m: int, d: int, y: int)
    requires
        z >= 719468,
        era == z / 146097,
        doe == z % 146097,
        yoe == (doe - doe / 1460 + doe / 36524 - doe / 146096) / 365,
        doy == doe - (365 * yoe + yoe / 4 - yoe / 100),
        mp == (5 * doy + 2) / 153,
        d == doy - (153 * mp + 2) / 5 + 1,
        m == (if mp < 10 {
            mp + 3
        } else {
            mp - 9
        }),
        y == (if m <= 2 {
            yoe + era * 400 + 1
        } else {
            yoe + era * 400
        }),
    ensures
        is_date(y, m, d),
        day_number(y, m, d) == z - 719468,
{
    lemma_year_of_era(doe);
    assert(0 <= mp <= 11);
    assert(z == 146097 * era + doe);
    let g = yoe + era * 400;
    // Within its era a year is a leap year by its number in the era.
    assert(g / 4 == 100 * era + yoe / 4);
    assert(g / 100 == 4 * era + yoe / 100);
    assert(g / 400 == era);
    assert((g + 1) % 4 == (yoe + 1) % 4);
    assert((g + 1) % 100 == (yoe + 1) % 100);
    assert((g + 1) % 400 == (yoe + 1) % 400);
    // Days before the March that starts year `g`.
    assert(days_before_year(g + 1) == 365 * g + g / 4 - g / 100 + g / 400);
    assert(365 * g + g / 4 - g / 100 + g / 400 == 146097 * era + era_days(yoe));
    assert(days_before_year(1970) == 719162);
    if m > 2 {
        lemma_march(g);
    }
}

/// The first of March of year `g` comes 306 days before the next year.
proof fn lemma_march(g: int)
    ensures
        days_before_year(g) + days_before_month(g, 3) + 306 == days_before_year(g + 1),
{
    assert(g / 4 == (g - 1) / 4 + (if g % 4 == 0 {
        1int
    } else {
        0int
    }));
    assert(g / 100 == (g - 1) / 100 + (if g % 100 == 0 {
        1int
    } else {
        0int
    }));
    assert(g / 400 == (g - 1) / 400 + (if g % 400 == 0 {
        1int
    } else {
        0int
    }));
}

/// The date that is `days` days after the first of January 1970.
pub fn days_to_ymd(days: u64) -> (r: (i64, u64, u64))
    requires
        days <= i64::MAX - 719468,
    ensures
        is_date(r.0 as int, r.1 as int, r.2 as int),
        day_number(r.0 as int, r.1 as int, r.2 as int) == days,
        r.0 >= 1970,
{
    let z: u64 = days + 719468;
    let era: u64 = z / 146097;
    let doe: u64 = z % 146097;
    proof {
        lemma_year_of_era(doe as int);
    }
    let yoe: u64 = (doe - doe / 1460 + doe / 36524 - doe / 146096) / 365;
    let doy: u64 = doe - (365 * yoe + yoe / 4 - yoe / 100);
    let mp: u64 = (5 * doy + 2) / 153;
    let d: u64 = doy - (153 * mp + 2) / 5 + 1;
    let m: u64 = if mp < 10 {
        mp + 3
    } else {
        mp - 9
    };
    let base: i64 = yoe as i64 + era as i64 * 400;
    let y: i64 = if m <= 2 {
        base + 1
    } else {
        base
    };
    proof {
        lemma_civil(
            z as int,
            era as int,
            doe as int,
            yoe as int,
            doy as int,
            mp as int,
            m as int,
            d as int,
            y as int,
        );
        lemma_year_from_1970(y as int, m as int, d as int);
    }
    (y, m, d)
}

proof fn lemma_year_from_1970(y: int, m: int, d: int)
    requires
        is_date(y, m, d),
        day_number(y, m, d) >= 0,
    ensures
        y >= 1970,
{
    lemma_year_span(y, m, d);
    if y < 1970 {
        lemma_years_ascend(y + 1, 1970);
    }
}

/// No two dates have the same day number.
pub proof fn law_day_number_injective(y1: int, m1: int, d1: int, y2: int, m2: int, d2: int)
    requires
        is_date(y1, m1, d1),
        is_date(y2, m2, d2),
        day_number(y1, m1, d1) == day_number(y2, m2, d2),
    ensures
        y1 == y2,
        m1 == m2,
        d1 == d2,
{
    lemma_year_span(y1, m1, d1);
    lemma_year_span(y2, m2, d2);
    if y1 < y2 {
        lemma_years_ascend(y1 + 1, y2);
    } else if y2 < y1 {
        lemma_years_ascend(y2 + 1, y1);
    }
}

proof fn lemma_year_span(y: int, m: int, d: int)
    requires
        is_date(y, m, d),
    ensures
        days_before_year(y) <= day_number(y, m, d) + days_before_year(1970) < days_before_year(
            y + 1,
        ),
{
    lemma_march(y);
}

proof fn lemma_years_ascend(a: int, b: int)
    requires
        a <= b,
    ensures
        days_before_year(a) <= days_before_year(b),
    decreases b - a,
{
    if a < b {
        lemma_years_ascend(a, b - 1);
        lemma_march(b - 1);
    }
}

// ── Timestamps ───────────────────────────────────────────────────────────────

/// The decimal notation of `n` with at least `width` digits.
pub open spec fn padded(n: nat, width: nat) -> Seq<char> {
    let s = dec(n);
    if s.len() >= width {
        s
    } else {
        Seq::new((width - s.len()) as nat, |i: int| '0') + s
    }
}

/// A date and a time of day as `YYYY-MM-DDTHH:MM:SSZ`.
pub open spec fn stamp(y: nat, m: nat, d: nat, time: nat) -> Seq<char> {
    padded(y, 4) + "-"@ + padded(m, 2) + "-"@ + padded(d, 2) + "T"@ + padded(time / 3600, 2) + ":"@
        + padded((time / 60) % 60, 2) + ":"@ + padded(time % 60, 2) + "Z"@
}

fn push_padded(out: &mut String, n: u64, width: usize)
    requires
        width <= 4,
    ensures
        final(out)@ == old(out)@ + padded(n as nat, width as nat),
{
    let ghost had = out@;
    let digits = crate::chars::decimal(n);
    let ds = crate::text::chars_of(digits.as_str());
    let mut k: usize = ds.len();
    assert(out@ =~= had + Seq::new(0nat, |i: int| '0'));
    while k < width
        invariant
            ds.len() <= k,
            k <= width || k == ds.len(),
            out@ == had + Seq::new((k - ds.len()) as nat, |i: int| '0'),
        decreases width - k,
    {
        out.push('0');
        assert(out@ =~= had + Seq::new((k + 1 - ds.len()) as nat, |i: int| '0'));
        k += 1;
    }
    out.append(digits.as_str());
    assert(out@ =~= had + padded(n as nat, width as nat));
}

/// The timestamp of a number of seconds since the first of January 1970, in
/// UTC.
pub fn utc_timestamp(secs: u64) -> (r: String)
    ensures
        exists|y: int, m: int, d: int|
            #[trigger]
            is_date(y, m, d) && y >= 1970 && day_number(y, m, d) == secs / 86400 && r@ == stamp(y as nat, m as nat, d as nat, (secs % 86400) as nat),
{
    let days: u64 = secs / 86400;
    let time: u64 = secs % 86400;
    let (year, month, day) = days_to_ymd(days);
    let mut out = String::new();
    push_padded(&mut out, year as u64, 4);
    out.append("-");
    push_padded(&mut out, month, 2);
    out.append("-");
    push_padded(&mut out, day, 2);
    out.append("T");
    push_padded(&mut out, time / 3600, 2);
    out.append(":");
    push_padded(&mut out, (time / 60) % 60, 2);
    out.append(":");
    push_padded(&mut out, time % 60, 2);
    out.append("Z");
    proof {
        assert(out@ =~= stamp(year as nat, month as nat, day as nat, time as nat));
        assert(is_date(year as int, month as int, day as int));
        assert(stamp(
            (year as int) as nat,
            (month as int) as nat,
            (day as int) as nat,
            (secs % 86400) as nat,
        ) == out@);
    }
    out
}

} // verus!
