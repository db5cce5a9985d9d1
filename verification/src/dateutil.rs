use vstd::prelude::*;

verus! {

// Civil (proleptic Gregorian) date arithmetic over days since 1970-01-01,
// restricted to the years 1970..=9999 that the index line format can carry.

/// Gregorian leap-year rule.
pub open spec fn is_leap_year(y: int) -> bool {
    (y % 4 == 0 && y % 100 != 0) || y % 400 == 0
}

/// Days in a year.
pub open spec fn days_in_year(y: int) -> int {
    if is_leap_year(y) {
        366
    } else {
        365
    }
}

/// Days in a month (1 = January).
pub open spec fn days_in_month(y: int, m: int) -> int {
    if m == 2 {
        if is_leap_year(y) {
            29
        } else {
            28
        }
    } else if m == 4 || m == 6 || m == 9 || m == 11 {
        30
    } else {
        31
    }
}

/// Days from 1970-01-01 to the first day of year `y`.
pub open spec fn days_before_year(y: int) -> int
    decreases y when y >= 1970
{
    if y <= 1970 {
        0
    } else {
        days_before_year(y - 1) + days_in_year(y - 1)
    }
}

/// Days from the first day of year `y` to the first day of month `m`.
pub open spec fn days_before_month(y: int, m: int) -> int
    decreases m when m >= 1
{
    if m <= 1 {
        0
    } else {
        days_before_month(y, m - 1) + days_in_month(y, m - 1)
    }
}

/// Whether a year/month/day triple is a real calendar date in range.
pub open spec fn valid_ymd(y: int, m: int, d: int) -> bool {
    &&& 1970 <= y <= 9999
    &&& 1 <= m <= 12
    &&& 1 <= d <= days_in_month(y, m)
}

/// Days since 1970-01-01 of a calendar date.
pub open spec fn days_of_ymd(y: int, m: int, d: int) -> int {
    days_before_year(y) + days_before_month(y, m) + (d - 1)
}

/// Seconds per day.
pub const SECS_PER_DAY: u64 = 86400;

pub proof fn lemma_days_before_year_mono(a: int, b: int)
    requires
        1970 <= a <= b,
    ensures
        days_before_year(a) <= days_before_year(b),
        a < b ==> days_before_year(a) + 365 * (b - a) <= days_before_year(b),
        days_before_year(b) <= days_before_year(a) + 366 * (b - a),
    decreases b - a,
{
    if a < b {
        lemma_days_before_year_mono(a, b - 1);
    }
}

pub proof fn lemma_days_before_month_mono(y: int, a: int, b: int)
    requires
        1 <= a <= b,
    ensures
        days_before_month(y, a) <= days_before_month(y, b),
        a < b ==> days_before_month(y, a) + days_in_month(y, a) <= days_before_month(y, b),
    decreases b - a,
{
    if a < b {
        lemma_days_before_month_mono(y, a, b - 1);
        lemma_days_before_month_mono(y, a + 1, b);
    }
}

/// The months of a year sum to the year's length.
pub proof fn lemma_year_days(y: int)
    ensures
        days_before_month(y, 12) + 31 == days_in_year(y),
        days_before_month(y, 13) == days_in_year(y),
{
    reveal_with_fuel(days_before_month, 13);
}

/// A date of year `y` lies between the year's first day and the next year's.
pub proof fn lemma_days_of_ymd_bounds(y: int, m: int, d: int)
    requires
        valid_ymd(y, m, d),
    ensures
        days_before_year(y) <= days_of_ymd(y, m, d),
        days_of_ymd(y, m, d) < days_before_year(y) + days_in_year(y),
        days_of_ymd(y, m, d) < days_before_year(y + 1),
{
    lemma_days_before_month_mono(y, 1, m);
    lemma_year_days(y);
    if m < 13 {
        lemma_days_before_month_mono(y, m, 13);
    }
    assert(days_before_month(y, m) + days_in_month(y, m) <= days_in_year(y));
    assert(days_before_year(y + 1) == days_before_year(y) + days_in_year(y));
}

/// Lexicographic order on dates agrees with the day count.
pub proof fn lemma_ymd_lex_order(y1: int, m1: int, d1: int, y2: int, m2: int, d2: int)
    requires
        valid_ymd(y1, m1, d1),
        valid_ymd(y2, m2, d2),
        y1 < y2 || (y1 == y2 && m1 < m2) || (y1 == y2 && m1 == m2 && d1 < d2),
    ensures
        days_of_ymd(y1, m1, d1) < days_of_ymd(y2, m2, d2),
{
    if y1 < y2 {
        lemma_days_of_ymd_bounds(y1, m1, d1);
        lemma_days_of_ymd_bounds(y2, m2, d2);
        lemma_days_before_year_mono(y1 + 1, y2);
    } else if m1 < m2 {
        lemma_days_before_month_mono(y1, m1, m2);
    }
}

/// Equal day counts force equal dates.
pub proof fn lemma_ymd_unique(y1: int, m1: int, d1: int, y2: int, m2: int, d2: int)
    requires
        valid_ymd(y1, m1, d1),
        valid_ymd(y2, m2, d2),
        days_of_ymd(y1, m1, d1) == days_of_ymd(y2, m2, d2),
    ensures
        y1 == y2 && m1 == m2 && d1 == d2,
{
    if y1 < y2 || (y1 == y2 && m1 < m2) || (y1 == y2 && m1 == m2 && d1 < d2) {
        lemma_ymd_lex_order(y1, m1, d1, y2, m2, d2);
    } else if y2 < y1 || (y2 == y1 && m2 < m1) || (y2 == y1 && m2 == m1 && d2 < d1) {
        lemma_ymd_lex_order(y2, m2, d2, y1, m1, d1);
    }
}

/// Whether a year is a leap year.
pub fn is_leap_year_x(y: u32) -> (r: bool)
    ensures
        r == is_leap_year(y as int),
{
    (y % 4 == 0 && y % 100 != 0) || y % 400 == 0
}

/// Days in the given year.
pub fn days_in_year_x(y: u32) -> (r: u32)
    ensures
        r == days_in_year(y as int),
{
    if is_leap_year_x(y) {
        366
    } else {
        365
    }
}

/// Days in the given month.
pub fn days_in_month_x(y: u32, m: u32) -> (r: u32)
    ensures
        r == days_in_month(y as int, m as int),
{
    if m == 2 {
        if is_leap_year_x(y) {
            29
        } else {
            28
        }
    } else if m == 4 || m == 6 || m == 9 || m == 11 {
        30
    } else {
        31
    }
}

/// Days from 1970-01-01 to the first day of year `y`.
pub fn days_before_year_x(y: u32) -> (r: u32)
    requires
        1970 <= y <= 10000,
    ensures
        r == days_before_year(y as int),
{
    let mut acc: u32 = 0;
    let mut yy: u32 = 1970;
    while yy < y
        invariant
            1970 <= yy <= y <= 10000,
            acc == days_before_year(yy as int),
        decreases y - yy,
    {
        proof {
            lemma_days_before_year_mono(1970, yy as int);
            lemma_days_before_year_mono(yy as int, yy as int + 1);
        }
        acc = acc + days_in_year_x(yy);
        yy = yy + 1;
    }
    acc
}

/// Days from the first of the year to the first day of month `m`.
pub fn days_before_month_x(y: u32, m: u32) -> (r: u32)
    requires
        1 <= m <= 13,
    ensures
        r == days_before_month(y as int, m as int),
{
    let mut acc: u32 = 0;
    let mut mm: u32 = 1;
    while mm < m
        invariant
            1 <= mm <= m <= 13,
            acc == days_before_month(y as int, mm as int),
            acc <= 31 * (mm - 1),
        decreases m - mm,
    {
        acc = acc + days_in_month_x(y, mm);
        mm = mm + 1;
    }
    acc
}

/// Days since 1970-01-01 of a calendar date.
pub fn ymd_to_days(y: u32, m: u32, d: u32) -> (r: u32)
    requires
        valid_ymd(y as int, m as int, d as int),
    ensures
        r == days_of_ymd(y as int, m as int, d as int),
        r < days_before_year(10000),
{
    proof {
        lemma_days_before_year_mono(1970, y as int);
        lemma_days_before_year_mono(1970, 10000);
        lemma_days_of_ymd_bounds(y as int, m as int, d as int);
        lemma_days_before_year_mono(y as int + 1, 10000);
    }
    let by = days_before_year_x(y);
    let bm = days_before_month_x(y, m);
    by + bm + (d - 1)
}

/// Calendar date of a day count since 1970-01-01.
pub fn days_to_ymd(days: u32) -> (r: (u32, u32, u32))
    requires
        days < days_before_year(10000),
    ensures
        valid_ymd(r.0 as int, r.1 as int, r.2 as int),
        days_of_ymd(r.0 as int, r.1 as int, r.2 as int) == days,
{
    let mut y: u32 = 1970;
    let mut rem: u32 = days;
    proof {
        lemma_days_before_year_mono(1970, 10000);
    }
    while rem >= days_in_year_x(y)
        invariant
            1970 <= y <= 9999,
            days == days_before_year(y as int) + rem,
            days < days_before_year(10000),
        decreases rem,
    {
        let len = days_in_year_x(y);
        proof {
            lemma_days_before_year_mono(y as int + 1, 10000);
            if y as int + 1 > 9999 {
                assert(days_before_year(y as int) + days_in_year(y as int) == days_before_year(
                    10000,
                ));
            }
        }
        rem = rem - len;
        y = y + 1;
    }
    let mut m: u32 = 1;
    proof {
        lemma_year_days(y as int);
    }
    while rem >= days_in_month_x(y, m)
        invariant
            1 <= m <= 12,
            1970 <= y <= 9999,
            days == days_before_year(y as int) + days_before_month(y as int, m as int) + rem,
            days_before_month(y as int, m as int) + rem < days_in_year(y as int),
        decreases 12 - m,
    {
        let len = days_in_month_x(y, m);
        proof {
            lemma_year_days(y as int);
            if m as int + 1 > 12 {
                assert(days_before_month(y as int, 13) == days_in_year(y as int));
            }
        }
        rem = rem - len;
        m = m + 1;
    }
    (y, m, rem + 1)
}

} // verus!

// --- date arguments ----------------------------------------------------

verus! {

/// The date a `YYYY-MM-DD` argument names, if it is one.
pub open spec fn spec_date_from_str(s: Seq<char>) -> Option<crate::icaltime::IcalTime> {
    if s.len() == 10 && s[4] == '-' && s[7] == '-' {
        let y = crate::digits::dec_val(s.subrange(0, 4));
        let m = crate::digits::dec_val(s.subrange(5, 7));
        let d = crate::digits::dec_val(s.subrange(8, 10));
        if crate::digits::all_digits(s.subrange(0, 4)) && crate::digits::all_digits(
            s.subrange(5, 7),
        ) && crate::digits::all_digits(s.subrange(8, 10)) && valid_ymd(y, m, d) {
            Some(
                crate::icaltime::IcalTime {
                    year: y as u32,
                    month: m as u32,
                    day: d as u32,
                    hour: 0,
                    minute: 0,
                    second: 0,
                    is_date: true,
                },
            )
        } else {
            None
        }
    } else {
        None
    }
}

/// Reads a `YYYY-MM-DD` date argument.
#[verifier::loop_isolation(false)]
pub fn date_from_str(s: &str) -> (r: Option<crate::icaltime::IcalTime>)
    ensures
        r == spec_date_from_str(s@),
        r is Some ==> r->0.wf() && r->0.is_date,
{
    let n = s.unicode_len();
    if n != 10 {
        return None;
    }
    if s.get_char(4) != '-' || s.get_char(7) != '-' {
        return None;
    }
    let y = match crate::digits::parse_dec_range(s, 0, 4) {
        Some(v) => v,
        None => {
            proof {
                lemma_short_digits(s@, 0, 4);
            }
            return None;
        },
    };
    let m = match crate::digits::parse_dec_range(s, 5, 7) {
        Some(v) => v,
        None => {
            proof {
                lemma_short_digits(s@, 5, 7);
            }
            return None;
        },
    };
    let d = match crate::digits::parse_dec_range(s, 8, 10) {
        Some(v) => v,
        None => {
            proof {
                lemma_short_digits(s@, 8, 10);
            }
            return None;
        },
    };
    if !(1970 <= y && y <= 9999 && 1 <= m && m <= 12 && 1 <= d) {
        return None;
    }
    let dim = days_in_month_x(y as u32, m as u32);
    if d > dim as u64 {
        return None;
    }
    Some(
        crate::icaltime::IcalTime {
            year: y as u32,
            month: m as u32,
            day: d as u32,
            hour: 0,
            minute: 0,
            second: 0,
            is_date: true,
        },
    )
}

/// A short range failing the digit read is not all digits.
proof fn lemma_short_digits(s: Seq<char>, a: int, b: int)
    requires
        0 <= a <= b <= s.len(),
        b - a <= 8,
        !crate::digits::all_digits(s.subrange(a, b)) || crate::digits::dec_val(s.subrange(a, b))
            > u64::MAX,
    ensures
        !crate::digits::all_digits(s.subrange(a, b)),
{
    if crate::digits::all_digits(s.subrange(a, b)) {
        crate::digits::lemma_dec_val_upper(s.subrange(a, b));
        lemma_pow10_small(s.subrange(a, b).len());
        assert(false);
    }
}

proof fn lemma_pow10_small(k: nat)
    requires
        k <= 8,
    ensures
        crate::digits::pow10(k) <= 100000000,
{
    reveal_with_fuel(crate::digits::pow10, 9);
    if k == 0 {
    } else if k == 1 {
    } else if k == 2 {
    } else if k == 3 {
    } else if k == 4 {
    } else if k == 5 {
    } else if k == 6 {
    } else if k == 7 {
    } else {
        assert(k == 8);
    }
}

/// The first day (since the epoch) of the given year's numbered week:
/// weeks run Monday through Sunday, and the first week is the one
/// holding the fourth day of January.
pub open spec fn week_start_day(y: int, n: int) -> int {
    let jan4 = days_of_ymd(y, 1, 4);
    jan4 - ((jan4 + 3) % 7) + 7 * (n - 1)
}

/// The week a `YYYY-Wnn` argument names, if it is one.
pub open spec fn spec_week_from_str(s: Seq<char>) -> Option<(int, int)> {
    if s.len() == 8 && s[4] == '-' && s[5] == 'W' {
        let y = crate::digits::dec_val(s.subrange(0, 4));
        let n = crate::digits::dec_val(s.subrange(6, 8));
        if crate::digits::all_digits(s.subrange(0, 4)) && crate::digits::all_digits(
            s.subrange(6, 8),
        ) && 1970 <= y <= 9999 && 1 <= n <= 53 {
            Some((y, n))
        } else {
            None
        }
    } else {
        None
    }
}

/// Reads a `YYYY-Wnn` week argument and gives the week's first day,
/// when that day lies in the modelled years.
#[verifier::loop_isolation(false)]
pub fn week_from_str_begin(s: &str) -> (r: Option<crate::icaltime::IcalTime>)
    ensures
        match spec_week_from_str(s@) {
            Some((y, n)) => {
                let day = week_start_day(y, n);
                if 0 <= day < days_before_year(10000) {
                    r is Some && r->0.wf() && r->0.is_date && days_of_ymd(
                        r->0.year as int,
                        r->0.month as int,
                        r->0.day as int,
                    ) == day
                } else {
                    r is None
                }
            },
            None => r is None,
        },
{
    week_from_str_offset(s, 0)
}

/// Reads a `YYYY-Wnn` week argument and gives the week's last day,
/// when that day lies in the modelled years.
#[verifier::loop_isolation(false)]
pub fn week_from_str_end(s: &str) -> (r: Option<crate::icaltime::IcalTime>)
    ensures
        match spec_week_from_str(s@) {
            Some((y, n)) => {
                let day = week_start_day(y, n) + 6;
                if 0 <= day < days_before_year(10000) {
                    r is Some && r->0.wf() && r->0.is_date && days_of_ymd(
                        r->0.year as int,
                        r->0.month as int,
                        r->0.day as int,
                    ) == day
                } else {
                    r is None
                }
            },
            None => r is None,
        },
{
    week_from_str_offset(s, 6)
}

/// The shared week-argument reader.
#[verifier::loop_isolation(false)]
fn week_from_str_offset(s: &str, off: u32) -> (r: Option<crate::icaltime::IcalTime>)
    requires
        off <= 6,
    ensures
        match spec_week_from_str(s@) {
            Some((y, n)) => {
                let day = week_start_day(y, n) + off;
                if 0 <= day < days_before_year(10000) {
                    r is Some && r->0.wf() && r->0.is_date && days_of_ymd(
                        r->0.year as int,
                        r->0.month as int,
                        r->0.day as int,
                    ) == day
                } else {
                    r is None
                }
            },
            None => r is None,
        },
{
    let n = s.unicode_len();
    if n != 8 {
        return None;
    }
    if s.get_char(4) != '-' || s.get_char(5) != 'W' {
        return None;
    }
    let y = match crate::digits::parse_dec_range(s, 0, 4) {
        Some(v) => v,
        None => {
            proof {
                lemma_short_digits(s@, 0, 4);
            }
            return None;
        },
    };
    let wn = match crate::digits::parse_dec_range(s, 6, 8) {
        Some(v) => v,
        None => {
            proof {
                lemma_short_digits(s@, 6, 8);
            }
            return None;
        },
    };
    if !(1970 <= y && y <= 9999 && 1 <= wn && wn <= 53) {
        return None;
    }
    proof {
        lemma_days_before_year_mono(1970, 10000);
    }
    let jan4 = ymd_to_days(y as u32, 1, 4);
    let wd = (jan4 + 3) % 7;
    let monday = jan4 + 7 * ((wn - 1) as u32);
    if monday + off < wd {
        return None;
    }
    let day = monday + off - wd;
    let limit = days_before_year_x(10000);
    if day >= limit {
        return None;
    }
    let (yy, mm, dd) = days_to_ymd(day);
    Some(
        crate::icaltime::IcalTime {
            year: yy,
            month: mm,
            day: dd,
            hour: 0,
            minute: 0,
            second: 0,
            is_date: true,
        },
    )
}

} // verus!
