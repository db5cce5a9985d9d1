use vstd::prelude::*;

use crate::dateutil::{
    days_before_month, days_before_year, days_in_year, days_of_ymd, days_to_ymd,
    lemma_days_before_year_mono, lemma_days_before_month_mono, lemma_days_of_ymd_bounds,
    lemma_year_days, lemma_ymd_unique, valid_ymd, ymd_to_days,
    days_in_month_x, SECS_PER_DAY,
};
use crate::digits::{
    all_digits, dec_padded, dec_val, is_digit, lemma_dec_padded_len, lemma_dec_padded_value,
    lemma_dec_val_nonneg, lemma_dec_val_upper, parse_dec_range, pow10, u64_to_dec_pad,
};

verus! {

/// Exclusive upper bound on the timestamps this library models:
/// the first instant of the year 10000.
pub open spec fn ts_limit() -> int {
    days_before_year(10000) * 86400
}

/// A civil date or date-time, kept in Coordinated Universal Time.
/// `is_date` marks a date-only value (an all-day start or end).
#[derive(Clone, Copy, Debug, PartialEq, Eq, Structural)]
pub struct IcalTime {
    pub year: u32,
    pub month: u32,
    pub day: u32,
    pub hour: u32,
    pub minute: u32,
    pub second: u32,
    pub is_date: bool,
}

impl IcalTime {
    /// A real calendar date in range, with a real time of day;
    /// date-only values carry a zero time of day.
    pub open spec fn wf(self) -> bool {
        &&& valid_ymd(self.year as int, self.month as int, self.day as int)
        &&& self.hour <= 23
        &&& self.minute <= 59
        &&& self.second <= 59
        &&& self.is_date ==> self.hour == 0 && self.minute == 0 && self.second == 0
    }

    /// Seconds since 1970-01-01T00:00:00.
    pub open spec fn timestamp(self) -> int {
        days_of_ymd(self.year as int, self.month as int, self.day as int) * 86400
            + self.hour as int * 3600 + self.minute as int * 60 + self.second as int
    }

    /// A date-only value.
    pub fn floating_date(year: u32, month: u32, day: u32) -> (r: IcalTime)
        requires
            valid_ymd(year as int, month as int, day as int),
        ensures
            r.wf(),
            r.is_date,
            r.year == year && r.month == month && r.day == day,
    {
        IcalTime { year, month, day, hour: 0, minute: 0, second: 0, is_date: true }
    }

    /// A date-time value.
    pub fn floating_ymd_hms(year: u32, month: u32, day: u32, hour: u32, minute: u32, second: u32)
        -> (r: IcalTime)
        requires
            valid_ymd(year as int, month as int, day as int),
            hour <= 23,
            minute <= 59,
            second <= 59,
        ensures
            r.wf(),
            !r.is_date,
            r.year == year && r.month == month && r.day == day,
            r.hour == hour && r.minute == minute && r.second == second,
    {
        IcalTime { year, month, day, hour, minute, second, is_date: false }
    }

    /// Seconds since 1970-01-01T00:00:00.
    pub fn get_timestamp(&self) -> (r: u64)
        requires
            self.wf(),
        ensures
            r == self.timestamp(),
            r < ts_limit(),
    {
        proof {
            lemma_days_of_ymd_bounds(self.year as int, self.month as int, self.day as int);
            lemma_days_before_year_mono(1970, self.year as int);
            lemma_days_before_year_mono(self.year as int + 1, 10000);
        }
        let days = ymd_to_days(self.year, self.month, self.day);
        days as u64 * SECS_PER_DAY + self.hour as u64 * 3600 + self.minute as u64 * 60
            + self.second as u64
    }

    /// The date-time of a timestamp.
    pub fn from_timestamp(ts: u64) -> (r: IcalTime)
        requires
            ts < ts_limit(),
        ensures
            r.wf(),
            !r.is_date,
            r.timestamp() == ts,
    {
        proof {
            lemma_days_before_year_mono(1970, 10000);
        }
        let days = (ts / SECS_PER_DAY) as u32;
        let tod = (ts % SECS_PER_DAY) as u32;
        let (year, month, day) = days_to_ymd(days);
        let hour = tod / 3600;
        let minute = (tod % 3600) / 60;
        let second = tod % 60;
        let r = IcalTime { year, month, day, hour, minute, second, is_date: false };
        proof {
            assert(ts == days * 86400 + tod);
            assert(tod == hour * 3600 + minute * 60 + second);
        }
        r
    }

    /// The same instant reinterpreted as a date-only value: the time of
    /// day is dropped.
    pub fn to_date(&self) -> (r: IcalTime)
        requires
            self.wf(),
        ensures
            r.wf(),
            r.is_date,
            r.year == self.year && r.month == self.month && r.day == self.day,
    {
        IcalTime {
            year: self.year,
            month: self.month,
            day: self.day,
            hour: 0,
            minute: 0,
            second: 0,
            is_date: true,
        }
    }

    /// The previous calendar day, with the time of day kept.
    pub fn pred(&self) -> (r: IcalTime)
        requires
            self.wf(),
            !(self.year == 1970 && self.month == 1 && self.day == 1),
        ensures
            r.wf(),
            r.is_date == self.is_date,
            r.hour == self.hour && r.minute == self.minute && r.second == self.second,
            days_of_ymd(r.year as int, r.month as int, r.day as int) == days_of_ymd(
                self.year as int,
                self.month as int,
                self.day as int,
            ) - 1,
    {
        let (year, month, day) = if self.day > 1 {
            (self.year, self.month, self.day - 1)
        } else if self.month > 1 {
            proof {
                lemma_days_before_month_mono(self.year as int, self.month as int - 1,
                    self.month as int);
            }
            (self.year, self.month - 1, days_in_month_x(self.year, self.month - 1))
        } else {
            proof {
                lemma_year_days(self.year as int - 1);
                assert(days_before_month(self.year as int - 1, 12) + 31 == days_in_year(
                    self.year as int - 1,
                ));
            }
            (self.year - 1, 12, 31)
        };
        IcalTime {
            year,
            month,
            day,
            hour: self.hour,
            minute: self.minute,
            second: self.second,
            is_date: self.is_date,
        }
    }

    /// Order on the underlying instants.
    pub fn le(&self, other: &IcalTime) -> (r: bool)
        requires
            self.wf(),
            other.wf(),
        ensures
            r == (self.timestamp() <= other.timestamp()),
    {
        let a = self.get_timestamp();
        let b = other.get_timestamp();
        a <= b
    }

    /// Order on the calendar dates, the time of day disregarded.
    pub fn date_le(&self, other: &IcalTime) -> (r: bool)
        requires
            self.wf(),
            other.wf(),
        ensures
            r == (days_of_ymd(self.year as int, self.month as int, self.day as int) <= days_of_ymd(
                other.year as int,
                other.month as int,
                other.day as int,
            )),
    {
        let a = ymd_to_days(self.year, self.month, self.day);
        let b = ymd_to_days(other.year, other.month, other.day);
        a <= b
    }
}

/// Distinct well-formed instants have distinct timestamps only when their
/// fields differ; the timestamp determines the civil fields.
pub proof fn lemma_timestamp_injective(a: IcalTime, b: IcalTime)
    requires
        a.wf(),
        b.wf(),
        a.timestamp() == b.timestamp(),
    ensures
        a.year == b.year && a.month == b.month && a.day == b.day,
        a.hour == b.hour && a.minute == b.minute && a.second == b.second,
{
    let da = days_of_ymd(a.year as int, a.month as int, a.day as int);
    let db = days_of_ymd(b.year as int, b.month as int, b.day as int);
    let ta = a.hour as int * 3600 + a.minute as int * 60 + a.second as int;
    let tb = b.hour as int * 3600 + b.minute as int * 60 + b.second as int;
    assert(0 <= ta < 86400);
    assert(0 <= tb < 86400);
    assert(da * 86400 + ta == db * 86400 + tb);
    if da < db {
        assert(da * 86400 + 86400 <= db * 86400) by (nonlinear_arith)
            requires da < db;
    } else if db < da {
        assert(db * 86400 + 86400 <= da * 86400) by (nonlinear_arith)
            requires db < da;
    }
    assert(da == db);
    lemma_ymd_unique(a.year as int, a.month as int, a.day as int, b.year as int, b.month as int,
        b.day as int);
    assert(ta == tb);
    if a.hour != b.hour {
        assert(false);
    }
}

/// The wire text of a date or date-time value.
pub open spec fn render_time(t: IcalTime) -> Seq<char> {
    let date_part = dec_padded(t.year as nat, 4) + dec_padded(t.month as nat, 2) + dec_padded(
        t.day as nat,
        2,
    );
    if t.is_date {
        date_part
    } else {
        date_part + seq!['T'] + dec_padded(t.hour as nat, 2) + dec_padded(t.minute as nat, 2)
            + dec_padded(t.second as nat, 2) + seq!['Z']
    }
}

/// The value a wire date or date-time text denotes, if any:
/// eight digits form a date, and a date followed by `T`, six digits and
/// an optional `Z` forms a date-time.
pub open spec fn spec_parse_time(s: Seq<char>) -> Option<IcalTime> {
    if s.len() == 8 {
        let y = dec_val(s.subrange(0, 4));
        let m = dec_val(s.subrange(4, 6));
        let d = dec_val(s.subrange(6, 8));
        if all_digits(s.subrange(0, 8)) && valid_ymd(y, m, d) {
            Some(
                IcalTime {
                    year: y as u32,
                    month: m as u32,
                    day: d as u32,
                    hour: 0,
                    minute: 0,
                    second: 0,
                    is_date: true,
                },
            )
        } else {
            None
        }
    } else if s.len() == 15 || s.len() == 16 {
        let y = dec_val(s.subrange(0, 4));
        let m = dec_val(s.subrange(4, 6));
        let d = dec_val(s.subrange(6, 8));
        let hh = dec_val(s.subrange(9, 11));
        let mi = dec_val(s.subrange(11, 13));
        let ss = dec_val(s.subrange(13, 15));
        if all_digits(s.subrange(0, 8)) && s[8] == 'T' && all_digits(s.subrange(9, 15)) && (s.len()
            == 15 || s[15] == 'Z') && valid_ymd(y, m, d) && hh <= 23 && mi <= 59 && ss <= 59 {
            Some(
                IcalTime {
                    year: y as u32,
                    month: m as u32,
                    day: d as u32,
                    hour: hh as u32,
                    minute: mi as u32,
                    second: ss as u32,
                    is_date: false,
                },
            )
        } else {
            None
        }
    } else {
        None
    }
}

impl IcalTime {
    /// Writes the value in its wire form.
    pub fn format(&self) -> (r: String)
        requires
            self.wf(),
        ensures
            r@ == render_time(*self),
    {
        let mut s = u64_to_dec_pad(self.year as u64, 4);
        let m = u64_to_dec_pad(self.month as u64, 2);
        let d = u64_to_dec_pad(self.day as u64, 2);
        s.append(m.as_str());
        s.append(d.as_str());
        if self.is_date {
            proof {
                assert(s@ =~= render_time(*self));
            }
            return s;
        }
        proof {
            reveal_strlit("T");
            reveal_strlit("Z");
        }
        s.append("T");
        let hh = u64_to_dec_pad(self.hour as u64, 2);
        let mi = u64_to_dec_pad(self.minute as u64, 2);
        let ss = u64_to_dec_pad(self.second as u64, 2);
        s.append(hh.as_str());
        s.append(mi.as_str());
        s.append(ss.as_str());
        s.append("Z");
        proof {
            assert(("T")@ =~= seq!['T']);
            assert(("Z")@ =~= seq!['Z']);
            assert(s@ =~= render_time(*self));
        }
        s
    }

    /// Reads a wire date or date-time value.
    pub fn parse(s: &str) -> (r: Option<IcalTime>)
        ensures
            r == spec_parse_time(s@),
            r is Some ==> r->0.wf(),
    {
        let n = s.unicode_len();
        if n != 8 && n != 15 && n != 16 {
            return None;
        }
        let y = match parse_dec_range(s, 0, 4) {
            Some(v) => v,
            None => {
                proof {
                    lemma_no_digits_whole(s@, 0, 4);
                }
                return None;
            },
        };
        let m = match parse_dec_range(s, 4, 6) {
            Some(v) => v,
            None => {
                proof {
                    lemma_no_digits_whole(s@, 4, 6);
                }
                return None;
            },
        };
        let d = match parse_dec_range(s, 6, 8) {
            Some(v) => v,
            None => {
                proof {
                    lemma_no_digits_whole(s@, 6, 8);
                }
                return None;
            },
        };
        proof {
            lemma_digits_join(s@, 0, 4, 6);
            lemma_digits_join(s@, 0, 6, 8);
        }
        if !(1970 <= y && y <= 9999 && 1 <= m && m <= 12 && 1 <= d) {
            return None;
        }
        let dim = days_in_month_x(y as u32, m as u32);
        if d > dim as u64 {
            return None;
        }
        if n == 8 {
            return Some(IcalTime {
                year: y as u32,
                month: m as u32,
                day: d as u32,
                hour: 0,
                minute: 0,
                second: 0,
                is_date: true,
            });
        }
        let tsep = s.get_char(8);
        if tsep != 'T' {
            return None;
        }
        if n == 16 {
            let zc = s.get_char(15);
            if zc != 'Z' {
                return None;
            }
        }
        let hh = match parse_dec_range(s, 9, 11) {
            Some(v) => v,
            None => {
                proof {
                    lemma_no_digits_whole(s@, 9, 11);
                }
                return None;
            },
        };
        let mi = match parse_dec_range(s, 11, 13) {
            Some(v) => v,
            None => {
                proof {
                    lemma_no_digits_whole(s@, 11, 13);
                }
                return None;
            },
        };
        let ss = match parse_dec_range(s, 13, 15) {
            Some(v) => v,
            None => {
                proof {
                    lemma_no_digits_whole(s@, 13, 15);
                }
                return None;
            },
        };
        proof {
            lemma_digits_join(s@, 9, 11, 13);
            lemma_digits_join(s@, 9, 13, 15);
        }
        if hh > 23 || mi > 59 || ss > 59 {
            return None;
        }
        Some(IcalTime {
            year: y as u32,
            month: m as u32,
            day: d as u32,
            hour: hh as u32,
            minute: mi as u32,
            second: ss as u32,
            is_date: false,
        })
    }
}

/// If a short range is not all digits, neither is any range around it.
proof fn lemma_no_digits_whole(s: Seq<char>, a: int, b: int)
    requires
        0 <= a <= b <= s.len(),
        !all_digits(s.subrange(a, b)) || dec_val(s.subrange(a, b)) > u64::MAX,
        b - a <= 8,
    ensures
        forall|lo: int, hi: int|
            0 <= lo <= a && b <= hi <= s.len() ==> !all_digits(s.subrange(lo, hi)),
{
    if all_digits(s.subrange(a, b)) {
        lemma_dec_val_upper(s.subrange(a, b));
        lemma_pow10_le(s.subrange(a, b).len(), 8);
        assert(pow10(8) == 100000000) by {
            reveal_with_fuel(pow10, 9);
        }
        assert(false);
    }
    assert forall|lo: int, hi: int|
        0 <= lo <= a && b <= hi <= s.len() implies !all_digits(s.subrange(lo, hi)) by {
        let k = choose|k: int| 0 <= k < b - a && !is_digit(s.subrange(a, b)[k]);
        assert(s.subrange(lo, hi)[a - lo + k] == s.subrange(a, b)[k]);
    }
}

/// Two adjacent all-digit ranges join into one.
proof fn lemma_digits_join(s: Seq<char>, a: int, b: int, c: int)
    requires
        0 <= a <= b <= c <= s.len(),
        all_digits(s.subrange(a, b)),
        all_digits(s.subrange(b, c)),
    ensures
        all_digits(s.subrange(a, c)),
{
    assert forall|i: int| 0 <= i < c - a implies is_digit(s.subrange(a, c)[i]) by {
        if i < b - a {
            assert(s.subrange(a, b)[i] == s.subrange(a, c)[i]);
        } else {
            assert(s.subrange(b, c)[i - (b - a)] == s.subrange(a, c)[i]);
        }
    }
}

proof fn lemma_pow10_le(a: nat, b: nat)
    requires
        a <= b,
    ensures
        pow10(a) <= pow10(b),
        pow10(a) >= 1,
    decreases b,
{
    if a < b {
        lemma_pow10_le(a, (b - 1) as nat);
    } else if b > 0 {
        lemma_pow10_le((a - 1) as nat, (b - 1) as nat);
    }
}

/// A well-formed value's timestamp lies below the modelled limit.
pub proof fn lemma_timestamp_bound(t: IcalTime)
    requires
        t.wf(),
    ensures
        0 <= t.timestamp() < ts_limit(),
{
    lemma_days_of_ymd_bounds(t.year as int, t.month as int, t.day as int);
    lemma_days_before_year_mono(1970, t.year as int);
    lemma_days_before_year_mono(t.year as int + 1, 10000);
    let days = days_of_ymd(t.year as int, t.month as int, t.day as int);
    assert(days * 86400 <= (days_before_year(10000) - 1) * 86400) by (nonlinear_arith)
        requires days <= days_before_year(10000) - 1, days >= 0;
    assert(days * 86400 >= 0) by (nonlinear_arith)
        requires days >= 0;
}

/// A successfully read value is well formed.
pub proof fn lemma_spec_parse_time_wf(s: Seq<char>)
    ensures
        match spec_parse_time(s) {
            Some(t) => t.wf(),
            None => true,
        },
{
    if s.len() == 8 {
    } else if s.len() == 15 || s.len() == 16 {
        let whole = s.subrange(9, 15);
        if all_digits(whole) {
            let hsub = s.subrange(9, 11);
            let msub = s.subrange(11, 13);
            let ssub = s.subrange(13, 15);
            assert(all_digits(hsub)) by {
                assert(forall|j: int| 0 <= j < 2 ==> hsub[j] == whole[j]);
            }
            assert(all_digits(msub)) by {
                assert(forall|j: int| 0 <= j < 2 ==> msub[j] == whole[j + 2]);
            }
            assert(all_digits(ssub)) by {
                assert(forall|j: int| 0 <= j < 2 ==> ssub[j] == whole[j + 4]);
            }
            lemma_dec_val_nonneg(hsub);
            lemma_dec_val_nonneg(msub);
            lemma_dec_val_nonneg(ssub);
        }
    }
}

/// Formatting then reading a well-formed value gives it back.
pub proof fn lemma_time_round_trip(t: IcalTime)
    requires
        t.wf(),
    ensures
        spec_parse_time(render_time(t)) == Some(t),
{
    let s = render_time(t);
    let py = dec_padded(t.year as nat, 4);
    let pm = dec_padded(t.month as nat, 2);
    let pd = dec_padded(t.day as nat, 2);
    assert(pow10(4) == 10000 && pow10(2) == 100) by {
        reveal_with_fuel(pow10, 5);
    }
    lemma_dec_padded_len(t.year as nat, 4);
    lemma_dec_padded_len(t.month as nat, 2);
    lemma_dec_padded_len(t.day as nat, 2);
    lemma_dec_padded_value(t.year as nat, 4);
    lemma_dec_padded_value(t.month as nat, 2);
    lemma_dec_padded_value(t.day as nat, 2);
    assert(s.subrange(0, 4) =~= py);
    assert(s.subrange(4, 6) =~= pm);
    assert(s.subrange(6, 8) =~= pd);
    lemma_digits_join(s, 0, 4, 6);
    lemma_digits_join(s, 0, 6, 8);
    if t.is_date {
        assert(s.len() == 8);
    } else {
        let ph = dec_padded(t.hour as nat, 2);
        let pi = dec_padded(t.minute as nat, 2);
        let ps = dec_padded(t.second as nat, 2);
        lemma_dec_padded_len(t.hour as nat, 2);
        lemma_dec_padded_len(t.minute as nat, 2);
        lemma_dec_padded_len(t.second as nat, 2);
        lemma_dec_padded_value(t.hour as nat, 2);
        lemma_dec_padded_value(t.minute as nat, 2);
        lemma_dec_padded_value(t.second as nat, 2);
        assert(s.len() == 16);
        assert(s[8] == 'T');
        assert(s[15] == 'Z');
        assert(s.subrange(9, 11) =~= ph);
        assert(s.subrange(11, 13) =~= pi);
        assert(s.subrange(13, 15) =~= ps);
        lemma_digits_join(s, 9, 11, 13);
        lemma_digits_join(s, 9, 13, 15);
    }
}

/// The wire text of a well-formed value holds no line break and no
/// carriage return, and no backslash either.
pub proof fn lemma_render_time_clean(t: IcalTime)
    requires
        t.wf(),
    ensures
        !render_time(t).contains('\r'),
        !render_time(t).contains('\n'),
        !render_time(t).contains('\\'),
{
    let s = render_time(t);
    lemma_dec_padded_value(t.year as nat, 4);
    lemma_dec_padded_value(t.month as nat, 2);
    lemma_dec_padded_value(t.day as nat, 2);
    lemma_dec_padded_value(t.hour as nat, 2);
    lemma_dec_padded_value(t.minute as nat, 2);
    lemma_dec_padded_value(t.second as nat, 2);
    assert forall|i: int| 0 <= i < s.len() implies s[i] != '\r' && s[i] != '\n' && s[i]
        != '\\' by {
        lemma_render_time_char(t, i);
    }
    if s.contains('\r') {
        let i = choose|i: int| 0 <= i < s.len() && s[i] == '\r';
    }
    if s.contains('\n') {
        let i = choose|i: int| 0 <= i < s.len() && s[i] == '\n';
    }
    if s.contains('\\') {
        let i = choose|i: int| 0 <= i < s.len() && s[i] == '\\';
    }
}

/// Each character of a rendered value is a digit or a letter marker.
proof fn lemma_render_time_char(t: IcalTime, i: int)
    requires
        t.wf(),
        0 <= i < render_time(t).len(),
    ensures
        is_digit(render_time(t)[i]) || render_time(t)[i] == 'T' || render_time(t)[i] == 'Z',
{
    let s = render_time(t);
    let py = dec_padded(t.year as nat, 4);
    let pm = dec_padded(t.month as nat, 2);
    let pd = dec_padded(t.day as nat, 2);
    lemma_dec_padded_value(t.year as nat, 4);
    lemma_dec_padded_value(t.month as nat, 2);
    lemma_dec_padded_value(t.day as nat, 2);
    let date_part = py + pm + pd;
    if i < date_part.len() {
        if i < py.len() {
            assert(s[i] == py[i]);
        } else if i < py.len() + pm.len() {
            assert(s[i] == pm[i - py.len()]);
        } else {
            assert(s[i] == pd[i - py.len() - pm.len()]);
        }
    } else {
        let ph = dec_padded(t.hour as nat, 2);
        let pi = dec_padded(t.minute as nat, 2);
        let ps = dec_padded(t.second as nat, 2);
        lemma_dec_padded_value(t.hour as nat, 2);
        lemma_dec_padded_value(t.minute as nat, 2);
        lemma_dec_padded_value(t.second as nat, 2);
        let j = i - date_part.len();
        if j == 0 {
            assert(s[i] == 'T');
        } else if j < 1 + ph.len() {
            assert(s[i] == ph[j - 1]);
        } else if j < 1 + ph.len() + pi.len() {
            assert(s[i] == pi[j - 1 - ph.len()]);
        } else if j < 1 + ph.len() + pi.len() + ps.len() {
            assert(s[i] == ps[j - 1 - ph.len() - pi.len()]);
        } else {
            assert(s[i] == 'Z');
        }
    }
}


} // verus!
