use vstd::prelude::*;

use crate::dateutil::{
    days_before_year, days_in_month, days_of_ymd, lemma_days_before_year_mono,
    lemma_days_before_month_mono, valid_ymd,
    days_in_month_x, days_before_month, ymd_to_days, SECS_PER_DAY,
};
use crate::digits::{all_digits, dec_val, parse_dec_range};
use crate::icaltime::{spec_parse_time, ts_limit, IcalTime};
use crate::strutil::{push_char, str_eq};

verus! {

// The recurrence engine: the rule grammar this library evaluates
// (frequency, interval, count and end bound) and the bounded expansion
// of a master event into its occurrence start times.

/// How often a rule repeats.
#[derive(Clone, Copy, Debug, PartialEq, Eq, Structural)]
pub enum Freq {
    Daily,
    Weekly,
    Monthly,
    Yearly,
}

/// A recurrence rule of the evaluated subset.
#[derive(Clone, Copy, Debug, PartialEq, Eq, Structural)]
pub struct RRule {
    pub freq: Freq,
    pub interval: u32,
    pub count: Option<u32>,
    pub until: Option<u64>,
}

impl RRule {
    pub open spec fn wf(self) -> bool {
        &&& self.interval >= 1
        &&& match self.until {
            Some(u) => u < ts_limit(),
            None => true,
        }
    }
}

/// The `;`-separated parts of a rule text.
pub open spec fn parts_of(s: Seq<char>) -> Seq<Seq<char>>
    decreases s.len(),
{
    if s.len() == 0 {
        seq![Seq::empty()]
    } else {
        let prev = parts_of(s.drop_last());
        if s.last() == ';' {
            prev.push(Seq::empty())
        } else {
            prev.update(prev.len() - 1, prev.last().push(s.last()))
        }
    }
}

pub proof fn lemma_parts_of_nonempty(s: Seq<char>)
    ensures
        parts_of(s).len() >= 1,
    decreases s.len(),
{
    if s.len() > 0 {
        lemma_parts_of_nonempty(s.drop_last());
    }
}

/// Splits a part at its first `=`, which is dropped.
pub open spec fn split_at_eq(s: Seq<char>) -> Option<(Seq<char>, Seq<char>)>
    decreases s.len(),
{
    if s.len() == 0 {
        None
    } else if s[0] == '=' {
        Some((Seq::empty(), s.drop_first()))
    } else {
        match split_at_eq(s.drop_first()) {
            None => None,
            Some((a, b)) => Some((seq![s[0]] + a, b)),
        }
    }
}

/// A partial rule while its parts are read: the frequency seen so far,
/// the interval, the count and the end bound.
pub open spec fn apply_part(
    st: Option<(Option<Freq>, u32, Option<u32>, Option<u64>)>,
    part: Seq<char>,
) -> Option<(Option<Freq>, u32, Option<u32>, Option<u64>)> {
    match st {
        None => None,
        Some((f, iv, c, u)) => match split_at_eq(part) {
            None => None,
            Some((k, v)) => {
                if k == "FREQ"@ {
                    if v == "DAILY"@ {
                        Some((Some(Freq::Daily), iv, c, u))
                    } else if v == "WEEKLY"@ {
                        Some((Some(Freq::Weekly), iv, c, u))
                    } else if v == "MONTHLY"@ {
                        Some((Some(Freq::Monthly), iv, c, u))
                    } else if v == "YEARLY"@ {
                        Some((Some(Freq::Yearly), iv, c, u))
                    } else {
                        None
                    }
                } else if k == "COUNT"@ {
                    if v.len() > 0 && all_digits(v) && dec_val(v) <= u32::MAX {
                        Some((f, iv, Some(dec_val(v) as u32), u))
                    } else {
                        None
                    }
                } else if k == "INTERVAL"@ {
                    if v.len() > 0 && all_digits(v) && 1 <= dec_val(v) <= u32::MAX {
                        Some((f, dec_val(v) as u32, c, u))
                    } else {
                        None
                    }
                } else if k == "UNTIL"@ {
                    match spec_parse_time(v) {
                        Some(t) => Some((f, iv, c, Some(t.timestamp() as u64))),
                        None => None,
                    }
                } else {
                    None
                }
            },
        },
    }
}

/// Reads the parts in order.
pub open spec fn run_parts(
    parts: Seq<Seq<char>>,
    st: Option<(Option<Freq>, u32, Option<u32>, Option<u64>)>,
) -> Option<(Option<Freq>, u32, Option<u32>, Option<u64>)>
    decreases parts.len(),
{
    if parts.len() == 0 {
        st
    } else {
        run_parts(parts.drop_first(), apply_part(st, parts[0]))
    }
}

/// The rule a text denotes, if it lies in the evaluated subset: parts
/// separated by `;`, each `FREQ`, `COUNT`, `INTERVAL` or `UNTIL` with
/// its value, and a frequency named somewhere.
pub open spec fn spec_parse_rrule(s: Seq<char>) -> Option<RRule> {
    match run_parts(parts_of(s), Some((None, 1u32, None, None))) {
        None => None,
        Some((f, iv, c, u)) => match f {
            Some(freq) => Some(RRule { freq, interval: iv, count: c, until: u }),
            None => None,
        },
    }
}

/// Reads a rule text of the evaluated subset.
#[verifier::loop_isolation(false)]
pub fn parse_rrule(s: &str) -> (r: Option<RRule>)
    ensures
        r == spec_parse_rrule(s@),
        r is Some ==> r->0.wf(),
{
    let parts = split_parts(s);
    let n = parts.len();
    let mut freq: Option<Freq> = None;
    let mut interval: u32 = 1;
    let mut count: Option<u32> = None;
    let mut until: Option<u64> = None;
    let ghost pm = parts@.map_values(|p: String| p@);
    let mut i: usize = 0;
    proof {
        assert(pm.subrange(0, pm.len() as int) =~= pm);
    }
    while i < n
        invariant
            0 <= i <= n,
            n == parts@.len(),
            run_parts(pm, Some((None, 1u32, None, None))) == run_parts(
                pm.subrange(i as int, pm.len() as int),
                Some((freq, interval, count, until)),
            ),
            interval >= 1,
            match until {
                Some(u) => u < ts_limit(),
                None => true,
            },
        decreases n - i,
    {
        let ghost rest = pm.subrange(i as int, pm.len() as int);
        let ghost st0 = Some((freq, interval, count, until));
        proof {
            assert(rest[0] == pm[i as int]);
            assert(rest.drop_first() =~= pm.subrange(i as int + 1, pm.len() as int));
            assert(run_parts(rest, st0) == run_parts(
                rest.drop_first(),
                apply_part(st0, rest[0]),
            ));
        }
        let part = &parts[i];
        let kv = split_at_eq_x(part.as_str());
        match kv {
            None => {
                proof {
                    lemma_run_parts_none(pm.subrange(i as int + 1, pm.len() as int));
                }
                return None;
            },
            Some((k, v)) => {
                if str_eq(k.as_str(), "FREQ") {
                    if str_eq(v.as_str(), "DAILY") {
                        freq = Some(Freq::Daily);
                    } else if str_eq(v.as_str(), "WEEKLY") {
                        freq = Some(Freq::Weekly);
                    } else if str_eq(v.as_str(), "MONTHLY") {
                        freq = Some(Freq::Monthly);
                    } else if str_eq(v.as_str(), "YEARLY") {
                        freq = Some(Freq::Yearly);
                    } else {
                        proof {
                            lemma_run_parts_none(pm.subrange(i as int + 1, pm.len() as int));
                        }
                        return None;
                    }
                } else if str_eq(k.as_str(), "COUNT") {
                    let vlen = v.as_str().unicode_len();
                    match parse_dec_range(v.as_str(), 0, vlen) {
                        Some(cv) if cv <= u32::MAX as u64 => {
                            count = Some(cv as u32);
                            proof {
                                assert(v@.subrange(0, v@.len() as int) =~= v@);
                            }
                        },
                        _ => {
                            proof {
                                assert(v@.subrange(0, v@.len() as int) =~= v@);
                                lemma_run_parts_none(
                                    pm.subrange(i as int + 1, pm.len() as int),
                                );
                            }
                            return None;
                        },
                    }
                } else if str_eq(k.as_str(), "INTERVAL") {
                    let vlen = v.as_str().unicode_len();
                    match parse_dec_range(v.as_str(), 0, vlen) {
                        Some(cv) if 1 <= cv && cv <= u32::MAX as u64 => {
                            interval = cv as u32;
                            proof {
                                assert(v@.subrange(0, v@.len() as int) =~= v@);
                            }
                        },
                        _ => {
                            proof {
                                assert(v@.subrange(0, v@.len() as int) =~= v@);
                                lemma_run_parts_none(
                                    pm.subrange(i as int + 1, pm.len() as int),
                                );
                            }
                            return None;
                        },
                    }
                } else if str_eq(k.as_str(), "UNTIL") {
                    match IcalTime::parse(v.as_str()) {
                        Some(t) => {
                            until = Some(t.get_timestamp());
                        },
                        None => {
                            proof {
                                lemma_run_parts_none(
                                    pm.subrange(i as int + 1, pm.len() as int),
                                );
                            }
                            return None;
                        },
                    }
                } else {
                    proof {
                        lemma_run_parts_none(pm.subrange(i as int + 1, pm.len() as int));
                    }
                    return None;
                }
            },
        }
        i = i + 1;
    }
    proof {
        assert(pm.subrange(i as int, pm.len() as int) =~= Seq::<Seq<char>>::empty());
    }
    match freq {
        Some(f) => Some(RRule { freq: f, interval, count, until }),
        None => None,
    }
}

/// A failed part fails the whole read.
proof fn lemma_run_parts_none(parts: Seq<Seq<char>>)
    ensures
        run_parts(parts, None) is None,
    decreases parts.len(),
{
    if parts.len() > 0 {
        lemma_run_parts_none(parts.drop_first());
    }
}

/// Splits a rule text at every `;`.
#[verifier::loop_isolation(false)]
fn split_parts(s: &str) -> (r: Vec<String>)
    ensures
        r@.map_values(|p: String| p@) == parts_of(s@),
{
    let n = s.unicode_len();
    let mut out: Vec<String> = Vec::new();
    let mut cur: String = String::new();
    let mut i: usize = 0;
    proof {
        assert(parts_of(s@.subrange(0, 0)) =~= seq![Seq::<char>::empty()]);
    }
    while i < n
        invariant
            0 <= i <= n,
            n == s@.len(),
            parts_of(s@.subrange(0, i as int)) == out@.map_values(|p: String| p@).push(cur@),
        decreases n - i,
    {
        let c = s.get_char(i);
        let ghost outm = out@.map_values(|p: String| p@);
        let ghost cur0 = cur@;
        proof {
            let pre = s@.subrange(0, i as int);
            let pre1 = s@.subrange(0, i as int + 1);
            assert(pre1.drop_last() =~= pre);
            assert(pre1.last() == s@[i as int]);
            lemma_parts_of_nonempty(pre);
        }
        if c == ';' {
            out.push(cur);
            cur = String::new();
            proof {
                assert(out@.map_values(|p: String| p@) =~= outm.push(cur0));
                assert(parts_of(s@.subrange(0, i as int + 1)) =~= out@.map_values(
                    |p: String| p@,
                ).push(cur@));
            }
        } else {
            push_char(&mut cur, c);
            proof {
                let prev = parts_of(s@.subrange(0, i as int));
                assert(prev == outm.push(cur0));
                assert(prev.last() == cur0);
                assert(parts_of(s@.subrange(0, i as int + 1)) =~= outm.push(cur@));
            }
        }
        i = i + 1;
    }
    out.push(cur);
    proof {
        assert(s@.subrange(0, n as int) =~= s@);
        assert(out@.map_values(|p: String| p@) =~= parts_of(s@));
    }
    out
}

/// Splits a part at its first `=`.
#[verifier::loop_isolation(false)]
fn split_at_eq_x(s: &str) -> (r: Option<(String, String)>)
    ensures
        match r {
            Some((k, v)) => split_at_eq(s@) == Some((k@, v@)),
            None => split_at_eq(s@) is None,
        },
{
    proof {
        lemma_split_eq_props(s@);
    }
    let n = s.unicode_len();
    let mut i: usize = 0;
    while i < n
        invariant
            0 <= i <= n,
            n == s@.len(),
            forall|j: int| 0 <= j < i ==> s@[j] != '=',
        decreases n - i,
    {
        if s.get_char(i) == '=' {
            let k = s.substring_char(0, i).to_owned();
            let v = s.substring_char(i + 1, n).to_owned();
            proof {
                match split_at_eq(s@) {
                    None => {
                        assert(false);
                    },
                    Some((a, b)) => {
                        assert(a + seq!['='] + b == s@);
                        if a.len() < i {
                            assert(s@[a.len() as int] == '=');
                            assert(false);
                        }
                        if a.len() > i {
                            assert(a[i as int] == s@[i as int]);
                            assert(a.contains('='));
                            assert(false);
                        }
                        assert(a =~= k@);
                        assert(b =~= v@);
                    },
                }
            }
            return Some((k, v));
        }
        i = i + 1;
    }
    proof {
        match split_at_eq(s@) {
            Some((a, b)) => {
                assert(a + seq!['='] + b == s@);
                assert(s@[a.len() as int] == '=');
                assert(false);
            },
            None => {},
        }
    }
    None
}

/// What the `=` split yields: the pieces around the first `=`.
proof fn lemma_split_eq_props(s: Seq<char>)
    ensures
        match split_at_eq(s) {
            Some((a, b)) => a + seq!['='] + b == s && !a.contains('='),
            None => !s.contains('='),
        },
    decreases s.len(),
{
    if s.len() == 0 {
        if s.contains('=') {
            let i = choose|i: int| 0 <= i < s.len() && s[i] == '=';
        }
    } else if s[0] == '=' {
        assert(Seq::<char>::empty() + seq!['='] + s.drop_first() =~= s);
        if Seq::<char>::empty().contains('=') {
            let i = choose|i: int| 0 <= i < 0 && Seq::<char>::empty()[i] == '=';
        }
    } else {
        lemma_split_eq_props(s.drop_first());
        match split_at_eq(s.drop_first()) {
            None => {
                if s.contains('=') {
                    let i = choose|i: int| 0 <= i < s.len() && s[i] == '=';
                    assert(s.drop_first()[i - 1] == '=');
                    assert(s.drop_first().contains('='));
                }
            },
            Some((a, b)) => {
                assert((seq![s[0]] + a) + seq!['='] + b =~= s) by {
                    assert(a + seq!['='] + b == s.drop_first());
                    assert(((seq![s[0]] + a) + seq!['='] + b).len() == s.len());
                    assert forall|i: int|
                        0 <= i < s.len() implies ((seq![s[0]] + a) + seq!['='] + b)[i]
                        == s[i] by {
                        if i == 0 {
                        } else {
                            assert((a + seq!['='] + b)[i - 1] == s.drop_first()[i - 1]);
                            assert(s.drop_first()[i - 1] == s[i]);
                        }
                    }
                }
                if (seq![s[0]] + a).contains('=') {
                    let i = choose|i: int|
                        0 <= i < (seq![s[0]] + a).len() && (seq![s[0]] + a)[i] == '=';
                    assert(i > 0);
                    assert(a[i - 1] == '=');
                    assert(a.contains('='));
                }
            },
        }
    }
}

} // verus!

// --- expansion ---------------------------------------------------------

verus! {

/// The civil date `n` months past a start date, the day clamped to the
/// target month's length.
pub open spec fn month_add(start: IcalTime, n: int) -> (int, int, int) {
    let total = start.year * 12 + (start.month - 1) + n;
    let y = total / 12;
    let m = total % 12 + 1;
    let d = if start.day <= days_in_month(y, m) {
        start.day as int
    } else {
        days_in_month(y, m)
    };
    (y, m, d)
}

/// The seconds past midnight of a value's time of day.
pub open spec fn tod_of(t: IcalTime) -> int {
    t.hour * 3600 + t.minute * 60 + t.second
}

/// The timestamp of the `n`-months-later occurrence.
pub open spec fn month_occ_ts(start: IcalTime, n: int) -> int {
    days_of_ymd(month_add(start, n).0, month_add(start, n).1, month_add(start, n).2) * 86400
        + tod_of(start)
}

/// The start timestamp of the `k`-th occurrence of a rule, counted from
/// zero at the master's own start.
pub open spec fn occ_ts(rule: RRule, start: IcalTime, k: int) -> int {
    let n = k * rule.interval;
    match rule.freq {
        Freq::Daily => start.timestamp() + n * 86400,
        Freq::Weekly => start.timestamp() + n * 604800,
        Freq::Monthly => month_occ_ts(start, n),
        Freq::Yearly => month_occ_ts(start, n * 12),
    }
}

/// The effective end of an expansion window: the caller's window end,
/// tightened by the rule's own end bound.
pub open spec fn expand_bound(rule: RRule, window_end: u64) -> int {
    match rule.until {
        Some(u) => if u < window_end {
            u as int
        } else {
            window_end as int
        },
        None => window_end as int,
    }
}

/// A month-shifted date has a year at least the start's and fields in
/// range.
proof fn lemma_month_add_fields(start: IcalTime, n: int)
    requires
        start.wf(),
        n >= 0,
    ensures
        ({
            let (y, m, d) = month_add(start, n);
            &&& y >= 1970
            &&& 1 <= m <= 12
            &&& 1 <= d <= days_in_month(y, m)
            &&& y <= 9999 ==> valid_ymd(y, m, d)
        }),
{
    let total = start.year * 12 + (start.month - 1) + n;
    assert(total >= 1970 * 12);
    let y = total / 12;
    let m = total % 12 + 1;
    assert(y >= 1970 && 0 <= total % 12 < 12) by (nonlinear_arith)
        requires
            total >= 1970 * 12,
            y == total / 12,
            m == total % 12 + 1,
    ;
}

/// Below the modelled limit the year is below ten thousand.
proof fn lemma_ts_year_bound(y: int, m: int, d: int, tod: int)
    requires
        y >= 1970,
        1 <= m <= 12,
        1 <= d,
        tod >= 0,
        days_of_ymd(y, m, d) * 86400 + tod < ts_limit(),
    ensures
        y <= 9999,
{
    if y >= 10000 {
        lemma_days_before_year_mono(1970, 10000);
        lemma_days_before_year_mono(10000, y);
        assert(days_before_month(y, m) >= 0) by {
            lemma_days_before_month_mono(y, 1, m);
        }
        assert(days_of_ymd(y, m, d) >= days_before_year(10000));
        assert(days_of_ymd(y, m, d) * 86400 >= days_before_year(10000) * 86400)
            by (nonlinear_arith)
            requires
                days_of_ymd(y, m, d) >= days_before_year(10000),
                days_before_year(10000) >= 0,
        ;
        assert(false);
    }
}

/// A month shift beyond the modelled years leaves the modelled range.
proof fn lemma_month_occ_above(start: IcalTime, n: int)
    requires
        start.wf(),
        n >= 0,
        start.year * 12 + (start.month - 1) + n >= 10000 * 12,
    ensures
        month_occ_ts(start, n) >= ts_limit(),
{
    lemma_month_add_fields(start, n);
    let total = start.year * 12 + (start.month - 1) + n;
    let (y, m, d) = month_add(start, n);
    assert(y >= 10000) by (nonlinear_arith)
        requires
            y == total / 12,
            total >= 10000 * 12,
    ;
    lemma_days_before_year_mono(1970, 10000);
    lemma_days_before_year_mono(10000, y);
    assert(days_before_month(y, m) >= 0) by {
        lemma_days_before_month_mono(y, 1, m);
    }
    assert(days_of_ymd(y, m, d) >= days_before_year(10000));
    assert(days_of_ymd(y, m, d) * 86400 >= days_before_year(10000) * 86400) by (nonlinear_arith)
        requires
            days_of_ymd(y, m, d) >= days_before_year(10000),
            days_before_year(10000) >= 0,
    ;
}

/// A strictly larger month shift gives a strictly later occurrence,
/// as long as the later one is still below the modelled limit.
proof fn lemma_month_occ_increases(start: IcalTime, n1: int, n2: int)
    requires
        start.wf(),
        0 <= n1 < n2,
        month_occ_ts(start, n2) < ts_limit(),
    ensures
        month_occ_ts(start, n1) < month_occ_ts(start, n2),
{
    lemma_month_add_fields(start, n1);
    lemma_month_add_fields(start, n2);
    let total1 = start.year * 12 + (start.month - 1) + n1;
    let total2 = start.year * 12 + (start.month - 1) + n2;
    let (y1, m1, d1) = month_add(start, n1);
    let (y2, m2, d2) = month_add(start, n2);
    lemma_ts_year_bound(y2, m2, d2, tod_of(start));
    assert(y1 <= y2 && (y1 == y2 ==> m1 < m2)) by (nonlinear_arith)
        requires
            total1 < total2,
            y1 == total1 / 12,
            y2 == total2 / 12,
            m1 == total1 % 12 + 1,
            m2 == total2 % 12 + 1,
    ;
    assert(valid_ymd(y1, m1, d1));
    assert(valid_ymd(y2, m2, d2));
    crate::dateutil::lemma_ymd_lex_order(y1, m1, d1, y2, m2, d2);
}

/// Each occurrence lies strictly after the one before it, as long as it
/// stays below the modelled limit.
proof fn lemma_occ_increases(rule: RRule, start: IcalTime, k: int)
    requires
        rule.wf(),
        start.wf(),
        k >= 1,
        occ_ts(rule, start, k) < ts_limit(),
    ensures
        occ_ts(rule, start, k - 1) < occ_ts(rule, start, k),
{
    let iv = rule.interval as int;
    match rule.freq {
        Freq::Daily => {
            assert(((k - 1) * iv) * 86400 < (k * iv) * 86400) by (nonlinear_arith)
                requires
                    iv >= 1,
                    k >= 1,
            ;
        },
        Freq::Weekly => {
            assert(((k - 1) * iv) * 604800 < (k * iv) * 604800) by (nonlinear_arith)
                requires
                    iv >= 1,
                    k >= 1,
            ;
        },
        Freq::Monthly => {
            let n1 = (k - 1) * iv;
            let n2 = k * iv;
            assert(0 <= n1 && n1 < n2) by (nonlinear_arith)
                requires
                    n1 == (k - 1) * iv,
                    n2 == k * iv,
                    iv >= 1,
                    k >= 1,
            ;
            lemma_month_occ_increases(start, n1, n2);
        },
        Freq::Yearly => {
            let n1 = ((k - 1) * iv) * 12;
            let n2 = (k * iv) * 12;
            assert(0 <= n1 && n1 < n2) by (nonlinear_arith)
                requires
                    n1 == ((k - 1) * iv) * 12,
                    n2 == (k * iv) * 12,
                    iv >= 1,
                    k >= 1,
            ;
            lemma_month_occ_increases(start, n1, n2);
        },
    }
}

/// For the linear frequencies each occurrence lies one step after the
/// one before it.
proof fn lemma_occ_step(rule: RRule, start: IcalTime, k: int)
    requires
        rule.freq == Freq::Daily || rule.freq == Freq::Weekly,
        k >= 0,
    ensures
        rule.freq == Freq::Daily ==> occ_ts(rule, start, k + 1) == occ_ts(rule, start, k) + 86400
            * rule.interval,
        rule.freq == Freq::Weekly ==> occ_ts(rule, start, k + 1) == occ_ts(rule, start, k)
            + 604800 * rule.interval,
{
    let iv = rule.interval as int;
    assert(((k + 1) * iv) * 86400 == (k * iv) * 86400 + iv * 86400) by (nonlinear_arith);
    assert(((k + 1) * iv) * 604800 == (k * iv) * 604800 + iv * 604800) by (nonlinear_arith);
}

/// The occurrence start times of a rule within a window: every
/// occurrence from the master's start, in ascending order, up to the
/// window end (tightened by the rule's own bound) and the rule's count.
pub fn recur_expand(rule: &RRule, start: &IcalTime, window_end: u64) -> (r: Vec<u64>)
    requires
        rule.wf(),
        start.wf(),
        window_end < ts_limit(),
    ensures
        is_expansion(*rule, *start, window_end, r@),
        forall|i: int| 0 <= i < r@.len() ==> r@[i] == occ_ts(*rule, *start, i),
{
    let bound: u64 = match rule.until {
        Some(u) => if u < window_end {
            u
        } else {
            window_end
        },
        None => window_end,
    };
    let months_per_step: u64 = match rule.freq {
        Freq::Monthly => rule.interval as u64,
        Freq::Yearly => 12 * (rule.interval as u64),
        _ => 1,
    };
    let secs_per_step: u64 = match rule.freq {
        Freq::Daily => 86400 * (rule.interval as u64),
        Freq::Weekly => 604800 * (rule.interval as u64),
        _ => 1,
    };
    let start_ts = start.get_timestamp();
    let tod = (start.hour as u64) * 3600 + (start.minute as u64) * 60 + (start.second as u64);
    let mut out: Vec<u64> = Vec::new();
    let mut cur: u64 = start_ts;
    let mut months: u64 = 0;
    loop
        invariant
            rule.wf(),
            start.wf(),
            window_end < ts_limit(),
            bound == expand_bound(*rule, window_end),
            bound <= window_end,
            start_ts == start.timestamp(),
            tod == tod_of(*start),
            months_per_step == (match rule.freq {
                Freq::Monthly => rule.interval as int,
                Freq::Yearly => 12 * rule.interval as int,
                _ => 1int,
            }),
            secs_per_step == (match rule.freq {
                Freq::Daily => 86400 * rule.interval as int,
                Freq::Weekly => 604800 * rule.interval as int,
                _ => 1int,
            }),
            months == out@.len() * months_per_step || (rule.freq == Freq::Daily || rule.freq
                == Freq::Weekly),
            (rule.freq == Freq::Daily || rule.freq == Freq::Weekly) ==> cur == occ_ts(
                *rule,
                *start,
                out@.len() as int,
            ),
            cur <= ts_limit() + secs_per_step,
            months <= 200000 + months_per_step,
            forall|i: int| 0 <= i < out@.len() ==> out@[i] == occ_ts(*rule, *start, i),
            forall|i: int| 0 <= i < out@.len() ==> out@[i] <= bound,
            forall|i: int| 0 <= i && i + 1 < out@.len() ==> #[trigger] out@[i] < out@[i + 1],
            match rule.count {
                Some(c) => out@.len() <= c,
                None => true,
            },
        ensures
            (match rule.count {
                Some(c) => out@.len() == c,
                None => false,
            }) || occ_ts(*rule, *start, out@.len() as int) > bound || occ_ts(
                *rule,
                *start,
                out@.len() as int,
            ) >= ts_limit(),
            forall|i: int| 0 <= i < out@.len() ==> out@[i] == occ_ts(*rule, *start, i),
            forall|i: int| 0 <= i < out@.len() ==> out@[i] <= bound,
            forall|i: int| 0 <= i && i + 1 < out@.len() ==> #[trigger] out@[i] < out@[i + 1],
            match rule.count {
                Some(c) => out@.len() <= c,
                None => true,
            },
        decreases
            (if cur <= bound + secs_per_step {
                bound + secs_per_step + 1 - cur
            } else {
                0int
            }),
            (if months <= 200001 + months_per_step {
                200001 + months_per_step - months
            } else {
                0int
            }),
    {
        let ghost k = out@.len() as int;
        match rule.count {
            Some(c) => {
                if out.len() >= c as usize {
                    break ;
                }
            },
            None => {},
        }
        let ts: u64 = match rule.freq {
            Freq::Daily => cur,
            Freq::Weekly => cur,
            Freq::Monthly | Freq::Yearly => {
                let ghost n = if rule.freq == Freq::Yearly {
                    (k * rule.interval) * 12
                } else {
                    k * rule.interval
                };
                proof {
                    assert(n == k * months_per_step) by (nonlinear_arith)
                        requires
                            rule.freq == Freq::Monthly || rule.freq == Freq::Yearly,
                            months_per_step == (if rule.freq == Freq::Yearly {
                                12 * rule.interval as int
                            } else {
                                rule.interval as int
                            }),
                            n == (if rule.freq == Freq::Yearly {
                                (k * rule.interval) * 12
                            } else {
                                k * rule.interval as int
                            }),
                    ;
                    assert(n == months);
                    assert(n >= 0);
                }
                if months > 200000 {
                    proof {
                        lemma_month_occ_above(*start, n);
                    }
                    break ;
                }
                let total: u64 = (start.year as u64) * 12 + ((start.month - 1) as u64) + months;
                let y64 = total / 12;
                if y64 > 9999 {
                    proof {
                        lemma_month_occ_above(*start, n);
                    }
                    break ;
                }
                let y = y64 as u32;
                let m = (total % 12) as u32 + 1;
                let dim = days_in_month_x(y, m);
                let d = if start.day <= dim {
                    start.day
                } else {
                    dim
                };
                proof {
                    lemma_month_add_fields(*start, n);
                    assert(month_add(*start, n).0 == y as int);
                    assert(month_add(*start, n).1 == m as int);
                    assert(month_add(*start, n).2 == d as int);
                    assert(valid_ymd(y as int, m as int, d as int));
                }
                let days = ymd_to_days(y, m, d);
                let ts = (days as u64) * SECS_PER_DAY + tod;
                proof {
                    assert(ts == month_occ_ts(*start, n));
                    assert(ts == occ_ts(*rule, *start, k));
                }
                ts
            },
        };
        proof {
            assert(ts == occ_ts(*rule, *start, k));
        }
        if ts > bound {
            break ;
        }
        proof {
            if out@.len() > 0 {
                assert(out@[out@.len() - 1] == occ_ts(*rule, *start, k - 1));
                lemma_occ_increases(*rule, *start, k);
            }
        }
        out.push(ts);
        match rule.freq {
            Freq::Daily | Freq::Weekly => {
                proof {
                    lemma_occ_step(*rule, *start, k);
                    lemma_days_before_year_mono(1970, 10000);
                    assert(ts_limit() <= 366 * 8030 * 86400);
                }
                cur = cur + secs_per_step;
            },
            Freq::Monthly | Freq::Yearly => {
                proof {
                    assert((k + 1) * months_per_step == k * months_per_step + months_per_step)
                        by (nonlinear_arith);
                }
                months = months + months_per_step;
            },
        }
    }
    out
}

} // verus!

// --- membership in an expansion ----------------------------------------

verus! {

/// What `recur_expand` promises of its result.
pub open spec fn is_expansion(rule: RRule, start: IcalTime, window_end: u64, s: Seq<u64>) -> bool {
    &&& forall|i: int| 0 <= i < s.len() ==> s[i] == occ_ts(rule, start, i)
    &&& forall|i: int| 0 <= i < s.len() ==> s[i] <= expand_bound(rule, window_end)
    &&& forall|i: int| 0 <= i && i + 1 < s.len() ==> #[trigger] s[i] < s[i + 1]
    &&& match rule.count {
        Some(c) => s.len() <= c,
        None => true,
    }
    &&& ((match rule.count {
        Some(c) => s.len() == c,
        None => false,
    }) || occ_ts(rule, start, s.len() as int) > expand_bound(rule, window_end) || occ_ts(
        rule,
        start,
        s.len() as int,
    ) >= ts_limit())
}

/// Whether the `k`-th occurrence belongs to the expansion: it and all
/// the occurrences before it lie within the window, the bound and the
/// count.
pub open spec fn occ_emitted(rule: RRule, start: IcalTime, window_end: u64, k: int) -> bool {
    &&& 0 <= k
    &&& match rule.count {
        Some(c) => k < c,
        None => true,
    }
    &&& forall|j: int| 0 <= j <= k ==> #[trigger] occ_ts(rule, start, j) <= expand_bound(
        rule,
        window_end,
    ) && occ_ts(rule, start, j) < ts_limit()
}

/// A value lies in the expansion exactly when it is an emitted
/// occurrence's start time.
pub proof fn lemma_expansion_membership(
    rule: RRule,
    start: IcalTime,
    window_end: u64,
    s: Seq<u64>,
    x: int,
)
    requires
        is_expansion(rule, start, window_end, s),
        window_end < ts_limit(),
    ensures
        (exists|i: int| 0 <= i < s.len() && s[i] == x) <==> (exists|k: int|
            occ_emitted(rule, start, window_end, k) && occ_ts(rule, start, k) == x),
{
    if exists|i: int| 0 <= i < s.len() && s[i] == x {
        let i = choose|i: int| 0 <= i < s.len() && s[i] == x;
        assert(occ_emitted(rule, start, window_end, i)) by {
            assert forall|j: int| 0 <= j <= i implies #[trigger] occ_ts(rule, start, j)
                <= expand_bound(rule, window_end) && occ_ts(rule, start, j) < ts_limit() by {
                assert(s[j] == occ_ts(rule, start, j));
                assert(s[j] <= expand_bound(rule, window_end));
                assert(expand_bound(rule, window_end) <= window_end);
            }
        }
        assert(occ_ts(rule, start, i) == x);
    }
    if exists|k: int| occ_emitted(rule, start, window_end, k) && occ_ts(rule, start, k) == x {
        let k = choose|k: int|
            occ_emitted(rule, start, window_end, k) && occ_ts(rule, start, k) == x;
        if k < s.len() {
            assert(s[k] == occ_ts(rule, start, k));
            assert(0 <= k < s.len() && s[k] == x);
        } else {
            let n = s.len() as int;
            assert(0 <= n <= k);
            assert(occ_ts(rule, start, n) <= expand_bound(rule, window_end));
            assert(occ_ts(rule, start, n) < ts_limit());
            match rule.count {
                Some(c) => {
                    assert(n == c || false);
                    assert(k < c);
                    assert(false);
                },
                None => {
                    assert(false);
                },
            }
        }
    }
}

} // verus!

