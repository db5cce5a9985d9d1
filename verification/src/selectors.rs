use vstd::prelude::*;

use crate::dateutil::{
    days_before_year, days_of_ymd, spec_date_from_str, spec_week_from_str, week_from_str_begin,
    week_from_str_end, week_start_day, date_from_str,
};
use crate::errors::{KhError, KhResult};
use crate::icaltime::IcalTime;
use crate::icalvevent::IcalVEvent;
use crate::index::{bucket_name_spec, get_bucket_name, BucketKey};
use crate::strutil::str_eq;

verus! {

// The selection filter grammar: `from`, `to`, `in`/`on` bounds over
// dates or weeks, several bounds combining into the tightest pair.

/// The day a `from` argument names: a date's own day, or a week's
/// first day.
pub open spec fn from_day_of_arg(v: Seq<char>) -> Option<int> {
    match spec_date_from_str(v) {
        Some(d) => Some(days_of_ymd(d.year as int, d.month as int, d.day as int)),
        None => match spec_week_from_str(v) {
            Some((y, n)) => if 0 <= week_start_day(y, n) < days_before_year(10000) {
                Some(week_start_day(y, n))
            } else {
                None
            },
            None => None,
        },
    }
}

/// The day a `to` argument names: a date's own day, or a week's last
/// day.
pub open spec fn to_day_of_arg(v: Seq<char>) -> Option<int> {
    match spec_date_from_str(v) {
        Some(d) => Some(days_of_ymd(d.year as int, d.month as int, d.day as int)),
        None => match spec_week_from_str(v) {
            Some((y, n)) => if 0 <= week_start_day(y, n) + 6 < days_before_year(10000) {
                Some(week_start_day(y, n) + 6)
            } else {
                None
            },
            None => None,
        },
    }
}

/// Tightening a lower bound keeps the larger day.
pub open spec fn merge_from(fd: Option<int>, d: int) -> int {
    match fd {
        Some(x) => if x >= d {
            x
        } else {
            d
        },
        None => d,
    }
}

/// Tightening an upper bound keeps the smaller day.
pub open spec fn merge_to(td: Option<int>, d: int) -> int {
    match td {
        Some(x) => if x <= d {
            x
        } else {
            d
        },
        None => d,
    }
}

/// The bounds a filter argument list names: tokens in pairs, each
/// `from`, `to`, `in` or `on` followed by a date or week, the bounds
/// combined into the tightest pair.
pub open spec fn sel_run(args: Seq<Seq<char>>, fd: Option<int>, td: Option<int>) -> Option<
    (Option<int>, Option<int>),
>
    decreases args.len(),
{
    if args.len() == 0 {
        Some((fd, td))
    } else if args.len() == 1 {
        None
    } else {
        let key = args[0];
        let val = args[1];
        if key == "from"@ {
            match from_day_of_arg(val) {
                Some(d) => sel_run(args.skip(2), Some(merge_from(fd, d)), td),
                None => None,
            }
        } else if key == "to"@ {
            match to_day_of_arg(val) {
                Some(d) => sel_run(args.skip(2), fd, Some(merge_to(td, d))),
                None => None,
            }
        } else if key == "in"@ || key == "on"@ {
            match (from_day_of_arg(val), to_day_of_arg(val)) {
                (Some(a), Some(b)) => sel_run(
                    args.skip(2),
                    Some(merge_from(fd, a)),
                    Some(merge_to(td, b)),
                ),
                _ => None,
            }
        } else {
            None
        }
    }
}

/// The day of a filter bound, when one is set.
pub open spec fn bound_day(d: Option<IcalTime>) -> Option<int> {
    match d {
        Some(t) => Some(days_of_ymd(t.year as int, t.month as int, t.day as int)),
        None => None,
    }
}

/// A well-formed bound: a real date with the bucket name of its month.
pub open spec fn bound_wf(date: Option<IcalTime>, bucket: Option<String>) -> bool {
    match (date, bucket) {
        (Some(t), Some(b)) => t.wf() && b@ == bucket_name_spec(
            BucketKey { year: t.year, month: t.month },
        ),
        (None, None) => true,
        _ => false,
    }
}

/// The lower bound of a selection.
pub struct SelectFilterFrom {
    pub date: Option<IcalTime>,
    pub bucket: Option<String>,
}

/// The upper bound of a selection.
pub struct SelectFilterTo {
    pub date: Option<IcalTime>,
    pub bucket: Option<String>,
}

/// A selection's bounds.
pub struct SelectFilters {
    pub from: SelectFilterFrom,
    pub to: SelectFilterTo,
}

impl SelectFilterFrom {
    pub open spec fn wf(self) -> bool {
        bound_wf(self.date, self.bucket)
    }

    /// A lower bound at the given date.
    pub fn from_date(date: Option<IcalTime>) -> (r: SelectFilterFrom)
        requires
            match date {
                Some(t) => t.wf(),
                None => true,
            },
        ensures
            r.date == date,
            r.wf(),
    {
        let bucket = match &date {
            Some(t) => Some(get_bucket_name(&BucketKey { year: t.year, month: t.month })),
            None => None,
        };
        SelectFilterFrom { date, bucket }
    }

    /// Whether a date lies at or after this bound.
    pub fn includes_date(&self, d: &IcalTime) -> (r: bool)
        requires
            match self.date {
                Some(t) => t.wf(),
                None => true,
            },
            d.wf(),
        ensures
            r == match bound_day(self.date) {
                Some(f) => f <= days_of_ymd(d.year as int, d.month as int, d.day as int),
                None => true,
            },
    {
        match &self.date {
            Some(t) => t.date_le(d),
            None => true,
        }
    }
}

impl SelectFilterTo {
    pub open spec fn wf(self) -> bool {
        bound_wf(self.date, self.bucket)
    }

    /// An upper bound at the given date.
    pub fn from_date(date: Option<IcalTime>) -> (r: SelectFilterTo)
        requires
            match date {
                Some(t) => t.wf(),
                None => true,
            },
        ensures
            r.date == date,
            r.wf(),
    {
        let bucket = match &date {
            Some(t) => Some(get_bucket_name(&BucketKey { year: t.year, month: t.month })),
            None => None,
        };
        SelectFilterTo { date, bucket }
    }

    /// Whether a date lies at or before this bound.
    pub fn includes_date(&self, d: &IcalTime) -> (r: bool)
        requires
            match self.date {
                Some(t) => t.wf(),
                None => true,
            },
            d.wf(),
        ensures
            r == match bound_day(self.date) {
                Some(f) => days_of_ymd(d.year as int, d.month as int, d.day as int) <= f,
                None => true,
            },
    {
        match &self.date {
            Some(t) => d.date_le(t),
            None => true,
        }
    }
}

/// Reads a `from` bound argument: a date, or a week's first day.
fn parse_from_arg(v: &str) -> (r: Option<IcalTime>)
    ensures
        match r {
            Some(t) => from_day_of_arg(v@) == Some(
                days_of_ymd(t.year as int, t.month as int, t.day as int),
            ) && t.wf(),
            None => from_day_of_arg(v@) is None,
        },
{
    match date_from_str(v) {
        Some(d) => Some(d),
        None => week_from_str_begin(v),
    }
}

/// Reads a `to` bound argument: a date, or a week's last day.
fn parse_to_arg(v: &str) -> (r: Option<IcalTime>)
    ensures
        match r {
            Some(t) => to_day_of_arg(v@) == Some(
                days_of_ymd(t.year as int, t.month as int, t.day as int),
            ) && t.wf(),
            None => to_day_of_arg(v@) is None,
        },
{
    match date_from_str(v) {
        Some(d) => Some(d),
        None => week_from_str_end(v),
    }
}

impl SelectFilters {
    pub open spec fn wf(self) -> bool {
        self.from.wf() && self.to.wf()
    }

    /// Reads a whole filter argument list into the tightest bounds.
    #[verifier::loop_isolation(false)]
    pub fn parse_from_args(args: &Vec<String>) -> (r: KhResult<SelectFilters>)
        ensures
            ({
                let run = sel_run(args@.map_values(|a: String| a@), None, None);
                match r {
                    Ok(f) => run == Some((bound_day(f.from.date), bound_day(f.to.date)))
                        && f.wf(),
                    Err(e) => e == KhError::BadSyntax && run is None,
                }
            }),
    {
        let ghost am = args@.map_values(|a: String| a@);
        let mut from: Option<IcalTime> = None;
        let mut to: Option<IcalTime> = None;
        let mut i: usize = 0;
        let n = args.len();
        proof {
            assert(am.subrange(0, am.len() as int) =~= am);
            assert(am.skip(0) =~= am);
        }
        while i < n
            invariant
                0 <= i <= n,
                n == args@.len(),
                sel_run(am, None, None) == sel_run(
                    am.skip(i as int),
                    bound_day(from),
                    bound_day(to),
                ),
                match from {
                    Some(t) => t.wf(),
                    None => true,
                },
                match to {
                    Some(t) => t.wf(),
                    None => true,
                },
            decreases n - i,
        {
            let ghost rest = am.skip(i as int);
            proof {
                assert(rest[0] == am[i as int]);
                if i + 1 < n {
                    assert(rest[1] == am[i as int + 1]);
                    assert(rest.skip(2) =~= am.skip(i as int + 2));
                }
            }
            if i + 1 >= n {
                return Err(KhError::BadSyntax);
            }
            let key = &args[i];
            let val = &args[i + 1];
            if str_eq(key.as_str(), "from") {
                match parse_from_arg(val.as_str()) {
                    Some(d) => {
                        from = merge_from_x(from, d);
                    },
                    None => {
                        return Err(KhError::BadSyntax);
                    },
                }
            } else if str_eq(key.as_str(), "to") {
                match parse_to_arg(val.as_str()) {
                    Some(d) => {
                        to = merge_to_x(to, d);
                    },
                    None => {
                        return Err(KhError::BadSyntax);
                    },
                }
            } else if str_eq(key.as_str(), "in") || str_eq(key.as_str(), "on") {
                match (parse_from_arg(val.as_str()), parse_to_arg(val.as_str())) {
                    (Some(a), Some(b)) => {
                        from = merge_from_x(from, a);
                        to = merge_to_x(to, b);
                    },
                    _ => {
                        return Err(KhError::BadSyntax);
                    },
                }
            } else {
                return Err(KhError::BadSyntax);
            }
            i = i + 2;
        }
        proof {
            assert(am.skip(i as int) =~= Seq::<Seq<char>>::empty());
        }
        Ok(
            SelectFilters {
                from: SelectFilterFrom::from_date(from),
                to: SelectFilterTo::from_date(to),
            },
        )
    }

    /// Whether an event's start lies at or after the lower bound.
    pub fn predicate_line_is_from(&self, event: &IcalVEvent) -> (r: bool)
        requires
            self.wf(),
            event.wf(),
        ensures
            r == match (bound_day(self.from.date), event.get_dtstart_spec()) {
                (Some(f), Some(s)) => f <= days_of_ymd(
                    s.year as int,
                    s.month as int,
                    s.day as int,
                ),
                (None, _) => true,
                (Some(f), None) => true,
            },
    {
        match event.get_dtstart() {
            Some(s) => {
                proof {
                    match event.instance_timestamp {
                        Some(it) => {
                            let sp = event.get_dtstart_spec()->0;
                            assert(sp.wf());
                            assert(sp.timestamp() == it.timestamp());
                            crate::icaltime::lemma_timestamp_injective(s, sp);
                        },
                        None => {},
                    }
                }
                self.from.includes_date(&s)
            },
            None => true,
        }
    }

    /// Whether an event's end lies at or before the upper bound.
    pub fn predicate_line_is_to(&self, event: &IcalVEvent) -> (r: bool)
        requires
            self.wf(),
            event.wf(),
        ensures
            r == match (bound_day(self.to.date), event.get_dtend_ts_spec()) {
                (None, _) => true,
                (Some(f), None) => true,
                (Some(f), Some(ts)) => if 0 <= ts < crate::icaltime::ts_limit() {
                    ts / 86400 <= f
                } else {
                    true
                },
            },
    {
        match event.get_dtend() {
            Some(e) => {
                proof {
                    let ts = event.get_dtend_ts_spec()->0;
                    let days = days_of_ymd(e.year as int, e.month as int, e.day as int);
                    let tod = e.hour as int * 3600 + e.minute as int * 60 + e.second as int;
                    assert(e.timestamp() == days * 86400 + tod);
                    assert(0 <= tod < 86400);
                    assert(days == ts / 86400) by (nonlinear_arith)
                        requires
                            ts == days * 86400 + tod,
                            0 <= tod < 86400,
                    ;
                }
                self.to.includes_date(&e)
            },
            None => true,
        }
    }
}

/// Tightens a lower bound.
pub(crate) fn merge_from_x(fd: Option<IcalTime>, d: IcalTime) -> (r: Option<IcalTime>)
    requires
        d.wf(),
        match fd {
            Some(t) => t.wf(),
            None => true,
        },
    ensures
        r is Some && r->0.wf() && bound_day(r) == Some(merge_from(bound_day(fd), days_of_ymd(
            d.year as int,
            d.month as int,
            d.day as int,
        ))),
{
    match fd {
        Some(t) => {
            if d.date_le(&t) {
                Some(t)
            } else {
                Some(d)
            }
        },
        None => Some(d),
    }
}

/// Tightens an upper bound.
pub(crate) fn merge_to_x(td: Option<IcalTime>, d: IcalTime) -> (r: Option<IcalTime>)
    requires
        d.wf(),
        match td {
            Some(t) => t.wf(),
            None => true,
        },
    ensures
        r is Some && r->0.wf() && bound_day(r) == Some(merge_to(bound_day(td), days_of_ymd(
            d.year as int,
            d.month as int,
            d.day as int,
        ))),
{
    match td {
        Some(t) => {
            if t.date_le(&d) {
                Some(t)
            } else {
                Some(d)
            }
        },
        None => Some(d),
    }
}

} // verus!
