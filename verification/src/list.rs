use vstd::prelude::*;

use crate::dateutil::{date_from_str, days_of_ymd, spec_date_from_str};
use crate::errors::{KhError, KhResult};
use crate::icaltime::{ts_limit, IcalTime};
use crate::icalvevent::{event_end_time, event_start_time};
use crate::icalwrap::{path_in_calendar, path_in_calendar_spec, IcalVCalendar};
use crate::component::PropModel;
use crate::digits::{all_digits, dec_val, parse_dec_range};
use crate::selectors::{merge_from, merge_to};
use crate::strutil::str_eq;

verus! {

// The listing filter: date bounds, an optional calendar name, and the
// positional short cut of a single bare number.

/// The day a plain date argument names.
pub open spec fn date_day_of_arg(v: Seq<char>) -> Option<int> {
    match spec_date_from_str(v) {
        Some(d) => Some(days_of_ymd(d.year as int, d.month as int, d.day as int)),
        None => None,
    }
}

/// The filters a listing argument list names: a single bare number
/// selects a position; otherwise pairs of `from`, `to` and `cal`
/// tokens. Several date bounds combine into the tightest pair: the
/// largest of the `from` days and the smallest of the `to` days; a
/// later calendar name replaces an earlier one.
pub open spec fn list_run(
    args: Seq<Seq<char>>,
    fd: Option<int>,
    td: Option<int>,
    cal: Option<Seq<char>>,
) -> Option<(Option<int>, Option<int>, Option<Seq<char>>)>
    decreases args.len(),
{
    if args.len() == 0 {
        Some((fd, td, cal))
    } else if args.len() == 1 {
        None
    } else {
        let key = args[0];
        let val = args[1];
        if key == "from"@ {
            match date_day_of_arg(val) {
                Some(d) => list_run(args.skip(2), Some(merge_from(fd, d)), td, cal),
                None => None,
            }
        } else if key == "to"@ {
            match date_day_of_arg(val) {
                Some(d) => list_run(args.skip(2), fd, Some(merge_to(td, d)), cal),
                None => None,
            }
        } else if key == "cal"@ {
            list_run(args.skip(2), fd, td, Some(val))
        } else {
            None
        }
    }
}

/// The listing filters.
pub struct ListFilters {
    pub from: Option<IcalTime>,
    pub to: Option<IcalTime>,
    pub num: Option<usize>,
    pub calendar: Option<String>,
}

/// The day of an optional date.
pub open spec fn opt_day(d: Option<IcalTime>) -> Option<int> {
    match d {
        Some(t) => Some(days_of_ymd(t.year as int, t.month as int, t.day as int)),
        None => None,
    }
}

/// Whether an event with the given start and end passes a lower day
/// bound: its start or its end falls at or after the bound.
pub open spec fn passes_from(
    fd: Option<int>,
    start: Option<IcalTime>,
    end_ts: Option<int>,
) -> bool {
    match fd {
        None => true,
        Some(f) => {
            let s_ok = match start {
                Some(s) => f <= days_of_ymd(s.year as int, s.month as int, s.day as int),
                None => true,
            };
            let e_ok = match end_ts {
                Some(ts) => if 0 <= ts < ts_limit() {
                    f <= ts / 86400
                } else {
                    true
                },
                None => true,
            };
            s_ok || e_ok
        },
    }
}

/// Whether an event with the given start and end passes an upper day
/// bound: its start or its end falls at or before the bound.
pub open spec fn passes_to(fd: Option<int>, start: Option<IcalTime>, end_ts: Option<int>) -> bool {
    match fd {
        None => true,
        Some(f) => {
            let s_ok = match start {
                Some(s) => days_of_ymd(s.year as int, s.month as int, s.day as int) <= f,
                None => true,
            };
            let e_ok = match end_ts {
                Some(ts) => if 0 <= ts < ts_limit() {
                    ts / 86400 <= f
                } else {
                    true
                },
                None => true,
            };
            s_ok || e_ok
        },
    }
}

impl ListFilters {
    pub open spec fn wf(self) -> bool {
        &&& match self.from {
            Some(t) => t.wf(),
            None => true,
        }
        &&& match self.to {
            Some(t) => t.wf(),
            None => true,
        }
    }

    /// Reads a listing argument list. An empty list is refused; a
    /// single bare number selects that position of an outside
    /// sequence; otherwise the tokens are read in pairs.
    #[verifier::loop_isolation(false)]
    pub fn parse_from_args(args: &Vec<String>) -> (r: KhResult<ListFilters>)
        ensures
            ({
                let am = args@.map_values(|a: String| a@);
                match r {
                    Ok(f) => f.wf() && (match f.num {
                        Some(k) => am.len() == 1 && all_digits(am[0]) && am[0].len() > 0
                            && dec_val(am[0]) == k,
                        None => am.len() >= 2 && list_run(am, None, None, None) == Some(
                            (
                                opt_day(f.from),
                                opt_day(f.to),
                                match f.calendar {
                                    Some(c) => Some(c@),
                                    None => None,
                                },
                            ),
                        ),
                    }),
                    Err(e) => e == KhError::BadSyntax && (am.len() == 0 || (am.len() == 1 && !(
                    all_digits(am[0]) && am[0].len() > 0 && dec_val(am[0]) <= usize::MAX)) || (
                    am.len() >= 2 && list_run(am, None, None, None) is None)),
                }
            }),
    {
        let ghost am = args@.map_values(|a: String| a@);
        let n = args.len();
        if n == 0 {
            return Err(KhError::BadSyntax);
        }
        if n == 1 {
            let a0 = &args[0];
            let alen = a0.as_str().unicode_len();
            match parse_dec_range(a0.as_str(), 0, alen) {
                Some(v) if v <= usize::MAX as u64 => {
                    proof {
                        assert(a0@.subrange(0, a0@.len() as int) =~= a0@);
                        assert(am[0] == a0@);
                    }
                    return Ok(
                        ListFilters {
                            from: None,
                            to: None,
                            num: Some(v as usize),
                            calendar: None,
                        },
                    );
                },
                _ => {
                    proof {
                        assert(a0@.subrange(0, a0@.len() as int) =~= a0@);
                        assert(am[0] == a0@);
                        if all_digits(a0@) && a0@.len() > 0 {
                            crate::digits::lemma_dec_val_nonneg(a0@);
                        }
                    }
                    return Err(KhError::BadSyntax);
                },
            }
        }
        let mut from: Option<IcalTime> = None;
        let mut to: Option<IcalTime> = None;
        let mut calendar: Option<String> = None;
        let mut i: usize = 0;
        proof {
            assert(am.skip(0) =~= am);
        }
        while i < n
            invariant
                0 <= i <= n,
                n == args@.len(),
                list_run(am, None, None, None) == list_run(
                    am.skip(i as int),
                    opt_day(from),
                    opt_day(to),
                    match calendar {
                        Some(c) => Some(c@),
                        None => None,
                    },
                ),
                match from {
                    Some(t) => t.wf(),
                    None => true,
                },
                match to {
                    Some(t) => t.wf(),
                    None => true,
                },
            decreases n - i,
        {
            let ghost rest = am.skip(i as int);
            proof {
                assert(rest[0] == am[i as int]);
                if i + 1 < n {
                    assert(rest[1] == am[i as int + 1]);
                    assert(rest.skip(2) =~= am.skip(i as int + 2));
                }
            }
            if i + 1 >= n {
                return Err(KhError::BadSyntax);
            }
            let key = &args[i];
            let val = &args[i + 1];
            if str_eq(key.as_str(), "from") {
                match date_from_str(val.as_str()) {
                    Some(d) => {
                        from = crate::selectors::merge_from_x(from, d);
                    },
                    None => {
                        return Err(KhError::BadSyntax);
                    },
                }
            } else if str_eq(key.as_str(), "to") {
                match date_from_str(val.as_str()) {
                    Some(d) => {
                        to = crate::selectors::merge_to_x(to, d);
                    },
                    None => {
                        return Err(KhError::BadSyntax);
                    },
                }
            } else if str_eq(key.as_str(), "cal") {
                calendar = Some(val.clone());
            } else {
                return Err(KhError::BadSyntax);
            }
            i = i + 2;
        }
        proof {
            assert(am.skip(i as int) =~= Seq::<Seq<char>>::empty());
        }
        Ok(ListFilters { from, to, num: None, calendar })
    }

    /// Whether a document's principal event overlaps the lower bound:
    /// its start or its end lies at or after it.
    pub fn predicate_is_from(&self, cal: &IcalVCalendar) -> (r: bool)
        requires
            self.wf(),
            cal.wf(),
            cal.instance_timestamp is None,
        ensures
            ({
                let props = if cal.events_models().len() > 0 {
                    cal.events_models()[0]
                } else {
                    Seq::<PropModel>::empty()
                };
                r == passes_from(
                    opt_day(self.from),
                    event_start_time(props),
                    match event_end_time(props) {
                        Some(t) => Some(t.timestamp()),
                        None => None,
                    },
                )
            }),
    {
        let event = cal.get_principal_event();
        match &self.from {
            Some(f) => {
                let s_ok = match event.get_dtstart() {
                    Some(s) => f.date_le(&s),
                    None => true,
                };
                let e_ok = match event.get_dtend() {
                    Some(e) => {
                        proof {
                            let ts = event.get_dtend_ts_spec()->0;
                            let days = days_of_ymd(e.year as int, e.month as int, e.day as int);
                            let tod = e.hour as int * 3600 + e.minute as int * 60
                                + e.second as int;
                            assert(e.timestamp() == days * 86400 + tod);
                            assert(0 <= tod < 86400);
                            assert(days == ts / 86400) by (nonlinear_arith)
                                requires
                                    ts == days * 86400 + tod,
                                    0 <= tod < 86400,
                            ;
                        }
                        f.date_le(&e)
                    },
                    None => true,
                };
                s_ok || e_ok
            },
            None => true,
        }
    }

    /// Whether a document's principal event overlaps the upper bound:
    /// its start or its end lies at or before it.
    pub fn predicate_is_to(&self, cal: &IcalVCalendar) -> (r: bool)
        requires
            self.wf(),
            cal.wf(),
            cal.instance_timestamp is None,
        ensures
            ({
                let props = if cal.events_models().len() > 0 {
                    cal.events_models()[0]
                } else {
                    Seq::<PropModel>::empty()
                };
                r == passes_to(
                    opt_day(self.to),
                    event_start_time(props),
                    match event_end_time(props) {
                        Some(t) => Some(t.timestamp()),
                        None => None,
                    },
                )
            }),
    {
        let event = cal.get_principal_event();
        match &self.to {
            Some(f) => {
                let s_ok = match event.get_dtstart() {
                    Some(s) => s.date_le(f),
                    None => true,
                };
                let e_ok = match event.get_dtend() {
                    Some(e) => {
                        proof {
                            let ts = event.get_dtend_ts_spec()->0;
                            let days = days_of_ymd(e.year as int, e.month as int, e.day as int);
                            let tod = e.hour as int * 3600 + e.minute as int * 60
                                + e.second as int;
                            assert(e.timestamp() == days * 86400 + tod);
                            assert(0 <= tod < 86400);
                            assert(days == ts / 86400) by (nonlinear_arith)
                                requires
                                    ts == days * 86400 + tod,
                                    0 <= tod < 86400,
                            ;
                        }
                        e.date_le(f)
                    },
                    None => true,
                };
                s_ok || e_ok
            },
            None => true,
        }
    }

    /// Whether a document lies in the filtered calendar: no calendar
    /// filter is set, or the document's parent directory path ends
    /// with the requested name at a directory boundary, so a nested
    /// calendar name matches its sub-calendar.
    pub fn predicate_is_in_calendar(&self, cal: &IcalVCalendar) -> (r: bool)
        ensures
            r == match self.calendar {
                None => true,
                Some(c) => match cal.path {
                    Some(p) => path_in_calendar_spec(p@, c@),
                    None => false,
                },
            },
    {
        match &self.calendar {
            None => true,
            Some(c) => match cal.get_path() {
                Some(p) => path_in_calendar(p.as_str(), c.as_str()),
                None => false,
            },
        }
    }
}

} // verus!
