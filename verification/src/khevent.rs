use vstd::prelude::*;

use crate::component::{first_prop_value, has_prop, PropModel};
use crate::icaltime::{ts_limit, IcalTime};
use crate::icalvevent::{
    event_duration, event_end_time, event_rrule, event_start_time, recur_window_end, IcalVEvent,
};
use crate::icalwrap::{calendar_name_spec, uid_string};
use crate::recur::{is_expansion, occ_emitted, occ_ts};

verus! {

// The event handle the actions work with: an event view plus the
// instance reading the caller chose.

pub struct KhEvent {
    pub event: IcalVEvent,
    pub instance_timestamp: Option<IcalTime>,
}

impl KhEvent {
    pub open spec fn props_m(self) -> Seq<PropModel> {
        self.event.props_m()
    }

    pub open spec fn wf(self) -> bool {
        &&& self.event.wf()
        &&& self.event.instance_timestamp is None
        &&& match self.instance_timestamp {
            Some(t) => t.wf(),
            None => true,
        }
    }

    /// Wraps an event view with no instance reading of its own.
    pub fn from_event(event: IcalVEvent) -> (r: KhEvent)
        ensures
            r.event == event,
            r.instance_timestamp is None,
    {
        KhEvent { event, instance_timestamp: None }
    }

    /// Wraps an event view with the given instance reading.
    pub fn from_event_with_timestamp(event: IcalVEvent, instance_timestamp: Option<IcalTime>) -> (r:
        KhEvent)
        ensures
            r.event == event,
            r.instance_timestamp == instance_timestamp,
    {
        KhEvent { event, instance_timestamp }
    }

    /// The start this handle denotes: its own instance reading, or the
    /// event's start property.
    pub fn get_start(&self) -> (r: Option<IcalTime>)
        requires
            self.wf(),
        ensures
            match self.instance_timestamp {
                Some(t) => r == Some(t),
                None => r == event_start_time(self.props_m()) && (r is Some ==> r->0.wf()),
            },
    {
        match &self.instance_timestamp {
            Some(t) => Some(*t),
            None => self.event.get_dtstart(),
        }
    }

    /// The end this handle denotes: for an instance, the instance start
    /// moved by the master's duration, else the event's end property.
    pub fn get_end(&self) -> (r: Option<IcalTime>)
        requires
            self.wf(),
        ensures
            match self.instance_timestamp {
                Some(t) => r is Some && r->0.wf() && r->0.timestamp() == t.timestamp()
                    + event_duration(self.props_m()) || (r is None && t.timestamp()
                    + event_duration(self.props_m()) >= ts_limit()),
                None => match event_end_time(self.props_m()) {
                    Some(t) => if 0 <= t.timestamp() < ts_limit() {
                        r is Some && r->0.wf() && !r->0.is_date && r->0.timestamp()
                            == t.timestamp()
                    } else {
                        r is None
                    },
                    None => r is None,
                },
            },
    {
        match &self.instance_timestamp {
            Some(t) => {
                let base = t.get_timestamp();
                let dur = self.event.get_duration_secs();
                proof {
                    crate::dateutil::lemma_days_before_year_mono(1970, 10000);
                    assert(ts_limit() <= 366 * 8030 * 86400);
                }
                let ts = base + dur;
                let limit = crate::dateutil::days_before_year_x(10000) as u64 * 86400;
                if ts < limit {
                    Some(IcalTime::from_timestamp(ts))
                } else {
                    None
                }
            },
            None => self.event.get_dtend(),
        }
    }

    /// The name of the calendar directory the owning document lies in:
    /// present exactly when the view still carries a parent whose path
    /// yields one.
    pub fn get_calendar_name(&self) -> (r: Option<String>)
        ensures
            match (&self.event.parent, &r) {
                (Some(cal), Some(n)) => match cal.path {
                    Some(p) => calendar_name_spec(p@) == Some(n@),
                    None => false,
                },
                (Some(cal), None) => match cal.path {
                    Some(p) => calendar_name_spec(p@) is None,
                    None => true,
                },
                (None, Some(n)) => false,
                (None, None) => true,
            },
    {
        match self.event.get_parent() {
            Some(cal) => cal.get_calendar_name(),
            None => None,
        }
    }

    /// Whether the event is an all-day one.
    pub fn is_allday(&self) -> (r: bool)
        ensures
            r == match event_start_time(self.props_m()) {
                Some(t) => t.is_date,
                None => false,
            },
    {
        self.event.is_allday()
    }

    /// The master's duration in seconds.
    pub fn get_duration(&self) -> (r: u64)
        requires
            self.wf(),
        ensures
            r == event_duration(self.props_m()),
    {
        self.event.get_duration_secs()
    }

    /// The event's summary text.
    pub fn get_summary(&self) -> (r: Option<String>)
        ensures
            match r {
                Some(s) => first_prop_value(self.props_m(), "SUMMARY"@) == Some(s@),
                None => first_prop_value(self.props_m(), "SUMMARY"@) is None,
            },
    {
        self.event.get_summary()
    }

    /// The event's description text.
    pub fn get_description(&self) -> (r: Option<String>)
        ensures
            match r {
                Some(s) => first_prop_value(self.props_m(), "DESCRIPTION"@) == Some(s@),
                None => first_prop_value(self.props_m(), "DESCRIPTION"@) is None,
            },
    {
        self.event.get_description()
    }

    /// The event's location text.
    pub fn get_location(&self) -> (r: Option<String>)
        ensures
            match r {
                Some(s) => first_prop_value(self.props_m(), "LOCATION"@) == Some(s@),
                None => first_prop_value(self.props_m(), "LOCATION"@) is None,
            },
    {
        self.event.get_location()
    }

    /// The event's identifier.
    pub fn get_uid(&self) -> (r: String)
        ensures
            r@ == uid_string(self.props_m()),
    {
        self.event.get_uid()
    }

    /// The last day on which the event is relevant: for an all-day
    /// event the day before its exclusive end, else its end's own day.
    pub fn get_last_relevant_date(&self) -> (r: Option<IcalTime>)
        requires
            self.wf(),
            self.instance_timestamp is None,
        ensures
            match self.event.get_dtend_ts_spec() {
                Some(ts) => if 0 <= ts < ts_limit() {
                    r is Some && r->0.is_date
                } else {
                    r is None
                },
                None => r is None,
            },
            ({
                let allday = match event_start_time(self.props_m()) {
                    Some(t) => t.is_date,
                    None => false,
                };
                match (r, self.event.get_dtend_ts_spec()) {
                    (Some(d), Some(ts)) => {
                        &&& d.wf()
                        &&& (!allday ==> crate::dateutil::days_of_ymd(
                            d.year as int,
                            d.month as int,
                            d.day as int,
                        ) == ts / 86400)
                        &&& (allday && ts / 86400 > 0 ==> crate::dateutil::days_of_ymd(
                            d.year as int,
                            d.month as int,
                            d.day as int,
                        ) == ts / 86400 - 1)
                    },
                    _ => true,
                }
            }),
    {
        self.event.get_last_relevant_date()
    }

    /// Whether this handle is the recurrence master itself.
    pub fn is_recur_master(&self) -> (r: bool)
        ensures
            r == (has_prop(self.props_m(), "RRULE"@) && self.instance_timestamp is None),
    {
        self.event.is_recur() && self.instance_timestamp.is_none()
    }

    /// The concrete occurrence start times of this master; rules
    /// outside the evaluated subset yield no occurrences.
    pub fn get_recur_datetimes(&self) -> (r: Vec<IcalTime>)
        requires
            self.wf(),
        ensures
            match (event_rrule(self.props_m()), event_start_time(self.props_m())) {
                (Some(rule), Some(st)) => is_expansion(
                    rule,
                    st,
                    recur_window_end(self.props_m()),
                    r@.map_values(|t: IcalTime| t.timestamp() as u64),
                ),
                _ => r@.len() == 0,
            },
    {
        self.event.get_recur_datetimes()
    }

    /// One handle per occurrence of this master: the carried start
    /// instants are exactly the bounded expansion.
    #[verifier::loop_isolation(false)]
    pub fn get_recur_instances(&self) -> (r: Vec<KhEvent>)
        requires
            self.wf(),
        ensures
            match (event_rrule(self.props_m()), event_start_time(self.props_m())) {
                (Some(rule), Some(st)) => {
                    &&& is_expansion(
                        rule,
                        st,
                        recur_window_end(self.props_m()),
                        r@.map_values(
                            |e: KhEvent| e.event.instance_timestamp->0.timestamp() as u64,
                        ),
                    )
                    &&& forall|i: int| 0 <= i < r@.len() ==> (#[trigger] r@[i]).props_m()
                        == self.props_m() && r@[i].event.instance_timestamp is Some
                        && r@[i].event.instance_timestamp->0.wf() && r@[i].instance_timestamp
                        is None
                },
                _ => r@.len() == 0,
            },
    {
        let views = self.event.get_recur_instances();
        let mut out: Vec<KhEvent> = Vec::new();
        let mut i: usize = 0;
        while i < views.len()
            invariant
                0 <= i <= views@.len(),
                out@.len() == i,
                forall|j: int| 0 <= j < i ==> (#[trigger] out@[j]).props_m() == views@[j].props_m()
                    && out@[j].event.instance_timestamp == views@[j].instance_timestamp
                    && out@[j].instance_timestamp is None,
            decreases views@.len() - i,
        {
            let v = &views[i];
            out.push(KhEvent {
                event: IcalVEvent {
                    props: crate::component::clone_props(&v.props),
                    parent: None,
                    instance_timestamp: v.instance_timestamp,
                },
                instance_timestamp: None,
            });
            i = i + 1;
        }
        proof {
            match (event_rrule(self.props_m()), event_start_time(self.props_m())) {
                (Some(rule), Some(st)) => {
                    assert(out@.map_values(
                        |e: KhEvent| e.event.instance_timestamp->0.timestamp() as u64,
                    ) =~= views@.map_values(
                        |e: IcalVEvent| e.instance_timestamp->0.timestamp() as u64,
                    ));
                },
                _ => {
                    assert(views@.len() == 0);
                },
            }
        }
        out
    }


    /// Whether this handle is a truthful recurrence reading; an
    /// instance of a master whose rule lies outside the evaluated
    /// subset is reported untruthful.
    #[verifier::loop_isolation(false)]
    pub fn is_recur_valid(&self) -> (r: bool)
        requires
            self.wf(),
        ensures
            r == ({
                ||| (has_prop(self.props_m(), "RRULE"@) && self.instance_timestamp is None)
                ||| (!has_prop(self.props_m(), "RRULE"@) && self.instance_timestamp is None)
                ||| (self.instance_timestamp is Some && (match (
                    event_rrule(self.props_m()),
                    event_start_time(self.props_m()),
                ) {
                    (Some(rule), Some(st)) => exists|k: int|
                        occ_emitted(rule, st, recur_window_end(self.props_m()), k) && occ_ts(
                            rule,
                            st,
                            k,
                        ) == self.instance_timestamp->0.timestamp(),
                    _ => false,
                }))
            }),
    {
        if self.is_recur_master() {
            return true;
        }
        match &self.instance_timestamp {
            Some(t) => {
                let view = self.event.with_internal_timestamp(*t);
                let r = view.is_recur_valid();
                proof {
                    assert(view.props_m() == self.props_m());
                    assert(view.instance_timestamp == Some(*t));
                    crate::icalwrap::lemma_first_prop_has(self.props_m(), "RRULE"@);
                }
                r
            },
            None => {
                let r = self.instance_timestamp.is_none();
                proof {
                    assert(!has_prop(self.props_m(), "RRULE"@));
                }
                r
            },
        }
    }
}

} // verus!
