use vstd::prelude::*;

use crate::component::{
    clone_props, first_prop_value, get_property_by_name_vec, has_prop, props_model,
    props_model_wf, IcalProperty, PropModel,
};
use crate::icaltime::{spec_parse_time, ts_limit, IcalTime};
use crate::icalwrap::{uid_string, IcalVCalendar};
use crate::recur::{
    expand_bound, is_expansion, occ_emitted, occ_ts, recur_expand, spec_parse_rrule,
    lemma_expansion_membership, RRule,
};

verus! {

// The event view: a handle onto one event of a calendar document,
// optionally reinterpreted as one concrete occurrence of a recurring
// master.

/// The recurrence rule an event carries, when its text lies in the
/// evaluated subset (frequency, interval, count and end bound); rule
/// parts outside that subset leave the rule unevaluated.
pub open spec fn event_rrule(props: Seq<PropModel>) -> Option<RRule> {
    match first_prop_value(props, "RRULE"@) {
        Some(v) => spec_parse_rrule(v),
        None => None,
    }
}

/// The event's own start, read from its start property.
pub open spec fn event_start_time(props: Seq<PropModel>) -> Option<IcalTime> {
    match first_prop_value(props, "DTSTART"@) {
        Some(v) => spec_parse_time(v),
        None => None,
    }
}

/// The event's own end, read from its end property.
pub open spec fn event_end_time(props: Seq<PropModel>) -> Option<IcalTime> {
    match first_prop_value(props, "DTEND"@) {
        Some(v) => spec_parse_time(v),
        None => None,
    }
}

/// The event's duration in seconds: the span from its start to its end
/// properties, zero when either is missing or they are out of order.
pub open spec fn event_duration(props: Seq<PropModel>) -> int {
    match (event_start_time(props), event_end_time(props)) {
        (Some(a), Some(b)) => if a.timestamp() <= b.timestamp() {
            b.timestamp() - a.timestamp()
        } else {
            0
        },
        _ => 0,
    }
}

/// The expansion window of a master: from its own start through one
/// year past its own end (or its start, when it has no end), capped to
/// the modelled years.
pub open spec fn recur_window_end(props: Seq<PropModel>) -> u64 {
    let base = match event_end_time(props) {
        Some(t) => Some(t),
        None => event_start_time(props),
    };
    match base {
        Some(t) => if t.year + 1 > 9999 {
            (ts_limit() - 1) as u64
        } else {
            let y2 = (t.year + 1) as u32;
            let d2 = if t.day <= crate::dateutil::days_in_month(y2 as int, t.month as int) {
                t.day
            } else {
                crate::dateutil::days_in_month(y2 as int, t.month as int) as u32
            };
            (IcalTime {
                year: y2,
                month: t.month,
                day: d2,
                hour: t.hour,
                minute: t.minute,
                second: t.second,
                is_date: t.is_date,
            }).timestamp() as u64
        },
        None => 0u64,
    }
}

/// The expansion window stays below the modelled limit.
pub proof fn lemma_recur_window_end_bound(props: Seq<PropModel>)
    ensures
        recur_window_end(props) < ts_limit(),
{
    crate::dateutil::lemma_days_before_year_mono(1970, 10000);
    let base = match event_end_time(props) {
        Some(t) => Some(t),
        None => event_start_time(props),
    };
    match event_end_time(props) {
        Some(t) => {
            crate::icaltime::lemma_spec_parse_time_wf(
                match first_prop_value(props, "DTEND"@) {
                    Some(v) => v,
                    None => Seq::empty(),
                },
            );
        },
        None => {},
    }
    match event_start_time(props) {
        Some(t) => {
            crate::icaltime::lemma_spec_parse_time_wf(
                match first_prop_value(props, "DTSTART"@) {
                    Some(v) => v,
                    None => Seq::empty(),
                },
            );
        },
        None => {},
    }
    match base {
        Some(t) => {
            if t.year + 1 > 9999 {
            } else {
                if t.wf() {
                    lemma_shifted_wf(t);
                    crate::icaltime::lemma_timestamp_bound(shifted_year(t));
                }
            }
        },
        None => {},
    }
}

/// The value one year past a well-formed value, its day clamped.
pub open spec fn shifted_year(t: IcalTime) -> IcalTime {
    let y2 = (t.year + 1) as u32;
    let d2 = if t.day <= crate::dateutil::days_in_month(y2 as int, t.month as int) {
        t.day
    } else {
        crate::dateutil::days_in_month(y2 as int, t.month as int) as u32
    };
    IcalTime {
        year: y2,
        month: t.month,
        day: d2,
        hour: t.hour,
        minute: t.minute,
        second: t.second,
        is_date: t.is_date,
    }
}

proof fn lemma_shifted_wf(t: IcalTime)
    requires
        t.wf(),
        t.year + 1 <= 9999,
    ensures
        shifted_year(t).wf(),
{
}

/// One event of a calendar document. The view owns a copy of the
/// event's properties and of its parent document, so it can never
/// outlive or corrupt the parse tree it came from; an instance
/// timestamp reinterprets a recurring master as one occurrence.
#[derive(Debug, Clone)]
pub struct IcalVEvent {
    pub props: Vec<IcalProperty>,
    pub parent: Option<Box<IcalVCalendar>>,
    pub instance_timestamp: Option<IcalTime>,
}

impl crate::component::IcalComponent for IcalVEvent {
    open spec fn comp_props(&self) -> Seq<IcalProperty> {
        self.props@
    }

    fn get_properties_all(&self) -> (r: Vec<IcalProperty>) {
        clone_props(&self.props)
    }

    fn get_properties_by_name(&self, name: &str) -> (r: Vec<IcalProperty>) {
        crate::component::get_properties_by_name_vec(&self.props, name)
    }

    fn get_property_by_name(&self, name: &str) -> (r: Option<IcalProperty>) {
        get_property_by_name_vec(&self.props, name)
    }
}

impl IcalVEvent {
    pub open spec fn props_m(self) -> Seq<PropModel> {
        props_model(self.props@)
    }

    pub open spec fn wf(self) -> bool {
        &&& props_model_wf(self.props_m())
        &&& match self.instance_timestamp {
            Some(t) => t.wf(),
            None => true,
        }
        &&& match self.parent {
            Some(p) => p.wf(),
            None => true,
        }
    }

    /// A view of an event's properties with no parent document.
    pub fn from_props(props: Vec<IcalProperty>) -> (r: IcalVEvent)
        ensures
            r.props_m() == props_model(props@),
            r.parent is None,
            r.instance_timestamp is None,
    {
        IcalVEvent { props, parent: None, instance_timestamp: None }
    }

    /// The same event reinterpreted at one concrete start instant. The
    /// underlying properties are untouched.
    pub fn with_internal_timestamp(&self, datetime: IcalTime) -> (r: IcalVEvent)
        ensures
            r.props_m() == self.props_m(),
            r.instance_timestamp == Some(datetime),
            match (r.parent, self.parent) {
                (Some(a), Some(b)) => a.cal_props_model() == b.cal_props_model()
                    && a.events_models() == b.events_models() && a.path == b.path
                    && a.instance_timestamp == b.instance_timestamp,
                (None, None) => true,
                _ => false,
            },
    {
        IcalVEvent {
            props: clone_props(&self.props),
            parent: match &self.parent {
                Some(p) => Some(Box::new(clone_cal(p))),
                None => None,
            },
            instance_timestamp: Some(datetime),
        }
    }

    /// The owning calendar document, when the view still carries one.
    pub fn get_parent(&self) -> (r: Option<&IcalVCalendar>)
        ensures
            match (r, &self.parent) {
                (Some(a), Some(b)) => *a == **b,
                (None, None) => true,
                _ => false,
            },
    {
        match &self.parent {
            Some(p) => Some(&*p),
            None => None,
        }
    }

    /// The event's summary text.
    pub fn get_summary(&self) -> (r: Option<String>)
        ensures
            match r {
                Some(s) => first_prop_value(self.props_m(), "SUMMARY"@) == Some(s@),
                None => first_prop_value(self.props_m(), "SUMMARY"@) is None,
            },
    {
        match get_property_by_name_vec(&self.props, "SUMMARY") {
            Some(p) => Some(p.get_value()),
            None => None,
        }
    }

    /// The event's description text.
    pub fn get_description(&self) -> (r: Option<String>)
        ensures
            match r {
                Some(s) => first_prop_value(self.props_m(), "DESCRIPTION"@) == Some(s@),
                None => first_prop_value(self.props_m(), "DESCRIPTION"@) is None,
            },
    {
        match get_property_by_name_vec(&self.props, "DESCRIPTION") {
            Some(p) => Some(p.get_value()),
            None => None,
        }
    }

    /// The event's location text.
    pub fn get_location(&self) -> (r: Option<String>)
        ensures
            match r {
                Some(s) => first_prop_value(self.props_m(), "LOCATION"@) == Some(s@),
                None => first_prop_value(self.props_m(), "LOCATION"@) is None,
            },
    {
        match get_property_by_name_vec(&self.props, "LOCATION") {
            Some(p) => Some(p.get_value()),
            None => None,
        }
    }

    /// The event's identifier, empty when it carries none.
    pub fn get_uid(&self) -> (r: String)
        ensures
            r@ == uid_string(self.props_m()),
    {
        match get_property_by_name_vec(&self.props, "UID") {
            Some(p) => p.get_value(),
            None => String::new(),
        }
    }

    /// Whether the event is an all-day one: its start property is a
    /// date without a time of day.
    pub fn is_allday(&self) -> (r: bool)
        ensures
            r == match event_start_time(self.props_m()) {
                Some(t) => t.is_date,
                None => false,
            },
    {
        match get_property_by_name_vec(&self.props, "DTSTART") {
            Some(p) => match IcalTime::parse(p.value.as_str()) {
                Some(t) => t.is_date,
                None => false,
            },
            None => false,
        }
    }

    /// Whether the event carries a recurrence rule.
    pub fn is_recur(&self) -> (r: bool)
        ensures
            r == has_prop(self.props_m(), "RRULE"@),
    {
        proof {
            crate::icalwrap::lemma_first_prop_has(self.props_m(), "RRULE"@);
        }
        get_property_by_name_vec(&self.props, "RRULE").is_some()
    }

    /// Whether the view is a recurrence master still to be expanded:
    /// it carries a rule and is not reinterpreted at an instance.
    pub fn has_recur(&self) -> (r: bool)
        ensures
            r == (has_prop(self.props_m(), "RRULE"@) && self.instance_timestamp is None),
    {
        self.is_recur() && self.instance_timestamp.is_none()
    }

    /// Whether the view is the recurrence master itself: it carries a
    /// rule and is not reinterpreted at an instance.
    pub fn is_recur_master(&self) -> (r: bool)
        ensures
            r == (has_prop(self.props_m(), "RRULE"@) && self.instance_timestamp is None),
    {
        self.is_recur() && self.instance_timestamp.is_none()
    }

    /// The event's start: the instance timestamp when the view carries
    /// one, else the start property.
    pub fn get_dtstart(&self) -> (r: Option<IcalTime>)
        requires
            self.wf(),
        ensures
            match self.instance_timestamp {
                Some(t) => r is Some && r->0.wf() && !r->0.is_date && r->0.timestamp()
                    == t.timestamp(),
                None => r == event_start_time(self.props_m()) && (r is Some ==> r->0.wf()),
            },
    {
        match &self.instance_timestamp {
            Some(t) => Some(IcalTime::from_timestamp(t.get_timestamp())),
            None => match get_property_by_name_vec(&self.props, "DTSTART") {
                Some(p) => IcalTime::parse(p.value.as_str()),
                None => None,
            },
        }
    }

    /// The event's start as a calendar value: the instance timestamp
    /// when the view carries one, else the start property.
    pub fn get_dtstart_ical(&self) -> (r: Option<IcalTime>)
        requires
            self.wf(),
        ensures
            match self.instance_timestamp {
                Some(t) => r is Some && r->0.wf() && !r->0.is_date && r->0.timestamp()
                    == t.timestamp(),
                None => r == event_start_time(self.props_m()) && (r is Some ==> r->0.wf()),
            },
    {
        self.get_dtstart()
    }

    /// The event's start as a timestamp.
    pub fn get_dtstart_unix(&self) -> (r: Option<u64>)
        requires
            self.wf(),
        ensures
            match self.instance_timestamp {
                Some(t) => r == Some(t.timestamp() as u64),
                None => match event_start_time(self.props_m()) {
                    Some(t) => r == Some(t.timestamp() as u64),
                    None => r is None,
                },
            },
    {
        match self.get_dtstart() {
            Some(t) => Some(t.get_timestamp()),
            None => None,
        }
    }

    /// The event's start as a calendar date.
    pub fn get_dtstart_date(&self) -> (r: Option<IcalTime>)
        requires
            self.wf(),
        ensures
            match self.get_dtstart_spec() {
                Some(t) => r is Some && r->0.is_date && r->0.year == t.year && r->0.month
                    == t.month && r->0.day == t.day,
                None => r is None,
            },
    {
        match self.get_dtstart() {
            Some(t) => {
                proof {
                    match self.instance_timestamp {
                        Some(it) => {
                            let spec_t = self.get_dtstart_spec()->0;
                            assert(spec_t.timestamp() == it.timestamp());
                            crate::icaltime::lemma_timestamp_injective(t, spec_t);
                        },
                        None => {},
                    }
                }
                Some(t.to_date())
            },
            None => None,
        }
    }

    /// The start the view denotes, at the specification level.
    pub open spec fn get_dtstart_spec(&self) -> Option<IcalTime> {
        match self.instance_timestamp {
            Some(t) => Some(
                IcalTime {
                    year: t.year,
                    month: t.month,
                    day: t.day,
                    hour: t.hour,
                    minute: t.minute,
                    second: t.second,
                    is_date: false,
                },
            ),
            None => event_start_time(self.props_m()),
        }
    }

    /// The end the view denotes: for an instance, its start moved by
    /// the master's duration; else the end property.
    pub open spec fn get_dtend_ts_spec(&self) -> Option<int> {
        match self.instance_timestamp {
            Some(t) => Some(t.timestamp() + event_duration(self.props_m())),
            None => match event_end_time(self.props_m()) {
                Some(t) => Some(t.timestamp()),
                None => None,
            },
        }
    }

    /// The event's end as a timestamp: occurrences keep the master's
    /// duration rather than its absolute end.
    pub fn get_dtend_unix(&self) -> (r: Option<u64>)
        requires
            self.wf(),
        ensures
            match self.get_dtend_ts_spec() {
                Some(ts) => r is Some && r->0 == ts,
                None => r is None,
            },
    {
        match &self.instance_timestamp {
            Some(t) => {
                let base = t.get_timestamp();
                let dur = self.get_duration_secs();
                proof {
                    crate::dateutil::lemma_days_before_year_mono(1970, 10000);
                    assert(ts_limit() <= 366 * 8030 * 86400);
                }
                Some(base + dur)
            },
            None => match get_property_by_name_vec(&self.props, "DTEND") {
                Some(p) => match IcalTime::parse(p.value.as_str()) {
                    Some(t) => Some(t.get_timestamp()),
                    None => None,
                },
                None => None,
            },
        }
    }

    /// The master's duration in seconds.
    pub fn get_duration_secs(&self) -> (r: u64)
        requires
            self.wf(),
        ensures
            r == event_duration(self.props_m()),
            r < ts_limit(),
    {
        proof {
            crate::dateutil::lemma_days_before_year_mono(1970, 10000);
        }
        let start = match get_property_by_name_vec(&self.props, "DTSTART") {
            Some(p) => IcalTime::parse(p.value.as_str()),
            None => None,
        };
        let end = match get_property_by_name_vec(&self.props, "DTEND") {
            Some(p) => IcalTime::parse(p.value.as_str()),
            None => None,
        };
        match (start, end) {
            (Some(a), Some(b)) => {
                let ta = a.get_timestamp();
                let tb = b.get_timestamp();
                if ta <= tb {
                    tb - ta
                } else {
                    0
                }
            },
            _ => 0,
        }
    }

    /// The event's end as a date-time value.
    pub fn get_dtend(&self) -> (r: Option<IcalTime>)
        requires
            self.wf(),
        ensures
            match self.get_dtend_ts_spec() {
                Some(ts) => if 0 <= ts < ts_limit() {
                    r is Some && r->0.wf() && !r->0.is_date && r->0.timestamp() == ts
                } else {
                    r is None
                },
                None => r is None,
            },
    {
        proof {
            crate::dateutil::lemma_days_before_year_mono(1970, 10000);
        }
        let limit = crate::dateutil::days_before_year_x(10000) as u64 * 86400;
        match self.get_dtend_unix() {
            Some(ts) => if ts < limit {
                Some(IcalTime::from_timestamp(ts))
            } else {
                None
            },
            None => None,
        }
    }

    /// The event's end as a calendar date.
    pub fn get_dtend_date(&self) -> (r: Option<IcalTime>)
        requires
            self.wf(),
        ensures
            match self.get_dtend_ts_spec() {
                Some(ts) => if 0 <= ts < ts_limit() {
                    r is Some && r->0.is_date && r->0.wf() && crate::dateutil::days_of_ymd(
                        r->0.year as int,
                        r->0.month as int,
                        r->0.day as int,
                    ) == ts / 86400
                } else {
                    r is None
                },
                None => r is None,
            },
    {
        match self.get_dtend() {
            Some(t) => {
                proof {
                    let ts = self.get_dtend_ts_spec()->0;
                    let days = crate::dateutil::days_of_ymd(
                        t.year as int,
                        t.month as int,
                        t.day as int,
                    );
                    let tod = t.hour as int * 3600 + t.minute as int * 60 + t.second as int;
                    assert(0 <= tod < 86400);
                    assert(t.timestamp() == days * 86400 + tod);
                    assert(days == ts / 86400) by (nonlinear_arith)
                        requires
                            ts == days * 86400 + tod,
                            0 <= tod < 86400,
                    ;
                }
                Some(t.to_date())
            },
            None => None,
        }
    }

    /// The last day on which the event is relevant. An all-day event's
    /// end date is exclusive by convention, so for those the day before
    /// the end is returned; a timed event's own end day is returned.
    /// The first modelled day is its own last relevant day.
    pub fn get_last_relevant_date(&self) -> (r: Option<IcalTime>)
        requires
            self.wf(),
        ensures
            match self.get_dtend_ts_spec() {
                Some(ts) => if 0 <= ts < ts_limit() {
                    r is Some && r->0.is_date
                } else {
                    r is None
                },
                None => r is None,
            },
            ({
                let allday = match event_start_time(self.props_m()) {
                    Some(t) => t.is_date,
                    None => false,
                };
                match (r, self.get_dtend_ts_spec()) {
                    (Some(d), Some(ts)) => {
                        &&& d.wf()
                        &&& (!allday ==> crate::dateutil::days_of_ymd(
                            d.year as int,
                            d.month as int,
                            d.day as int,
                        ) == ts / 86400)
                        &&& (allday && ts / 86400 > 0 ==> crate::dateutil::days_of_ymd(
                            d.year as int,
                            d.month as int,
                            d.day as int,
                        ) == ts / 86400 - 1)
                    },
                    _ => true,
                }
            }),
    {
        let allday = self.is_allday();
        match self.get_dtend_date() {
            Some(d) => {
                if allday {
                    if d.year == 1970 && d.month == 1 && d.day == 1 {
                        Some(d)
                    } else {
                        Some(d.pred())
                    }
                } else {
                    Some(d)
                }
            },
            None => None,
        }
    }

    /// The window the expansion of this master is bounded to: from its
    /// own start through one year past its own end.
    pub fn recur_window_end_x(&self) -> (r: u64)
        requires
            self.wf(),
        ensures
            r == recur_window_end(self.props_m()),
            r < ts_limit(),
    {
        proof {
            crate::dateutil::lemma_days_before_year_mono(1970, 10000);
        }
        let base = match get_property_by_name_vec(&self.props, "DTEND") {
            Some(p) => match IcalTime::parse(p.value.as_str()) {
                Some(t) => Some(t),
                None => None,
            },
            None => None,
        };
        let base = match base {
            Some(t) => Some(t),
            None => match get_property_by_name_vec(&self.props, "DTSTART") {
                Some(p) => IcalTime::parse(p.value.as_str()),
                None => None,
            },
        };
        let limit = crate::dateutil::days_before_year_x(10000) as u64 * 86400;
        match base {
            Some(t) => {
                if t.year + 1 > 9999 {
                    limit - 1
                } else {
                    let dim = crate::dateutil::days_in_month_x(t.year + 1, t.month);
                    let d = if t.day <= dim {
                        t.day
                    } else {
                        dim
                    };
                    let shifted = IcalTime {
                        year: t.year + 1,
                        month: t.month,
                        day: d,
                        hour: t.hour,
                        minute: t.minute,
                        second: t.second,
                        is_date: t.is_date,
                    };
                    shifted.get_timestamp()
                }
            },
            None => 0,
        }
    }

    /// The concrete occurrence start times of this master within its
    /// bounded window, ascending and without duplicates. Only rules of
    /// the evaluated subset (frequency, interval, count, end bound)
    /// are expanded: a master whose rule text lies outside it yields
    /// no occurrences here.
    #[verifier::rlimit(50)]
    #[verifier::loop_isolation(false)]
    pub fn get_recur_datetimes(&self) -> (r: Vec<IcalTime>)
        requires
            self.wf(),
        ensures
            match (event_rrule(self.props_m()), event_start_time(self.props_m())) {
                (Some(rule), Some(st)) => {
                    &&& is_expansion(
                        rule,
                        st,
                        recur_window_end(self.props_m()),
                        r@.map_values(|t: IcalTime| t.timestamp() as u64),
                    )
                    &&& forall|i: int| 0 <= i < r@.len() ==> (#[trigger] r@[i]).wf()
                        && !r@[i].is_date
                },
                _ => r@.len() == 0,
            },
    {
        let rule = match get_property_by_name_vec(&self.props, "RRULE") {
            Some(p) => crate::recur::parse_rrule(p.value.as_str()),
            None => None,
        };
        let start = match get_property_by_name_vec(&self.props, "DTSTART") {
            Some(p) => IcalTime::parse(p.value.as_str()),
            None => None,
        };
        match (rule, start) {
            (Some(rule), Some(st)) => {
                let wend = self.recur_window_end_x();
                let raw = recur_expand(&rule, &st, wend);
                let mut out: Vec<IcalTime> = Vec::new();
                let mut i: usize = 0;
                proof {
                    assert(out@.map_values(|t: IcalTime| t.timestamp() as u64) =~= raw@.subrange(
                        0,
                        0,
                    ));
                }
                while i < raw.len()
                    invariant
                        0 <= i <= raw@.len(),
                        self.wf(),
                        rule.wf(),
                        st.wf(),
                        wend < ts_limit(),
                        is_expansion(rule, st, wend, raw@),
                        forall|j: int| 0 <= j < raw@.len() ==> raw@[j] == occ_ts(rule, st, j),
                        out@.len() == i,
                        forall|j: int| 0 <= j < i ==> (#[trigger] out@[j]).wf() && !out@[j].is_date
                            && out@[j].timestamp() == raw@[j],
                    decreases raw@.len() - i,
                {
                    proof {
                        assert(raw@[i as int] == occ_ts(rule, st, i as int));
                        assert(raw@[i as int] <= expand_bound(rule, wend));
                        assert(expand_bound(rule, wend) <= wend);
                    }
                    out.push(IcalTime::from_timestamp(raw[i]));
                    i = i + 1;
                }
                proof {
                    assert(out@.map_values(|t: IcalTime| t.timestamp() as u64) =~= raw@);
                }
                out
            },
            _ => Vec::new(),
        }
    }

    /// One view per occurrence of this master, each a reinterpretation
    /// at that occurrence's start; the carried timestamps are exactly
    /// the bounded expansion.
    #[verifier::loop_isolation(false)]
    pub fn get_recur_instances(&self) -> (r: Vec<IcalVEvent>)
        requires
            self.wf(),
        ensures
            match (event_rrule(self.props_m()), event_start_time(self.props_m())) {
                (Some(rule), Some(st)) => {
                    &&& is_expansion(
                        rule,
                        st,
                        recur_window_end(self.props_m()),
                        r@.map_values(
                            |e: IcalVEvent| e.instance_timestamp->0.timestamp() as u64,
                        ),
                    )
                    &&& forall|i: int| 0 <= i < r@.len() ==> (#[trigger] r@[i]).props_m()
                        == self.props_m() && r@[i].instance_timestamp is Some
                        && r@[i].instance_timestamp->0.wf()
                },
                _ => r@.len() == 0,
            },
    {
        let times = self.get_recur_datetimes();
        let mut out: Vec<IcalVEvent> = Vec::new();
        let mut i: usize = 0;
        while i < times.len()
            invariant
                0 <= i <= times@.len(),
                self.wf(),
                out@.len() == i,
                forall|j: int| 0 <= j < times@.len() ==> (#[trigger] times@[j]).wf(),
                forall|j: int| 0 <= j < i ==> (#[trigger] out@[j]).props_m() == self.props_m()
                    && out@[j].instance_timestamp == Some(times@[j]),
            decreases times@.len() - i,
        {
            proof {
                match (event_rrule(self.props_m()), event_start_time(self.props_m())) {
                    (Some(rule), Some(st)) => {},
                    _ => {
                        assert(times@.len() == 0);
                        assert(false);
                    },
                }
            }
            out.push(self.with_internal_timestamp(times[i]));
            i = i + 1;
        }
        proof {
            match (event_rrule(self.props_m()), event_start_time(self.props_m())) {
                (Some(rule), Some(st)) => {
                    assert(out@.map_values(
                        |e: IcalVEvent| e.instance_timestamp->0.timestamp() as u64,
                    ) =~= times@.map_values(|t: IcalTime| t.timestamp() as u64));
                },
                _ => {
                    assert(times@.len() == 0);
                },
            }
        }
        out
    }

    /// Whether the view is a truthful recurrence reading: the master
    /// itself, a plain event without rule or instance, or an instance
    /// whose timestamp is truly an occurrence of the master within its
    /// window. An instance of a master whose rule text lies outside
    /// the evaluated subset is reported untruthful, since no occurrence
    /// set is computed for it.
    #[verifier::rlimit(50)]
    #[verifier::loop_isolation(false)]
    pub fn is_recur_valid(&self) -> (r: bool)
        requires
            self.wf(),
        ensures
            r == ({
                ||| (has_prop(self.props_m(), "RRULE"@) && self.instance_timestamp is None)
                ||| (!has_prop(self.props_m(), "RRULE"@) && self.instance_timestamp is None)
                ||| (self.instance_timestamp is Some && has_prop(self.props_m(), "RRULE"@)
                    && (match (event_rrule(self.props_m()), event_start_time(self.props_m())) {
                    (Some(rule), Some(st)) => exists|k: int|
                        occ_emitted(rule, st, recur_window_end(self.props_m()), k) && occ_ts(
                            rule,
                            st,
                            k,
                        ) == self.instance_timestamp->0.timestamp(),
                    _ => false,
                }))
            }),
    {
        if self.is_recur_master() {
            return true;
        }
        if self.is_recur() {
            match &self.instance_timestamp {
                Some(t) => {
                    let times = self.get_recur_datetimes();
                    let target = t.get_timestamp();
                    let mut i: usize = 0;
                    let ghost tsm = times@.map_values(|x: IcalTime| x.timestamp() as u64);
                    proof {
                        lemma_recur_window_end_bound(self.props_m());
                        match (event_rrule(self.props_m()), event_start_time(self.props_m())) {
                            (Some(rule), Some(st)) => {
                                lemma_expansion_membership(
                                    rule,
                                    st,
                                    recur_window_end(self.props_m()),
                                    tsm,
                                    target as int,
                                );
                            },
                            _ => {},
                        }
                    }
                    while i < times.len()
                        invariant
                            0 <= i <= times@.len(),
                            self.wf(),
                            tsm == times@.map_values(|x: IcalTime| x.timestamp() as u64),
                            forall|j: int| 0 <= j < i ==> tsm[j] != target,
                            forall|j: int| 0 <= j < times@.len() ==> (#[trigger] times@[j]).wf(),
                            target == self.instance_timestamp->0.timestamp(),
                        decreases times@.len() - i,
                    {
                        let tv = times[i].get_timestamp();
                        proof {
                            assert(tsm[i as int] == times@[i as int].timestamp() as u64);
                        }
                        if tv == target {
                            proof {
                                assert(exists|j: int| 0 <= j < tsm.len() && tsm[j] == target);
                            }
                            return true;
                        }
                        i = i + 1;
                    }
                    proof {
                        if exists|j: int| 0 <= j < tsm.len() && tsm[j] == target as int {
                            let j = choose|j: int| 0 <= j < tsm.len() && tsm[j] == target as int;
                            assert(false);
                        }
                    }
                    return false;
                },
                None => {
                    return false;
                },
            }
        }
        self.instance_timestamp.is_none()
    }
}

/// A full copy of a calendar document.
pub fn clone_cal(cal: &IcalVCalendar) -> (r: IcalVCalendar)
    ensures
        r.cal_props_model() == cal.cal_props_model(),
        r.events_models() == cal.events_models(),
        r.path == cal.path,
        r.instance_timestamp == cal.instance_timestamp,
        cal.wf() ==> r.wf(),
{
    let mut events: Vec<Vec<IcalProperty>> = Vec::new();
    let mut i: usize = 0;
    while i < cal.events.len()
        invariant
            0 <= i <= cal.events@.len(),
            events@.len() == i,
            forall|j: int| 0 <= j < i ==> #[trigger] events@[j]@ == cal.events@[j]@,
        decreases cal.events@.len() - i,
    {
        events.push(clone_props(&cal.events[i]));
        i = i + 1;
    }
    let path = match &cal.path {
        Some(p) => Some(p.clone()),
        None => None,
    };
    let r = IcalVCalendar {
        properties: clone_props(&cal.properties),
        events,
        path,
        instance_timestamp: cal.instance_timestamp,
    };
    proof {
        assert(r.events_models() =~= cal.events_models());
    }
    r
}

} // verus!
