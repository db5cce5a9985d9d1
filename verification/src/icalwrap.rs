use vstd::prelude::*;

use crate::codec::{
    doc_lines, events_model, join_crlf, lemma_parse_render_text, lemma_spec_parse_state_wf,
    pinit, render_cal_lines, render_cal_text, render_events_lines, render_event_lines,
    render_props_lines, run_machine, spec_parse_state, split_lines, unfold_lines_x,
    begin_vcal_line, begin_vevent_line, end_vevent_line, events_model_wf_seq,
};
use crate::component::{
    clone_props, first_prop_value, get_property_by_name_vec, has_prop, is_name_char, props_model,
    props_model_wf, render_prop, IcalProperty, PropModel,
};
use crate::errors::{KhError, KhResult};
use crate::icaltime::IcalTime;
use crate::strutil::str_eq;

verus! {

// The calendar document: an owned model of one parsed calendar file,
// its calendar-level properties and its events.

/// The validation messages one property contributes.
pub open spec fn prop_msgs(p: PropModel) -> Seq<Seq<char>> {
    (if p.name == "X-LIC-ERROR"@ {
        seq![p.value]
    } else {
        Seq::empty()
    }) + (if p.value.len() == 0 {
        seq!["empty value for property "@ + p.name]
    } else {
        Seq::empty()
    })
}

/// The validation messages of a property list, in order.
pub open spec fn props_msgs(ms: Seq<PropModel>) -> Seq<Seq<char>>
    decreases ms.len(),
{
    if ms.len() == 0 {
        Seq::empty()
    } else {
        props_msgs(ms.drop_last()) + prop_msgs(ms.last())
    }
}

/// The validation messages of an event list, in order.
pub open spec fn events_msgs(es: Seq<Seq<PropModel>>) -> Seq<Seq<char>>
    decreases es.len(),
{
    if es.len() == 0 {
        Seq::empty()
    } else {
        events_msgs(es.drop_last()) + props_msgs(es.last())
    }
}

/// Every validation message of a document: required calendar properties
/// first, then the per-property messages in document order.
pub open spec fn cal_msgs(cp: Seq<PropModel>, es: Seq<Seq<PropModel>>) -> Seq<Seq<char>> {
    (if !has_prop(cp, "VERSION"@) {
        seq!["missing required property VERSION"@]
    } else {
        Seq::empty()
    }) + (if !has_prop(cp, "PRODID"@) {
        seq!["missing required property PRODID"@]
    } else {
        Seq::empty()
    }) + props_msgs(cp) + events_msgs(es)
}

/// Whether some event carries a unique identifier.
pub open spec fn some_event_has_uid(es: Seq<Seq<PropModel>>) -> bool {
    exists|i: int| 0 <= i < es.len() && has_prop(#[trigger] es[i], "UID"@)
}

/// One parsed calendar document. It owns its tree of properties and
/// events; views into it copy what they need, so no view can outlive
/// or corrupt the document.
#[derive(Debug, Clone)]
pub struct IcalVCalendar {
    pub properties: Vec<IcalProperty>,
    pub events: Vec<Vec<IcalProperty>>,
    pub path: Option<String>,
    pub instance_timestamp: Option<IcalTime>,
}

impl IcalVCalendar {
    /// The models of the calendar-level properties.
    pub open spec fn cal_props_model(self) -> Seq<PropModel> {
        props_model(self.properties@)
    }

    /// The models of the events' property lists.
    pub open spec fn events_models(self) -> Seq<Seq<PropModel>> {
        events_model(self.events@)
    }

    /// Every stored property is well formed, and so is the instance
    /// timestamp when present.
    pub open spec fn wf(self) -> bool {
        &&& props_model_wf(self.cal_props_model())
        &&& events_model_wf_seq(self.events_models())
        &&& match self.instance_timestamp {
            Some(t) => t.wf(),
            None => true,
        }
    }

    /// A document that passed parsing and validation: well formed, no
    /// validation messages, and some event carries an identifier.
    pub open spec fn valid(self) -> bool {
        &&& self.wf()
        &&& cal_msgs(self.cal_props_model(), self.events_models()) == Seq::<Seq<char>>::empty()
        &&& some_event_has_uid(self.events_models())
    }

    /// Reads a calendar document from its wire text. Exactly the
    /// documents whose structural walk completes, whose validation
    /// yields no message and in which some event carries an identifier
    /// are accepted; the first fault in that order is reported.
    #[verifier::loop_isolation(false)]
    pub fn from_str(str: &str, path: Option<String>) -> (r: KhResult<IcalVCalendar>)
        ensures
            ({
                let st = spec_parse_state(str@);
                match r {
                    Ok(cal) => {
                        &&& st.err == 0
                        &&& st.phase == 3
                        &&& cal_msgs(st.cal_props, st.events) == Seq::<Seq<char>>::empty()
                        &&& some_event_has_uid(st.events)
                        &&& cal.cal_props_model() == st.cal_props
                        &&& cal.events_models() == st.events
                        &&& cal.path == path
                        &&& cal.instance_timestamp is None
                        &&& cal.wf()
                        &&& cal.valid()
                    },
                    Err(e) => match e {
                        KhError::Malformed => st.err == 1 || (st.err == 0 && st.phase != 3),
                        KhError::WrongKind(k) => st.err == 2 && k@ == st.wrong,
                        KhError::Validation(ms) => st.err == 0 && st.phase == 3
                            && ms@.map_values(|m: String| m@) == cal_msgs(st.cal_props, st.events)
                            && cal_msgs(st.cal_props, st.events).len() > 0,
                        KhError::MissingUid => st.err == 0 && st.phase == 3 && cal_msgs(
                            st.cal_props,
                            st.events,
                        ) == Seq::<Seq<char>>::empty() && !some_event_has_uid(st.events),
                        _ => false,
                    },
                }
            }),
    {
        let ghost st_spec = spec_parse_state(str@);
        proof {
            lemma_spec_parse_state_wf(str@);
            crate::codec::lemma_prun_bounds(doc_lines(str@), pinit());
        }
        let lines = split_lines(str);
        let unfolded = unfold_lines_x(lines);
        let st = run_machine(&unfolded);
        proof {
            assert(st.model() == st_spec);
        }
        if st.err == 1 {
            return Err(KhError::Malformed);
        }
        if st.err == 2 {
            return Err(KhError::WrongKind(st.wrong));
        }
        if st.phase != 3 {
            return Err(KhError::Malformed);
        }
        let msgs = validate(&st.cal_props, &st.events);
        if msgs.len() > 0 {
            return Err(KhError::Validation(msgs));
        }
        if !any_event_has_uid(&st.events) {
            return Err(KhError::MissingUid);
        }
        Ok(
            IcalVCalendar {
                properties: st.cal_props,
                events: st.events,
                path,
                instance_timestamp: None,
            },
        )
    }

    /// Writes the document back to its wire text.
    #[verifier::loop_isolation(false)]
    pub fn to_string(&self) -> (r: String)
        requires
            self.wf(),
        ensures
            r@ == render_cal_text(self.cal_props_model(), self.events_models()),
    {
        let mut lines: Vec<String> = Vec::new();
        proof {
            reveal_strlit("BEGIN:VCALENDAR");
            reveal_strlit("END:VCALENDAR");
            reveal_strlit("BEGIN:VEVENT");
            reveal_strlit("END:VEVENT");
        }
        lines.push("BEGIN:VCALENDAR".to_owned());
        proof {
            assert(lines@.map_values(|l: String| l@) =~= seq![begin_vcal_line()]);
        }
        let mut i: usize = 0;
        while i < self.properties.len()
            invariant
                0 <= i <= self.properties@.len(),
                lines@.map_values(|l: String| l@) == seq![begin_vcal_line()]
                    + render_props_lines(props_model(self.properties@.subrange(0, i as int))),
            decreases self.properties@.len() - i,
        {
            lines.push(self.properties[i].as_ical_string());
            proof {
                assert(props_model(self.properties@.subrange(0, i as int + 1)) =~= props_model(
                    self.properties@.subrange(0, i as int),
                ).push(self.properties@[i as int].model()));
                assert(render_props_lines(props_model(self.properties@.subrange(0, i as int + 1)))
                    =~= render_props_lines(
                    props_model(self.properties@.subrange(0, i as int)),
                ).push(render_prop(self.properties@[i as int].model())));
                let prior = seq![begin_vcal_line()] + render_props_lines(
                    props_model(self.properties@.subrange(0, i as int)),
                );
                assert(lines@.map_values(|l: String| l@) =~= prior.push(
                    render_prop(self.properties@[i as int].model()),
                ));
                assert(lines@.map_values(|l: String| l@) =~= seq![begin_vcal_line()]
                    + render_props_lines(
                    props_model(self.properties@.subrange(0, i as int + 1)),
                ));
            }
            i = i + 1;
        }
        proof {
            assert(self.properties@.subrange(0, self.properties@.len() as int)
                =~= self.properties@);
        }
        let ghost head = seq![begin_vcal_line()] + render_props_lines(
            props_model(self.properties@),
        );
        let mut j: usize = 0;
        while j < self.events.len()
            invariant
                0 <= j <= self.events@.len(),
                lines@.map_values(|l: String| l@) == head + render_events_lines(
                    events_model(self.events@.subrange(0, j as int)),
                ),
            decreases self.events@.len() - j,
        {
            let ghost before = lines@.map_values(|l: String| l@);
            lines.push("BEGIN:VEVENT".to_owned());
            let ev = &self.events[j];
            let mut k: usize = 0;
            while k < ev.len()
                invariant
                    0 <= k <= ev@.len(),
                    ev == &self.events[j as int],
                    lines@.map_values(|l: String| l@) == before + seq![begin_vevent_line()]
                        + render_props_lines(props_model(ev@.subrange(0, k as int))),
                decreases ev@.len() - k,
            {
                lines.push(ev[k].as_ical_string());
                proof {
                    assert(props_model(ev@.subrange(0, k as int + 1)) =~= props_model(
                        ev@.subrange(0, k as int),
                    ).push(ev@[k as int].model()));
                    assert(render_props_lines(props_model(ev@.subrange(0, k as int + 1)))
                        =~= render_props_lines(props_model(ev@.subrange(0, k as int))).push(
                        render_prop(ev@[k as int].model()),
                    ));
                    let prior = before + seq![begin_vevent_line()] + render_props_lines(
                        props_model(ev@.subrange(0, k as int)),
                    );
                    assert(lines@.map_values(|l: String| l@) =~= prior.push(
                        render_prop(ev@[k as int].model()),
                    ));
                    assert(lines@.map_values(|l: String| l@) =~= before + seq![
                        begin_vevent_line(),
                    ] + render_props_lines(props_model(ev@.subrange(0, k as int + 1))));
                }
                k = k + 1;
            }
            lines.push("END:VEVENT".to_owned());
            proof {
                assert(ev@.subrange(0, ev@.len() as int) =~= ev@);
                let em = events_model(self.events@.subrange(0, j as int + 1));
                assert(em.drop_last() =~= events_model(self.events@.subrange(0, j as int)));
                assert(em.last() == props_model(self.events@[j as int]@));
                let pre_end = before + seq![begin_vevent_line()] + render_props_lines(
                    props_model(ev@),
                );
                assert(lines@.map_values(|l: String| l@) =~= pre_end.push(end_vevent_line()));
                assert(lines@.map_values(|l: String| l@) =~= before + render_event_lines(
                    props_model(ev@),
                ));
                assert(lines@.map_values(|l: String| l@) =~= head + render_events_lines(em));
            }
            j = j + 1;
        }
        lines.push("END:VCALENDAR".to_owned());
        proof {
            assert(self.events@.subrange(0, self.events@.len() as int) =~= self.events@);
            assert(lines@.map_values(|l: String| l@) =~= render_cal_lines(
                self.cal_props_model(),
                self.events_models(),
            ));
        }
        join_crlf_x(&lines)
    }
}

/// Joins lines with the wire terminator.
#[verifier::loop_isolation(false)]
fn join_crlf_x(lines: &Vec<String>) -> (r: String)
    ensures
        r@ == join_crlf(lines@.map_values(|l: String| l@)),
{
    let mut out = String::new();
    let mut i: usize = 0;
    proof {
        assert(join_crlf(lines@.map_values(|l: String| l@).subrange(0, 0)) =~= Seq::<
            char,
        >::empty());
    }
    while i < lines.len()
        invariant
            0 <= i <= lines@.len(),
            out@ == join_crlf(lines@.map_values(|l: String| l@).subrange(0, i as int)),
        decreases lines@.len() - i,
    {
        out.append(lines[i].as_str());
        proof {
            reveal_strlit("\r\n");
        }
        out.append("\r\n");
        proof {
            let m = lines@.map_values(|l: String| l@);
            assert(m.subrange(0, i as int + 1).drop_last() =~= m.subrange(0, i as int));
            assert(m.subrange(0, i as int + 1).last() == m[i as int]);
            assert(("\r\n")@ =~= seq!['\r', '\n']);
            assert(out@ =~= join_crlf(m.subrange(0, i as int + 1)));
        }
        i = i + 1;
    }
    proof {
        let m = lines@.map_values(|l: String| l@);
        assert(m.subrange(0, m.len() as int) =~= m);
    }
    out
}

/// Collects every validation message of a document, in specification
/// order.
#[verifier::loop_isolation(false)]
fn validate(cp: &Vec<IcalProperty>, es: &Vec<Vec<IcalProperty>>) -> (r: Vec<String>)
    ensures
        r@.map_values(|m: String| m@) == cal_msgs(props_model(cp@), events_model(es@)),
{
    let mut msgs: Vec<String> = Vec::new();
    if get_property_by_name_vec(cp, "VERSION").is_none() {
        proof {
            lemma_first_prop_has(props_model(cp@), "VERSION"@);
        }
        msgs.push("missing required property VERSION".to_owned());
    } else {
        proof {
            lemma_first_prop_has(props_model(cp@), "VERSION"@);
        }
    }
    if get_property_by_name_vec(cp, "PRODID").is_none() {
        proof {
            lemma_first_prop_has(props_model(cp@), "PRODID"@);
        }
        msgs.push("missing required property PRODID".to_owned());
    } else {
        proof {
            lemma_first_prop_has(props_model(cp@), "PRODID"@);
        }
    }
    let ghost intro = msgs@.map_values(|m: String| m@);
    proof {
        reveal_strlit("missing required property VERSION");
        reveal_strlit("missing required property PRODID");
        assert(intro =~= (if !has_prop(props_model(cp@), "VERSION"@) {
            seq!["missing required property VERSION"@]
        } else {
            Seq::<Seq<char>>::empty()
        }) + (if !has_prop(props_model(cp@), "PRODID"@) {
            seq!["missing required property PRODID"@]
        } else {
            Seq::<Seq<char>>::empty()
        }));
    }
    collect_props_msgs(cp, &mut msgs);
    let ghost mid = msgs@.map_values(|m: String| m@);
    let mut j: usize = 0;
    proof {
        assert(events_msgs(events_model(es@.subrange(0, 0))) =~= Seq::<Seq<char>>::empty());
        assert(mid + events_msgs(events_model(es@.subrange(0, 0))) =~= mid);
    }
    while j < es.len()
        invariant
            0 <= j <= es@.len(),
            msgs@.map_values(|m: String| m@) == mid + events_msgs(
                events_model(es@.subrange(0, j as int)),
            ),
        decreases es@.len() - j,
    {
        collect_props_msgs(&es[j], &mut msgs);
        proof {
            let em = events_model(es@.subrange(0, j as int + 1));
            assert(em.drop_last() =~= events_model(es@.subrange(0, j as int)));
            assert(em.last() == props_model(es@[j as int]@));
            assert(msgs@.map_values(|m: String| m@) =~= mid + events_msgs(em));
        }
        j = j + 1;
    }
    proof {
        assert(es@.subrange(0, es@.len() as int) =~= es@);
        assert(msgs@.map_values(|m: String| m@) =~= cal_msgs(
            props_model(cp@),
            events_model(es@),
        ));
    }
    msgs
}

/// Appends the messages of one property list.
#[verifier::loop_isolation(false)]
fn collect_props_msgs(ps: &Vec<IcalProperty>, msgs: &mut Vec<String>)
    ensures
        final(msgs)@.map_values(|m: String| m@) == old(msgs)@.map_values(|m: String| m@)
            + props_msgs(props_model(ps@)),
{
    let ghost base = msgs@.map_values(|m: String| m@);
    let mut i: usize = 0;
    proof {
        assert(props_msgs(props_model(ps@.subrange(0, 0))) =~= Seq::<Seq<char>>::empty());
        assert(base + props_msgs(props_model(ps@.subrange(0, 0))) =~= base);
    }
    while i < ps.len()
        invariant
            0 <= i <= ps@.len(),
            msgs@.map_values(|m: String| m@) == base + props_msgs(
                props_model(ps@.subrange(0, i as int)),
            ),
        decreases ps@.len() - i,
    {
        let p = &ps[i];
        let ghost before = msgs@.map_values(|m: String| m@);
        if str_eq(p.name.as_str(), "X-LIC-ERROR") {
            msgs.push(p.value.clone());
        }
        let plen = p.value.as_str().unicode_len();
        if plen == 0 {
            let mut m = "empty value for property ".to_owned();
            m.append(p.name.as_str());
            msgs.push(m);
        }
        proof {
            reveal_strlit("X-LIC-ERROR");
            reveal_strlit("empty value for property ");
            let pm = props_model(ps@.subrange(0, i as int + 1));
            assert(pm.drop_last() =~= props_model(ps@.subrange(0, i as int)));
            assert(pm.last() == ps@[i as int].model());
            assert(msgs@.map_values(|m: String| m@) =~= before + prop_msgs(
                ps@[i as int].model(),
            ));
            assert(msgs@.map_values(|m: String| m@) =~= base + props_msgs(pm));
        }
        i = i + 1;
    }
    proof {
        assert(ps@.subrange(0, ps@.len() as int) =~= ps@);
    }
}

/// Whether some event holds a unique identifier property.
#[verifier::loop_isolation(false)]
fn any_event_has_uid(es: &Vec<Vec<IcalProperty>>) -> (r: bool)
    ensures
        r == some_event_has_uid(events_model(es@)),
{
    let mut j: usize = 0;
    while j < es.len()
        invariant
            0 <= j <= es@.len(),
            forall|i: int| 0 <= i < j ==> !has_prop(#[trigger] events_model(es@)[i], "UID"@),
        decreases es@.len() - j,
    {
        let found = get_property_by_name_vec(&es[j], "UID");
        proof {
            lemma_first_prop_has(props_model(es@[j as int]@), "UID"@);
        }
        if found.is_some() {
            proof {
                assert(has_prop(events_model(es@)[j as int], "UID"@));
            }
            return true;
        }
        j = j + 1;
    }
    proof {
        if some_event_has_uid(events_model(es@)) {
            let i = choose|i: int|
                0 <= i < events_model(es@).len() && has_prop(
                    #[trigger] events_model(es@)[i],
                    "UID"@,
                );
            assert(false);
        }
    }
    false
}

/// The first value under a name exists exactly when the name occurs.
pub proof fn lemma_first_prop_has(ms: Seq<PropModel>, name: Seq<char>)
    ensures
        first_prop_value(ms, name) is Some <==> has_prop(ms, name),
    decreases ms.len(),
{
    if ms.len() > 0 {
        if ms[0].name == name {
            assert(has_prop(ms, name));
        } else {
            lemma_first_prop_has(ms.drop_first(), name);
            if has_prop(ms, name) {
                let i = choose|i: int| 0 <= i < ms.len() && ms[i].name == name;
                assert(ms.drop_first()[i - 1].name == name);
                assert(has_prop(ms.drop_first(), name));
            }
            if has_prop(ms.drop_first(), name) {
                let i = choose|i: int|
                    0 <= i < ms.drop_first().len() && ms.drop_first()[i].name == name;
                assert(ms[i + 1].name == name);
            }
        }
    }
}

/// The round trip of a document through its wire text: for any valid
/// calendar document, reading back the written text succeeds and gives
/// a document with the same calendar properties and the same events,
/// and hence the same unique identifier, start, end, summary, description,
/// location and recurrence rule text for every event, since every
/// projection is a function of those property lists.
pub proof fn lemma_parse_serialize_round_trip(cal: IcalVCalendar)
    requires
        cal.valid(),
    ensures
        ({
            let st = spec_parse_state(render_cal_text(cal.cal_props_model(), cal.events_models()));
            &&& st.err == 0
            &&& st.phase == 3
            &&& st.cal_props == cal.cal_props_model()
            &&& st.events == cal.events_models()
            &&& cal_msgs(st.cal_props, st.events) == Seq::<Seq<char>>::empty()
            &&& some_event_has_uid(st.events)
        }),
{
    lemma_parse_render_text(cal.cal_props_model(), cal.events_models());
}

} // verus!

// --- identifiers, paths and stamps -------------------------------------

verus! {

/// The unique identifier text of an event: its first `UID` value, or
/// empty when it has none.
pub open spec fn uid_string(e: Seq<PropModel>) -> Seq<char> {
    match first_prop_value(e, "UID"@) {
        Some(v) => v,
        None => Seq::empty(),
    }
}

/// An event's properties with its identifier replaced: every `UID`
/// removed and one with the given value appended.
pub open spec fn set_uid_props(e: Seq<PropModel>, uid: Seq<char>) -> Seq<PropModel> {
    crate::component::props_without(e, "UID"@).push(
        PropModel { name: "UID"@, params: Seq::empty(), value: uid },
    )
}

/// An event's properties with its stamp replaced: every `DTSTAMP`
/// removed and one with the given instant appended.
pub open spec fn set_dtstamp_props(e: Seq<PropModel>, t: IcalTime) -> Seq<PropModel> {
    crate::component::props_without(e, "DTSTAMP"@).push(
        PropModel {
            name: "DTSTAMP"@,
            params: Seq::empty(),
            value: crate::icaltime::render_time(t),
        },
    )
}

/// The identifiers of an event list, missing ones as the empty text.
pub open spec fn uids_set(es: Seq<Seq<PropModel>>) -> Set<Seq<char>>
    decreases es.len(),
{
    if es.len() == 0 {
        Set::empty()
    } else {
        uids_set(es.drop_last()).insert(uid_string(es.last()))
    }
}

/// The events kept by an identifier filter: those without any
/// identifier, and those whose identifier is the given one.
pub open spec fn keep_uid_events(es: Seq<Seq<PropModel>>, uid: Seq<char>) -> Seq<Seq<PropModel>>
    decreases es.len(),
{
    if es.len() == 0 {
        Seq::empty()
    } else {
        let prev = keep_uid_events(es.drop_last(), uid);
        if !has_prop(es.last(), "UID"@) || uid_string(es.last()) == uid {
            prev.push(es.last())
        } else {
            prev
        }
    }
}

/// The index of the last `/` of a path, or a negative value.
pub open spec fn last_slash_idx(p: Seq<char>) -> int
    decreases p.len(),
{
    if p.len() == 0 {
        -1
    } else if p.last() == '/' {
        p.len() - 1
    } else {
        last_slash_idx(p.drop_last())
    }
}

/// The path with its file name replaced by `name` plus the calendar
/// file suffix.
pub open spec fn with_file_name_spec(p: Seq<char>, name: Seq<char>) -> Seq<char> {
    p.subrange(0, last_slash_idx(p) + 1) + name + ".ics"@
}

/// The name of the directory holding the file of a path, if any.
pub open spec fn calendar_name_spec(p: Seq<char>) -> Option<Seq<char>> {
    let j = last_slash_idx(p);
    if j < 0 {
        None
    } else {
        let k = last_slash_idx(p.subrange(0, j));
        if j - k - 1 > 0 {
            Some(p.subrange(k + 1, j))
        } else {
            None
        }
    }
}

/// The last-slash index lies between -1 and the length.
pub proof fn lemma_last_slash_bounds(p: Seq<char>)
    ensures
        -1 <= last_slash_idx(p) < p.len(),
        last_slash_idx(p) >= 0 ==> p[last_slash_idx(p)] == '/',
    decreases p.len(),
{
    if p.len() > 0 && p.last() != '/' {
        lemma_last_slash_bounds(p.drop_last());
        if last_slash_idx(p) >= 0 {
            assert(p.drop_last()[last_slash_idx(p)] == p[last_slash_idx(p)]);
        }
    }
}

/// Whether a file path lies in the named calendar: the file's parent
/// directory path ends with the requested name at a directory
/// boundary, so a nested name such as one holding a `/` matches its
/// sub-calendar. An empty name matches every path.
pub open spec fn path_in_calendar_spec(p: Seq<char>, name: Seq<char>) -> bool {
    let j = last_slash_idx(p);
    let dir = if j >= 0 {
        p.subrange(0, j)
    } else {
        Seq::<char>::empty()
    };
    ||| name.len() == 0
    ||| dir == name
    ||| (dir.len() > name.len() && dir.subrange(dir.len() - name.len(), dir.len() as int) == name
        && dir[dir.len() - name.len() - 1] == '/')
}

/// Decides whether a file path lies in the named calendar.
#[verifier::loop_isolation(false)]
pub fn path_in_calendar(p: &str, name: &str) -> (r: bool)
    ensures
        r == path_in_calendar_spec(p@, name@),
{
    let nlen = name.unicode_len();
    if nlen == 0 {
        return true;
    }
    proof {
        lemma_last_slash_bounds(p@);
    }
    let dlen = match find_last_slash(p) {
        Some(j) => j,
        None => 0,
    };
    let dir = p.substring_char(0, dlen);
    proof {
        if last_slash_idx(p@) >= 0 {
            assert(dir@ =~= p@.subrange(0, last_slash_idx(p@)));
        } else {
            assert(dir@ =~= Seq::<char>::empty());
        }
    }
    if dlen == nlen {
        let r = str_eq(dir, name);
        proof {
            if r {
                assert(dir@ == name@);
            }
        }
        return r;
    }
    if dlen < nlen {
        return false;
    }
    let tail = p.substring_char(dlen - nlen, dlen);
    proof {
        let suffix = dir@.subrange(dir@.len() - name@.len(), dir@.len() as int);
        assert(tail@.len() == suffix.len());
        assert forall|k: int| 0 <= k < name@.len() implies tail@[k] == suffix[k] by {
            assert(tail@[k] == p@[dlen - nlen + k]);
            assert(suffix[k] == dir@[dir@.len() - name@.len() + k]);
            assert(dir@[dir@.len() - name@.len() + k] == p@[dlen - nlen + k]);
        }
        assert(tail@ =~= suffix);
    }
    let sep = p.get_char(dlen - nlen - 1);
    str_eq(tail, name) && sep == '/'
}

/// The index of the last `/`, found by scanning from the end.
#[verifier::loop_isolation(false)]
fn find_last_slash(p: &str) -> (r: Option<usize>)
    ensures
        match r {
            Some(i) => i == last_slash_idx(p@) && i < p@.len(),
            None => last_slash_idx(p@) < 0,
        },
{
    let n = p.unicode_len();
    let mut i: usize = n;
    proof {
        assert(p@.subrange(0, n as int) =~= p@);
    }
    while i > 0
        invariant
            0 <= i <= n,
            n == p@.len(),
            last_slash_idx(p@) == last_slash_idx(p@.subrange(0, i as int)),
        decreases i,
    {
        let c = p.get_char(i - 1);
        proof {
            let pre = p@.subrange(0, i as int);
            assert(pre.last() == p@[i as int - 1]);
            assert(pre.drop_last() =~= p@.subrange(0, i as int - 1));
        }
        if c == '/' {
            return Some(i - 1);
        }
        i = i - 1;
    }
    proof {
        assert(p@.subrange(0, 0) =~= Seq::<char>::empty());
    }
    None
}

impl IcalVCalendar {
    /// The identifier of the first event, or the empty text when there
    /// is no event or it has no identifier.
    pub fn get_uid(&self) -> (r: String)
        ensures
            r@ == if self.events_models().len() > 0 {
                uid_string(self.events_models()[0])
            } else {
                Seq::<char>::empty()
            },
    {
        if self.events.len() == 0 {
            return String::new();
        }
        match get_property_by_name_vec(&self.events[0], "UID") {
            Some(p) => p.get_value(),
            None => String::new(),
        }
    }

    /// How many distinct identifiers the document's events carry, a
    /// missing identifier counting as the empty text.
    #[verifier::loop_isolation(false)]
    pub fn unique_uid_count(&self) -> (r: usize)
        ensures
            r == uids_set(self.events_models()).len(),
    {
        let mut seen: Vec<String> = Vec::new();
        let mut j: usize = 0;
        proof {
            assert(uids_set(self.events_models().subrange(0, 0)) =~= Set::<Seq<char>>::empty());
            assert(seen@.map_values(|s: String| s@).to_set() =~= Set::<Seq<char>>::empty());
        }
        while j < self.events.len()
            invariant
                0 <= j <= self.events@.len(),
                seen@.map_values(|s: String| s@).to_set() == uids_set(
                    self.events_models().subrange(0, j as int),
                ),
                seen@.map_values(|s: String| s@).no_duplicates(),
            decreases self.events@.len() - j,
        {
            let uid = match get_property_by_name_vec(&self.events[j], "UID") {
                Some(p) => p.get_value(),
                None => String::new(),
            };
            proof {
                assert(uid@ == uid_string(self.events_models()[j as int]));
            }
            let mut found = false;
            let mut k: usize = 0;
            while k < seen.len()
                invariant
                    0 <= k <= seen@.len(),
                    found <==> exists|m: int| 0 <= m < k && seen@[m]@ == uid@,
                decreases seen@.len() - k,
            {
                if str_eq(seen[k].as_str(), uid.as_str()) {
                    found = true;
                }
                k = k + 1;
            }
            let ghost old_map = seen@.map_values(|s: String| s@);
            if !found {
                seen.push(uid);
                proof {
                    assert(seen@.map_values(|s: String| s@) =~= old_map.push(
                        uid_string(self.events_models()[j as int]),
                    ));
                    assert(!old_map.contains(uid_string(self.events_models()[j as int]))) by {
                        if old_map.contains(uid_string(self.events_models()[j as int])) {
                            let m = choose|m: int|
                                0 <= m < old_map.len() && old_map[m] == uid_string(
                                    self.events_models()[j as int],
                                );
                            assert(seen@[m]@ == old_map[m]);
                            assert(false);
                        }
                    }
                }
            }
            proof {
                let sub1 = self.events_models().subrange(0, j as int + 1);
                assert(sub1.drop_last() =~= self.events_models().subrange(0, j as int));
                assert(sub1.last() == self.events_models()[j as int]);
                assert(uids_set(sub1) == uids_set(
                    self.events_models().subrange(0, j as int),
                ).insert(uid@));
                if found {
                    let m = choose|m: int| 0 <= m < seen@.len() && seen@[m]@ == uid@;
                    assert(seen@.map_values(|s: String| s@)[m] == uid@);
                    assert(seen@.map_values(|s: String| s@).contains(uid@));
                    assert(seen@.map_values(|s: String| s@).to_set().contains(uid@));
                    assert forall|x: Seq<char>|
                        seen@.map_values(|s: String| s@).to_set().contains(x) <==> uids_set(
                            sub1,
                        ).contains(x) by {
                        assert(uids_set(sub1).contains(x) <==> (x == uid@ || uids_set(
                            self.events_models().subrange(0, j as int),
                        ).contains(x)));
                    }
                    assert(seen@.map_values(|s: String| s@).to_set() =~= uids_set(sub1));
                } else {
                    let new_map = seen@.map_values(|s: String| s@);
                    assert(new_map == old_map.push(uid@));
                    assert forall|x: Seq<char>|
                        new_map.to_set().contains(x) <==> uids_set(sub1).contains(x) by {
                        if new_map.contains(x) {
                            let m = choose|m: int| 0 <= m < new_map.len() && new_map[m] == x;
                            if m < old_map.len() {
                                assert(old_map[m] == x);
                                assert(old_map.contains(x));
                            } else {
                                assert(x == uid@);
                            }
                        }
                        if uids_set(sub1).contains(x) {
                            if x == uid@ {
                                assert(new_map[new_map.len() - 1] == x);
                                assert(new_map.contains(x));
                            } else {
                                assert(old_map.to_set().contains(x));
                                assert(old_map.contains(x));
                                let m = choose|m: int|
                                    0 <= m < old_map.len() && old_map[m] == x;
                                assert(new_map[m] == x);
                                assert(new_map.contains(x));
                            }
                        }
                    }
                    assert(seen@.map_values(|s: String| s@).to_set() =~= uids_set(sub1));
                }
            }
            j = j + 1;
        }
        proof {
            assert(self.events_models().subrange(0, self.events_models().len() as int)
                =~= self.events_models());
            seen@.map_values(|s: String| s@).unique_seq_to_set();
        }
        seen.len()
    }

    /// The caller-visible warning condition on the principal event:
    /// more than one distinct identifier among the document's events.
    pub fn has_multiple_uids(&self) -> (r: bool)
        ensures
            r == (uids_set(self.events_models()).len() > 1),
    {
        self.unique_uid_count() > 1
    }

    /// Reinterprets the whole document as one occurrence at the given
    /// instant.
    pub fn with_internal_timestamp(self, datetime: IcalTime) -> (r: IcalVCalendar)
        ensures
            r.properties == self.properties,
            r.events == self.events,
            r.path == self.path,
            r.instance_timestamp == Some(datetime),
    {
        IcalVCalendar { instance_timestamp: Some(datetime), ..self }
    }

    /// The document's source path as text; empty when it has none.
    pub fn get_path_as_string(&self) -> (r: String)
        ensures
            r@ == match self.path {
                Some(p) => p@,
                None => Seq::<char>::empty(),
            },
    {
        match &self.path {
            Some(p) => p.clone(),
            None => String::new(),
        }
    }

    /// The document's source path.
    pub fn get_path(&self) -> (r: Option<&String>)
        ensures
            match r {
                Some(p) => self.path == Some(*p),
                None => self.path is None,
            },
    {
        self.path.as_ref()
    }

    /// The name of the calendar directory the document lies in: the
    /// name of its file's parent directory.
    pub fn get_calendar_name(&self) -> (r: Option<String>)
        ensures
            match (r, &self.path) {
                (Some(n), Some(p)) => calendar_name_spec(p@) == Some(n@),
                (None, Some(p)) => calendar_name_spec(p@) is None,
                (None, None) => true,
                (Some(n), None) => false,
            },
    {
        let p = match &self.path {
            Some(p) => p,
            None => {
                return None;
            },
        };
        let j = match find_last_slash(p.as_str()) {
            Some(j) => j,
            None => {
                return None;
            },
        };
        let head = p.as_str().substring_char(0, j);
        let k = find_last_slash(head);
        let start = match k {
            Some(k) => k + 1,
            None => 0,
        };
        proof {
            assert(head@ =~= p@.subrange(0, j as int));
            lemma_last_slash_bounds(head@);
            if start > 0 {
                assert(head@.subrange(start as int, j as int) =~= p@.subrange(
                    start as int,
                    j as int,
                ));
            } else {
                assert(head@.subrange(0, j as int) =~= p@.subrange(0, j as int));
            }
        }
        if j - start > 0 {
            let name = head.substring_char(start, j).to_owned();
            proof {
                assert(name@ =~= p@.subrange(start as int, j as int));
            }
            Some(name)
        } else {
            None
        }
    }
}

} // verus!

// --- rewriting documents -----------------------------------------------

verus! {

/// A fresh property under a plain upper-case name is well formed for
/// any carriage-return-free value.
proof fn lemma_plain_prop_wf(name: Seq<char>, value: Seq<char>)
    requires
        name == "UID"@ || name == "DTSTAMP"@,
        crate::component::value_ok(value),
    ensures
        crate::component::prop_model_wf(
            PropModel { name, params: Seq::empty(), value },
        ),
{
    reveal_strlit("UID");
    reveal_strlit("DTSTAMP");
    reveal_strlit("BEGIN");
    reveal_strlit("END");
    if name == "UID"@ {
        assert forall|i: int| 0 <= i < name.len() implies is_name_char(name[i]) by {
            if i == 0 {
                assert(name[0] == 'U');
            } else if i == 1 {
                assert(name[1] == 'I');
            } else {
                assert(name[2] == 'D');
            }
        }
        assert(name[0] == 'U' && ("END"@)[0] == 'E' && ("BEGIN"@).len() == 5);
    } else {
        assert forall|i: int| 0 <= i < name.len() implies is_name_char(name[i]) by {
            if i == 0 {
                assert(name[0] == 'D');
            } else if i == 1 {
                assert(name[1] == 'T');
            } else if i == 2 {
                assert(name[2] == 'S');
            } else if i == 3 {
                assert(name[3] == 'T');
            } else if i == 4 {
                assert(name[4] == 'A');
            } else if i == 5 {
                assert(name[5] == 'M');
            } else {
                assert(name[6] == 'P');
            }
        }
        assert(name.len() == 7 && ("END"@).len() == 3 && ("BEGIN"@).len() == 5);
    }
}

/// Replaces an event's identifier properties.
#[verifier::loop_isolation(false)]
fn set_uid_props_x(e: &Vec<IcalProperty>, uid: &str) -> (r: Vec<IcalProperty>)
    ensures
        props_model(r@) == set_uid_props(props_model(e@), uid@),
        crate::component::props_wf(e@) && crate::component::value_ok(uid@) ==> crate::component::props_wf(r@),
{
    let mut out = clone_props(e);
    crate::component::remove_property_all(&mut out, "UID");
    let prop = IcalProperty::new("UID".to_owned(), String::new(), uid.to_owned());
    out.push(prop);
    proof {
        reveal_strlit("UID");
        assert(props_model(out@) =~= set_uid_props(props_model(e@), uid@));
        if crate::component::props_wf(e@) && crate::component::value_ok(uid@) {
            crate::component::lemma_props_without_wf(props_model(e@), "UID"@);
            lemma_plain_prop_wf("UID"@, uid@);
            let m = props_model(out@);
            assert forall|i: int| 0 <= i < m.len() implies crate::component::prop_model_wf(
                #[trigger] m[i],
            ) by {
                if i < m.len() - 1 {
                    assert(m[i] == crate::component::props_without(props_model(e@), "UID"@)[i]);
                } else {
                    assert(m[i] == PropModel { name: "UID"@, params: Seq::empty(), value: uid@ })
                        by {
                        assert(m[i].name =~= "UID"@);
                        assert(m[i].params =~= Seq::<char>::empty());
                    }
                }
            }
        }
    }
    out
}

impl IcalVCalendar {
    /// Renames every event's identifier to the given one, and moves the
    /// logical file name along. Succeeds exactly when the document does
    /// not hold two distinct identifiers.
    #[verifier::loop_isolation(false)]
    pub fn with_uid(self, uid: &str) -> (r: KhResult<IcalVCalendar>)
        requires
            crate::component::value_ok(uid@),
        ensures
            match r {
                Ok(c) => {
                    &&& uids_set(self.events_models()).len() <= 1
                    &&& c.cal_props_model() == self.cal_props_model()
                    &&& c.events_models() == self.events_models().map_values(
                        |e: Seq<PropModel>| set_uid_props(e, uid@),
                    )
                    &&& c.instance_timestamp == self.instance_timestamp
                    &&& (match (c.path, self.path) {
                        (Some(np), Some(op)) => np@ == with_file_name_spec(op@, uid@),
                        (None, None) => true,
                        _ => false,
                    })
                    &&& self.wf() ==> c.wf()
                },
                Err(e) => e == KhError::MultipleEvents && uids_set(self.events_models()).len()
                    > 1,
            },
    {
        if self.unique_uid_count() > 1 {
            return Err(KhError::MultipleEvents);
        }
        let mut events: Vec<Vec<IcalProperty>> = Vec::new();
        let mut j: usize = 0;
        while j < self.events.len()
            invariant
                0 <= j <= self.events@.len(),
                events@.len() == j,
                forall|i: int| 0 <= i < j ==> props_model(#[trigger] events@[i]@) == set_uid_props(
                    self.events_models()[i],
                    uid@,
                ),
                crate::component::value_ok(uid@) && self.wf() ==> forall|i: int|
                    0 <= i < j ==> crate::component::props_wf(#[trigger] events@[i]@),
            decreases self.events@.len() - j,
        {
            proof {
                if self.wf() {
                    assert(self.events_models()[j as int] == props_model(
                        self.events@[j as int]@,
                    ));
                }
            }
            events.push(set_uid_props_x(&self.events[j], uid));
            j = j + 1;
        }
        let path = match &self.path {
            Some(p) => Some(with_file_name_x(p.as_str(), uid)),
            None => None,
        };
        let r = IcalVCalendar {
            properties: self.properties,
            events,
            path,
            instance_timestamp: self.instance_timestamp,
        };
        proof {
            assert(r.events_models() =~= self.events_models().map_values(
                |e: Seq<PropModel>| set_uid_props(e, uid@),
            ));
            if self.wf() {
                assert(events_model_wf_seq(r.events_models())) by {
                    assert(forall|i: int|
                        0 <= i < r.events_models().len() ==> r.events_models()[i] == props_model(
                            #[trigger] r.events@[i]@,
                        ));
                }
            }
        }
        Ok(r)
    }

    /// Sets the first event's stamp property to the given instant.
    #[verifier::loop_isolation(false)]
    pub fn with_dtstamp(self, t: IcalTime) -> (r: IcalVCalendar)
        requires
            t.wf(),
        ensures
            r.cal_props_model() == self.cal_props_model(),
            r.path == self.path,
            r.instance_timestamp == self.instance_timestamp,
            self.events_models().len() == 0 ==> r.events_models() == self.events_models(),
            self.events_models().len() > 0 ==> r.events_models() == self.events_models().update(
                0,
                set_dtstamp_props(self.events_models()[0], t),
            ),
            self.wf() ==> r.wf(),
    {
        if self.events.len() == 0 {
            proof {
                assert(self.events_models() =~= self.events_models());
            }
            return self;
        }
        let mut events = self.events;
        let first = &events[0];
        let mut out = clone_props(first);
        crate::component::remove_property_all(&mut out, "DTSTAMP");
        let value = t.format();
        let prop = IcalProperty::new("DTSTAMP".to_owned(), String::new(), value);
        out.push(prop);
        let ghost e0 = props_model(self.events@[0]@);
        proof {
            reveal_strlit("DTSTAMP");
            assert(props_model(out@) =~= set_dtstamp_props(e0, t));
        }
        events.set(0, out);
        let r = IcalVCalendar {
            properties: self.properties,
            events,
            path: self.path,
            instance_timestamp: self.instance_timestamp,
        };
        proof {
            assert(r.events_models() =~= self.events_models().update(
                0,
                set_dtstamp_props(e0, t),
            ));
            if self.wf() {
                crate::component::lemma_props_without_wf(e0, "DTSTAMP"@);
                crate::icaltime::lemma_render_time_clean(t);
                lemma_plain_prop_wf("DTSTAMP"@, crate::icaltime::render_time(t));
                let m = set_dtstamp_props(e0, t);
                assert(props_model_wf(e0)) by {
                    assert(e0 == self.events_models()[0]);
                }
                assert forall|i: int| 0 <= i < m.len() implies crate::component::prop_model_wf(
                    #[trigger] m[i],
                ) by {
                    if i < m.len() - 1 {
                        assert(m[i] == crate::component::props_without(e0, "DTSTAMP"@)[i]);
                    } else {
                        assert(m[i] == PropModel {
                            name: "DTSTAMP"@,
                            params: Seq::empty(),
                            value: crate::icaltime::render_time(t),
                        }) by {
                            assert(m[i].name =~= "DTSTAMP"@);
                            assert(m[i].params =~= Seq::<char>::empty());
                        }
                    }
                }
                assert(events_model_wf_seq(r.events_models())) by {
                    assert(forall|i: int|
                        0 <= i < r.events_models().len() ==> (#[trigger] r.events_models()[i])
                            == (if i == 0 {
                            m
                        } else {
                            self.events_models()[i]
                        }));
                }
            }
        }
        r
    }

    /// Sets the first event's stamp property to the present instant,
    /// whatever the clock reads.
    pub fn with_dtstamp_now(self) -> (r: IcalVCalendar)
        ensures
            exists|t: IcalTime|
                {
                    &&& t.wf()
                    &&& r.cal_props_model() == self.cal_props_model()
                    &&& r.path == self.path
                    &&& r.instance_timestamp == self.instance_timestamp
                    &&& (self.events_models().len() == 0 ==> r.events_models()
                        == self.events_models())
                    &&& (self.events_models().len() > 0 ==> r.events_models()
                        == self.events_models().update(
                        0,
                        set_dtstamp_props(self.events_models()[0], t),
                    ))
                },
            self.wf() ==> r.wf(),
    {
        proof {
            crate::dateutil::lemma_days_before_year_mono(1970, 10000);
        }
        let limit = crate::dateutil::days_before_year_x(10000) as u64 * 86400;
        let mut now = now_unix();
        if now >= limit {
            now = limit - 1;
        }
        let t = IcalTime::from_timestamp(now);
        let r = self.with_dtstamp(t);
        r
    }

    /// Removes every event whose identifier differs from the given one;
    /// events without any identifier stay.
    #[verifier::loop_isolation(false)]
    pub fn with_keep_uid(self, uid_to_keep: &str) -> (r: IcalVCalendar)
        ensures
            r.cal_props_model() == self.cal_props_model(),
            r.path == self.path,
            r.instance_timestamp == self.instance_timestamp,
            r.events_models() == keep_uid_events(self.events_models(), uid_to_keep@),
            self.wf() ==> r.wf(),
    {
        let mut events: Vec<Vec<IcalProperty>> = Vec::new();
        let mut j: usize = 0;
        proof {
            assert(keep_uid_events(self.events_models().subrange(0, 0), uid_to_keep@) =~= Seq::<
                Seq<PropModel>,
            >::empty());
            assert(events_model(events@) =~= Seq::<Seq<PropModel>>::empty());
        }
        while j < self.events.len()
            invariant
                0 <= j <= self.events@.len(),
                events_model(events@) == keep_uid_events(
                    self.events_models().subrange(0, j as int),
                    uid_to_keep@,
                ),
                self.wf() ==> events_model_wf_seq(events_model(events@)),
            decreases self.events@.len() - j,
        {
            let ghost sub1 = self.events_models().subrange(0, j as int + 1);
            proof {
                assert(sub1.drop_last() =~= self.events_models().subrange(0, j as int));
                assert(sub1.last() == self.events_models()[j as int]);
                lemma_first_prop_has(props_model(self.events@[j as int]@), "UID"@);
            }
            let ev = &self.events[j];
            let keep = match get_property_by_name_vec(ev, "UID") {
                Some(p) => str_eq(p.value.as_str(), uid_to_keep),
                None => true,
            };
            if keep {
                events.push(clone_props(ev));
                proof {
                    assert(events_model(events@) =~= keep_uid_events(sub1, uid_to_keep@));
                    if self.wf() {
                        assert(events_model_wf_seq(events_model(events@))) by {
                            assert(forall|i: int|
                                0 <= i < events@.len() - 1 ==> events_model(events@)[i]
                                    == events_model(events@.drop_last())[i]);
                        }
                    }
                }
            } else {
                proof {
                    assert(events_model(events@) =~= keep_uid_events(sub1, uid_to_keep@));
                }
            }
            j = j + 1;
        }
        proof {
            assert(self.events_models().subrange(0, self.events_models().len() as int)
                =~= self.events_models());
        }
        IcalVCalendar {
            properties: self.properties,
            events,
            path: self.path,
            instance_timestamp: self.instance_timestamp,
        }
    }
}

/// Replaces the file-name part of a path.
#[verifier::loop_isolation(false)]
fn with_file_name_x(path: &str, name: &str) -> (r: String)
    ensures
        r@ == with_file_name_spec(path@, name@),
{
    proof {
        lemma_last_slash_bounds(path@);
    }
    let n = path.unicode_len();
    let mut out = match find_last_slash(path) {
        Some(j) => path.substring_char(0, j + 1).to_owned(),
        None => String::new(),
    };
    proof {
        assert(out@ =~= path@.subrange(0, last_slash_idx(path@) + 1));
    }
    out.append(name);
    proof {
        reveal_strlit(".ics");
    }
    out.append(".ics");
    proof {
        assert(out@ =~= with_file_name_spec(path@, name@));
    }
    out
}

/// Relies on `std::time::SystemTime::now` and `duration_since`: the
/// whole seconds of the present instant past 1970-01-01T00:00:00 in
/// Coordinated Universal Time, or zero for a clock set before it.
#[verifier::external_body]
fn now_unix() -> (r: u64) {
    match std::time::SystemTime::now().duration_since(std::time::UNIX_EPOCH) {
        Ok(d) => d.as_secs(),
        Err(_) => 0,
    }
}

impl crate::component::IcalComponent for IcalVCalendar {
    open spec fn comp_props(&self) -> Seq<IcalProperty> {
        self.properties@
    }

    fn get_properties_all(&self) -> (r: Vec<IcalProperty>) {
        clone_props(&self.properties)
    }

    fn get_properties_by_name(&self, name: &str) -> (r: Vec<IcalProperty>) {
        crate::component::get_properties_by_name_vec(&self.properties, name)
    }

    fn get_property_by_name(&self, name: &str) -> (r: Option<IcalProperty>) {
        get_property_by_name_vec(&self.properties, name)
    }
}

} // verus!

// --- views into a document ---------------------------------------------

verus! {

impl IcalVCalendar {
    /// One view per event of the document, in document order, each
    /// sharing the document's content.
    #[verifier::loop_isolation(false)]
    pub fn events_iter(&self) -> (r: Vec<crate::icalvevent::IcalVEvent>)
        ensures
            r@.len() == self.events_models().len(),
            forall|i: int| 0 <= i < r@.len() ==> (#[trigger] r@[i]).props_m()
                == self.events_models()[i] && r@[i].instance_timestamp is None,
            self.wf() ==> forall|i: int| 0 <= i < r@.len() ==> (#[trigger] r@[i]).wf(),
    {
        let mut out: Vec<crate::icalvevent::IcalVEvent> = Vec::new();
        let mut i: usize = 0;
        while i < self.events.len()
            invariant
                0 <= i <= self.events@.len(),
                out@.len() == i,
                forall|j: int| 0 <= j < i ==> (#[trigger] out@[j]).props_m()
                    == self.events_models()[j] && out@[j].instance_timestamp is None,
                self.wf() ==> forall|j: int| 0 <= j < i ==> (#[trigger] out@[j]).wf(),
            decreases self.events@.len() - i,
        {
            let parent = Box::new(crate::icalvevent::clone_cal(self));
            let ev = crate::icalvevent::IcalVEvent {
                props: clone_props(&self.events[i]),
                parent: Some(parent),
                instance_timestamp: None,
            };
            proof {
                if self.wf() {
                    assert(self.events_models()[i as int] == props_model(
                        self.events@[i as int]@,
                    ));
                }
            }
            out.push(ev);
            i = i + 1;
        }
        out
    }

    /// The first event of the document; a view with no properties when
    /// the document holds no event.
    pub fn get_first_event(&self) -> (r: crate::icalvevent::IcalVEvent)
        ensures
            self.events_models().len() > 0 ==> r.props_m() == self.events_models()[0],
            self.events_models().len() == 0 ==> r.props_m() == Seq::<PropModel>::empty(),
            r.instance_timestamp is None,
            self.wf() ==> r.wf(),
    {
        let props = if self.events.len() > 0 {
            clone_props(&self.events[0])
        } else {
            Vec::new()
        };
        let parent = Box::new(crate::icalvevent::clone_cal(self));
        let r = crate::icalvevent::IcalVEvent {
            props,
            parent: Some(parent),
            instance_timestamp: None,
        };
        proof {
            if self.events@.len() > 0 {
                assert(self.events_models()[0] == props_model(self.events@[0]@));
            } else {
                assert(props_model(Seq::<IcalProperty>::empty()) =~= Seq::<PropModel>::empty());
            }
        }
        r
    }

    /// The principal event: the first event, reinterpreted at the
    /// document's instance timestamp when one is set.
    pub fn get_principal_event(&self) -> (r: crate::icalvevent::IcalVEvent)
        ensures
            self.events_models().len() > 0 ==> r.props_m() == self.events_models()[0],
            self.events_models().len() == 0 ==> r.props_m() == Seq::<PropModel>::empty(),
            r.instance_timestamp == self.instance_timestamp,
            self.wf() ==> r.wf(),
    {
        let ev = self.get_first_event();
        match &self.instance_timestamp {
            Some(t) => ev.with_internal_timestamp(*t),
            None => ev,
        }
    }
}

impl crate::icalvevent::IcalVEvent {
    /// The index line of this view: its start timestamp, ten digits
    /// wide, and the owning document's path.
    pub fn get_khaleesi_line(&self) -> (r: Option<String>)
        requires
            self.wf(),
        ensures
            match r {
                Some(line) => exists|ts: u64, p: Seq<char>|
                    line@ == #[trigger] crate::utils::khaleesi_line_spec(ts, p) && (match self
                        .get_dtstart_spec() {
                        Some(t) => ts == t.timestamp(),
                        None => false,
                    }) && (match self.parent {
                        Some(cal) => match cal.path {
                            Some(pp) => pp@ == p,
                            None => false,
                        },
                        None => false,
                    }),
                None => self.get_dtstart_spec() is None || (match self.parent {
                    Some(cal) => cal.path is None,
                    None => true,
                }),
            },
    {
        let ts = match self.get_dtstart_unix() {
            Some(ts) => ts,
            None => {
                return None;
            },
        };
        let path = match self.get_parent() {
            Some(cal) => match cal.get_path() {
                Some(p) => p.clone(),
                None => {
                    return None;
                },
            },
            None => {
                return None;
            },
        };
        let line = crate::utils::format_khaleesi_line(ts, path.as_str());
        proof {
            assert(line@ == crate::utils::khaleesi_line_spec(ts, path@));
            match self.instance_timestamp {
                Some(t) => {
                    crate::icaltime::lemma_timestamp_bound(t);
                    crate::dateutil::lemma_days_before_year_mono(1970, 10000);
                    assert(crate::icaltime::ts_limit() <= 366 * 8030 * 86400);
                    let sp = self.get_dtstart_spec()->0;
                    assert(sp.timestamp() == t.timestamp());
                    assert(ts == sp.timestamp());
                },
                None => {
                    match crate::icalvevent::event_start_time(self.props_m()) {
                        Some(t) => {
                            crate::icaltime::lemma_spec_parse_time_wf(
                                match first_prop_value(self.props_m(), "DTSTART"@) {
                                    Some(v) => v,
                                    None => Seq::empty(),
                                },
                            );
                            crate::icaltime::lemma_timestamp_bound(t);
                            crate::dateutil::lemma_days_before_year_mono(1970, 10000);
                            assert(crate::icaltime::ts_limit() <= 366 * 8030 * 86400);
                        },
                        None => {},
                    }
                },
            }
            match &self.parent {
                Some(cal) => {
                    assert(cal.path == Some(path));
                },
                None => {
                    assert(false);
                },
            }
        }
        Some(line)
    }
}

} // verus!
