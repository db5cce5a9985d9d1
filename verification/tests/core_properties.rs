use khaleesi::dateutil::date_from_str;
use khaleesi::dateutil::week_from_str_begin;
use khaleesi::dateutil::week_from_str_end;
use khaleesi::errors::KhError;
use khaleesi::icaltime::IcalTime;
use khaleesi::icalwrap::IcalVCalendar;
use khaleesi::index::{bucket_key, get_bucket_name, rebuild_index, scan_index, BucketKey};
use khaleesi::khevent::KhEvent;
use khaleesi::select;
use khaleesi::selectors;
use khaleesi::utils::{format_khaleesi_line, parse_khaleesi_line};
use khaleesi::component::IcalComponent;

const TEST_EVENT_ONE_MEETING: &str = "BEGIN:VCALENDAR\nVERSION:2.0\nPRODID:-//ABC Corporation//NONSGML My Product//EN\nBEGIN:VEVENT\nUID:onemeeting@example.com\nDTSTAMP:19970901T130000Z\nDTSTART:19970905T090000Z\nDTEND:19970905T180000Z\nSUMMARY:Annual Employee Review\nLOCATION:LDB Lobby\nDESCRIPTION:Discuss how we can test c&s interoperability\\nusing iCalendar and other IETF standards.\nEND:VEVENT\nEND:VCALENDAR";

const TEST_EVENT_RECUR: &str = "BEGIN:VCALENDAR\nVERSION:2.0\nPRODID:-//ABC Corporation//NONSGML My Product//EN\nBEGIN:VEVENT\nUID:recurring@example.com\nDTSTAMP:20180101T120000Z\nDTSTART;VALUE=DATE:20181011\nDTEND;VALUE=DATE:20181013\nRRULE:FREQ=WEEKLY;COUNT=10\nSUMMARY:Weekly standup\nEND:VEVENT\nEND:VCALENDAR";

const TEST_EVENT_ALLDAY: &str = "BEGIN:VCALENDAR\nVERSION:2.0\nPRODID:-//ABC Corporation//NONSGML My Product//EN\nBEGIN:VEVENT\nUID:allday@example.com\nDTSTAMP:20070423T123432Z\nDTSTART;VALUE=DATE:20070628\nDTEND;VALUE=DATE:20070630\nSUMMARY:Two whole days\nEND:VEVENT\nEND:VCALENDAR";

fn event_file(uid: &str, dtstart: &str) -> String {
    let mut s = String::from("BEGIN:VCALENDAR\nVERSION:2.0\nPRODID:-//TEST//EN\nBEGIN:VEVENT\nUID:");
    s.push_str(uid);
    s.push_str("\nDTSTAMP:20180101T000000Z\nDTSTART:");
    s.push_str(dtstart);
    s.push_str("\nSUMMARY:Entry ");
    s.push_str(uid);
    s.push_str("\nEND:VEVENT\nEND:VCALENDAR");
    s
}

#[test]
fn round_trip_preserves_event_fields() {
    let d = IcalVCalendar::from_str(TEST_EVENT_ONE_MEETING, None).unwrap();
    let text = d.to_string();
    let d2 = IcalVCalendar::from_str(text.as_str(), None).unwrap();

    let e1 = d.get_principal_event();
    let e2 = d2.get_principal_event();
    assert_eq!(e1.get_uid(), e2.get_uid());
    assert_eq!(e1.get_dtstart(), e2.get_dtstart());
    assert_eq!(e1.get_dtend_unix(), e2.get_dtend_unix());
    assert_eq!(e1.get_summary(), e2.get_summary());
    assert_eq!(e1.get_description(), e2.get_description());
    assert_eq!(e1.get_location(), e2.get_location());
}

#[test]
fn round_trip_preserves_rrule_text() {
    let d = IcalVCalendar::from_str(TEST_EVENT_RECUR, None).unwrap();
    let d2 = IcalVCalendar::from_str(d.to_string().as_str(), None).unwrap();
    let r1 = d.get_principal_event().get_property_by_name("RRULE").unwrap().get_value();
    let r2 = d2.get_principal_event().get_property_by_name("RRULE").unwrap().get_value();
    assert_eq!("FREQ=WEEKLY;COUNT=10", r1);
    assert_eq!(r1, r2);
}

#[test]
fn recurrence_weekly_count_ten() {
    let cal = IcalVCalendar::from_str(TEST_EVENT_RECUR, None).unwrap();
    let event = cal.get_principal_event();
    let times = event.get_recur_datetimes();

    assert_eq!(10, times.len());
    for w in times.windows(2) {
        assert!(w[0].get_timestamp() < w[1].get_timestamp());
        assert_eq!(w[0].get_timestamp() + 7 * 86400, w[1].get_timestamp());
    }
    let first = &times[0];
    assert_eq!((2018, 10, 11, 0, 0, 0), (
        first.year, first.month, first.day, first.hour, first.minute, first.second
    ));
    let last = &times[9];
    assert_eq!((2018, 12, 13, 0, 0, 0), (
        last.year, last.month, last.day, last.hour, last.minute, last.second
    ));

    for t in &times {
        let instance = event.with_internal_timestamp(*t);
        assert!(instance.is_recur_valid());
    }
    let injected = event.with_internal_timestamp(IcalTime::floating_ymd_hms(2010, 1, 1, 0, 0, 0));
    assert!(!injected.is_recur_valid());
}

#[test]
fn allday_end_date_correction() {
    let cal = IcalVCalendar::from_str(TEST_EVENT_ALLDAY, None).unwrap();
    let event = cal.get_principal_event();
    let last = event.get_last_relevant_date().unwrap();
    assert_eq!((2007, 6, 29), (last.year, last.month, last.day));

    let kh = KhEvent::from_event(event);
    let last = kh.get_last_relevant_date().unwrap();
    assert_eq!((2007, 6, 29), (last.year, last.month, last.day));
}

#[test]
fn bucket_keys_are_monotone() {
    let points = [
        IcalTime::floating_ymd_hms(2018, 9, 30, 23, 59, 59),
        IcalTime::floating_ymd_hms(2018, 10, 1, 0, 0, 0),
        IcalTime::floating_ymd_hms(2018, 10, 31, 12, 0, 0),
        IcalTime::floating_ymd_hms(2019, 1, 1, 0, 0, 0),
    ];
    let keys: Vec<BucketKey> = points.iter().map(|t| bucket_key(t.get_timestamp())).collect();
    assert_eq!((2018, 9), (keys[0].year, keys[0].month));
    assert_eq!((2018, 10), (keys[1].year, keys[1].month));
    assert_eq!((2018, 10), (keys[2].year, keys[2].month));
    assert_eq!((2019, 1), (keys[3].year, keys[3].month));
    for w in keys.windows(2) {
        assert!(w[0].year < w[1].year || (w[0].year == w[1].year && w[0].month <= w[1].month));
    }
    assert_eq!("2018-09", get_bucket_name(&keys[0]));
}

#[test]
fn khaleesi_line_round_trip() {
    let line = format_khaleesi_line(42, "cal/a.ics");
    assert_eq!("0000000042 cal/a.ics", line);
    let (ts, path) = parse_khaleesi_line(line.as_str()).unwrap();
    assert_eq!(42, ts);
    assert_eq!("cal/a.ics", path);
}

#[test]
fn parse_error_variants() {
    assert_eq!(
        IcalVCalendar::from_str("nonsense", None).err(),
        Some(KhError::Malformed)
    );
    match IcalVCalendar::from_str(
        "BEGIN:VTODO\nUID:x\nEND:VTODO",
        None,
    ) {
        Err(KhError::WrongKind(k)) => assert_eq!("VTODO", k),
        other => panic!("unexpected: {:?}", other),
    }
    match IcalVCalendar::from_str(
        "BEGIN:VCALENDAR\nVERSION:2.0\nBEGIN:VEVENT\nUID:x\nDTSTAMP:20180101T000000Z\nEND:VEVENT\nEND:VCALENDAR",
        None,
    ) {
        Err(KhError::Validation(msgs)) => {
            assert_eq!(vec!["missing required property PRODID".to_string()], msgs)
        },
        other => panic!("unexpected: {:?}", other),
    }
    assert_eq!(
        IcalVCalendar::from_str(
            "BEGIN:VCALENDAR\nVERSION:2.0\nPRODID:p\nBEGIN:VEVENT\nDTSTAMP:20180101T000000Z\nSUMMARY:x\nEND:VEVENT\nEND:VCALENDAR",
            None,
        )
        .err(),
        Some(KhError::MissingUid)
    );
}

#[test]
fn filter_syntax_errors() {
    let bad = vec!["frum".to_string(), "2018-10-01".to_string()];
    assert_eq!(
        selectors::SelectFilters::parse_from_args(&bad).err(),
        Some(KhError::BadSyntax)
    );
    let dangling = vec!["from".to_string()];
    assert_eq!(
        selectors::SelectFilters::parse_from_args(&dangling).err(),
        Some(KhError::BadSyntax)
    );
}

#[test]
fn date_and_week_arguments() {
    let d = date_from_str("2018-10-01").unwrap();
    assert_eq!((2018, 10, 1), (d.year, d.month, d.day));
    assert!(date_from_str("2018-13-01").is_none());
    assert!(date_from_str("2018-10-1").is_none());

    let monday = week_from_str_begin("2018-W40").unwrap();
    assert_eq!((2018, 10, 1), (monday.year, monday.month, monday.day));
    let sunday = week_from_str_end("2018-W40").unwrap();
    assert_eq!((2018, 10, 7), (sunday.year, sunday.month, sunday.day));
}

#[test]
fn end_to_end_selection_scenario() {
    let docs = vec![
        ("cal/september.ics", event_file("september@example.com", "20180901T100000Z")),
        ("cal/october.ics", event_file("october@example.com", "20181015T100000Z")),
        ("cal/november.ics", event_file("november@example.com", "20181120T100000Z")),
    ];
    let mut entries: Vec<(u64, String)> = Vec::new();
    let mut parsed = Vec::new();
    for (path, text) in &docs {
        let cal = IcalVCalendar::from_str(text.as_str(), Some(path.to_string())).unwrap();
        let ts = cal.get_principal_event().get_dtstart_unix().unwrap();
        entries.push((ts, path.to_string()));
        parsed.push(cal);
    }
    let buckets = rebuild_index(&entries);
    assert_eq!(3, buckets.len());

    let args = vec![
        "from".to_string(),
        "2018-10-01".to_string(),
        "to".to_string(),
        "2018-10-31".to_string(),
    ];
    let filters = select::SelectFilters::parse_from_args(&args).unwrap();
    let lo = filters.from.unwrap();
    let hi = filters.to.unwrap();
    let lo_key = BucketKey { year: lo.year, month: lo.month };
    let hi_key = BucketKey { year: hi.year, month: hi.month };
    let candidates = scan_index(&buckets, &lo_key, &hi_key);
    assert_eq!(1, candidates.len());

    let mut hits = Vec::new();
    for line in &candidates {
        let (_ts, path) = parse_khaleesi_line(line.as_str()).unwrap();
        let cal = parsed
            .iter()
            .find(|c| c.get_path() == Some(&path))
            .unwrap();
        if filters.predicate_line_is_from(cal) && filters.predicate_line_is_to(cal) {
            hits.push(line.clone());
        }
    }
    let hits = select::select_finalize(hits);
    let expected = format_khaleesi_line(
        IcalTime::floating_ymd_hms(2018, 10, 15, 10, 0, 0).get_timestamp(),
        "cal/october.ics",
    );
    assert_eq!(vec![expected.clone()], hits);

    let on_args = vec!["on".to_string(), "2018-10-15".to_string()];
    let on_filters = selectors::SelectFilters::parse_from_args(&on_args).unwrap();
    let on_from = on_filters.from.date.unwrap();
    let on_to = on_filters.to.date.unwrap();
    let on_lo = BucketKey { year: on_from.year, month: on_from.month };
    let on_hi = BucketKey { year: on_to.year, month: on_to.month };
    let on_candidates = scan_index(&buckets, &on_lo, &on_hi);
    let mut on_hits = Vec::new();
    for line in &on_candidates {
        let (_ts, path) = parse_khaleesi_line(line.as_str()).unwrap();
        let cal = parsed
            .iter()
            .find(|c| c.get_path() == Some(&path))
            .unwrap();
        let ev = cal.get_principal_event();
        if on_filters.predicate_line_is_from(&ev) && on_filters.predicate_line_is_to(&ev) {
            on_hits.push(line.clone());
        }
    }
    let on_hits = select::select_finalize(on_hits);
    assert_eq!(vec![expected], on_hits);
}

#[test]
fn list_bounds_combine_tightest() {
    let args = vec![
        "from".to_string(),
        "2018-10-05".to_string(),
        "from".to_string(),
        "2018-10-01".to_string(),
        "to".to_string(),
        "2018-10-20".to_string(),
        "to".to_string(),
        "2018-10-31".to_string(),
    ];
    let f = khaleesi::list::ListFilters::parse_from_args(&args).unwrap();
    let from = f.from.unwrap();
    assert_eq!((2018, 10, 5), (from.year, from.month, from.day));
    let to = f.to.unwrap();
    assert_eq!((2018, 10, 20), (to.year, to.month, to.day));

    let sel_args = vec![
        "from".to_string(),
        "2018-10-05".to_string(),
        "from".to_string(),
        "2018-10-01".to_string(),
    ];
    let sf = select::SelectFilters::parse_from_args(&sel_args).unwrap();
    let sel_from = sf.from.unwrap();
    assert_eq!((2018, 10, 5), (sel_from.year, sel_from.month, sel_from.day));
}

#[test]
fn nested_calendar_names_match() {
    let text = "BEGIN:VCALENDAR\nVERSION:2.0\nPRODID:p\nBEGIN:VEVENT\nUID:u\nDTSTAMP:20180101T000000Z\nSUMMARY:a\nEND:VEVENT\nEND:VCALENDAR";
    let path = Some("root/second/second_sub/event.ics".to_string());
    let cal = IcalVCalendar::from_str(text, path).unwrap();
    let filter = |name: &str| khaleesi::list::ListFilters {
        from: None,
        to: None,
        num: None,
        calendar: Some(name.to_string()),
    };
    assert!(filter("second_sub").predicate_is_in_calendar(&cal));
    assert!(filter("second/second_sub").predicate_is_in_calendar(&cal));
    assert!(filter("root/second/second_sub").predicate_is_in_calendar(&cal));
    assert!(!filter("second").predicate_is_in_calendar(&cal));
    assert!(!filter("cond/second_sub").predicate_is_in_calendar(&cal));
}

#[test]
fn finalize_sorts_and_deduplicates() {
    let lines = vec![
        "0000000200 b".to_string(),
        "0000000100 a".to_string(),
        "0000000200 b".to_string(),
        "0000000100 a".to_string(),
    ];
    let out = select::select_finalize(lines);
    assert_eq!(vec!["0000000100 a".to_string(), "0000000200 b".to_string()], out);
}

#[test]
fn multi_uid_repair() {
    let text = "BEGIN:VCALENDAR\nVERSION:2.0\nPRODID:p\nBEGIN:VEVENT\nUID:uid1\nDTSTAMP:20180101T000000Z\nSUMMARY:a\nEND:VEVENT\nBEGIN:VEVENT\nUID:uid2\nDTSTAMP:20180101T000000Z\nSUMMARY:b\nEND:VEVENT\nEND:VCALENDAR";
    let cal = IcalVCalendar::from_str(text, None).unwrap();
    assert_eq!(2, cal.unique_uid_count());
    assert!(cal.has_multiple_uids());
    assert_eq!(Some(KhError::MultipleEvents), cal.clone().with_uid("z").err());
    let kept = cal.with_keep_uid("uid2");
    assert_eq!(1, kept.events_iter().len());
    assert_eq!("uid2", kept.get_uid());
}

#[test]
fn dtstamp_is_replaced() {
    let text = "BEGIN:VCALENDAR\nVERSION:2.0\nPRODID:p\nBEGIN:VEVENT\nUID:u\nDTSTAMP:20180101T000000Z\nSUMMARY:a\nEND:VEVENT\nEND:VCALENDAR";
    let cal = IcalVCalendar::from_str(text, None).unwrap();
    let stamped = cal.with_dtstamp_now();
    let ev = stamped.get_principal_event();
    let stamps = ev.get_properties_by_name("DTSTAMP");
    assert_eq!(1, stamps.len());
    assert_ne!("20180101T000000Z", stamps[0].get_value());
}
