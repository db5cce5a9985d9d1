use khaleesi::icalwrap::IcalVCalendar;
use khaleesi::recur::{parse_rrule, Freq};

#[test]
fn folded_lines_are_joined() {
    let text = "BEGIN:VCALENDAR\nVERSION:2.0\nPRODID:p\nBEGIN:VEVENT\nUID:folded@example.com\nDTSTAMP:20180101T000000Z\nSUMMARY:Fes\n tival time\nEND:VEVENT\nEND:VCALENDAR";
    let cal = IcalVCalendar::from_str(text, None).unwrap();
    assert_eq!(
        Some("Festival time".to_string()),
        cal.get_principal_event().get_summary()
    );
}

#[test]
fn carriage_returns_are_accepted() {
    let text = "BEGIN:VCALENDAR\r\nVERSION:2.0\r\nPRODID:p\r\nBEGIN:VEVENT\r\nUID:crlf@example.com\r\nDTSTAMP:20180101T000000Z\r\nSUMMARY:Wire form\r\nEND:VEVENT\r\nEND:VCALENDAR\r\n";
    let cal = IcalVCalendar::from_str(text, None).unwrap();
    assert_eq!(
        Some("Wire form".to_string()),
        cal.get_principal_event().get_summary()
    );
}

#[test]
fn escaped_values_round_trip() {
    let text = "BEGIN:VCALENDAR\nVERSION:2.0\nPRODID:p\nBEGIN:VEVENT\nUID:escaped@example.com\nDTSTAMP:20180101T000000Z\nDESCRIPTION:a\\nb\\\\c\nEND:VEVENT\nEND:VCALENDAR";
    let cal = IcalVCalendar::from_str(text, None).unwrap();
    assert_eq!(
        Some("a\nb\\c".to_string()),
        cal.get_principal_event().get_description()
    );
    let again = IcalVCalendar::from_str(cal.to_string().as_str(), None).unwrap();
    assert_eq!(
        Some("a\nb\\c".to_string()),
        again.get_principal_event().get_description()
    );
}

#[test]
fn rrule_subset_grammar() {
    let r = parse_rrule("FREQ=WEEKLY;COUNT=10").unwrap();
    assert_eq!(Freq::Weekly, r.freq);
    assert_eq!(1, r.interval);
    assert_eq!(Some(10), r.count);
    assert_eq!(None, r.until);

    let r = parse_rrule("FREQ=DAILY;INTERVAL=2;UNTIL=20180110T000000Z").unwrap();
    assert_eq!(Freq::Daily, r.freq);
    assert_eq!(2, r.interval);
    assert!(r.until.is_some());

    assert!(parse_rrule("COUNT=10").is_none());
    assert!(parse_rrule("FREQ=HOURLY").is_none());
    assert!(parse_rrule("FREQ=WEEKLY;BYDAY=MO").is_none());
}

#[test]
fn daily_rule_with_interval_and_until() {
    let text = "BEGIN:VCALENDAR\nVERSION:2.0\nPRODID:p\nBEGIN:VEVENT\nUID:daily@example.com\nDTSTAMP:20180101T000000Z\nDTSTART:20180101T080000Z\nRRULE:FREQ=DAILY;INTERVAL=2;UNTIL=20180107T120000Z\nSUMMARY:Every other day\nEND:VEVENT\nEND:VCALENDAR";
    let cal = IcalVCalendar::from_str(text, None).unwrap();
    let times = cal.get_principal_event().get_recur_datetimes();
    let days: Vec<u32> = times.iter().map(|t| t.day).collect();
    assert_eq!(vec![1, 3, 5, 7], days);
}

#[test]
fn monthly_rule_clamps_short_months() {
    let text = "BEGIN:VCALENDAR\nVERSION:2.0\nPRODID:p\nBEGIN:VEVENT\nUID:monthly@example.com\nDTSTAMP:20180101T000000Z\nDTSTART:20180131T090000Z\nRRULE:FREQ=MONTHLY;COUNT=3\nSUMMARY:Month end\nEND:VEVENT\nEND:VCALENDAR";
    let cal = IcalVCalendar::from_str(text, None).unwrap();
    let times = cal.get_principal_event().get_recur_datetimes();
    assert_eq!(3, times.len());
    assert_eq!((2018, 1, 31), (times[0].year, times[0].month, times[0].day));
    assert_eq!((2018, 2, 28), (times[1].year, times[1].month, times[1].day));
    assert_eq!((2018, 3, 31), (times[2].year, times[2].month, times[2].day));
}
