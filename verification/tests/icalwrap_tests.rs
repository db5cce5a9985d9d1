use khaleesi::component::IcalComponent;
use khaleesi::errors::KhError;
use khaleesi::icaltime::IcalTime;
use khaleesi::icalwrap::IcalVCalendar;

const TEST_EVENT_MULTIDAY: &str = "BEGIN:VCALENDAR\nVERSION:2.0\nPRODID:-//ABC Corporation//NONSGML My Product//EN\nBEGIN:VEVENT\nUID:20070423T123432Z-541111@example.com\nDTSTAMP:20070423T123432Z\nDTSTART;VALUE=DATE:20070628\nDTEND;VALUE=DATE:20070709\nSUMMARY:Festival International de Jazz de Montreal\nTRANSP:TRANSPARENT\nSTATUS:CONFIRMED\nEND:VEVENT\nEND:VCALENDAR";

const TEST_EVENT_WITH_TIMEZONE_COMPONENT: &str = "BEGIN:VCALENDAR\nVERSION:2.0\nPRODID:-//ABC Corporation//NONSGML My Product//EN\nBEGIN:VTIMEZONE\nTZID:America/Montreal\nBEGIN:STANDARD\nDTSTART:19701101T020000\nTZOFFSETFROM:-0400\nTZOFFSETTO:-0500\nEND:STANDARD\nEND:VTIMEZONE\nBEGIN:VEVENT\nUID:zone-event@example.com\nDTSTAMP:20070423T123432Z\nDTSTART:20070628T140000Z\nSUMMARY:Zoned meeting\nEND:VEVENT\nEND:VCALENDAR";

const TEST_EVENT_RECUR: &str = "BEGIN:VCALENDAR\nVERSION:2.0\nPRODID:-//ABC Corporation//NONSGML My Product//EN\nBEGIN:VEVENT\nUID:recurring@example.com\nDTSTAMP:20180101T120000Z\nDTSTART;VALUE=DATE:20181011\nDTEND;VALUE=DATE:20181013\nRRULE:FREQ=WEEKLY;COUNT=10\nSUMMARY:Weekly standup\nEND:VEVENT\nEND:VCALENDAR";

const TEST_NO_SUMMARY: &str = "BEGIN:VCALENDAR\nVERSION:2.0\nPRODID:-//ABC Corporation//NONSGML My Product//EN\nBEGIN:VEVENT\nUID:nosummary@example.com\nDTSTAMP:20070423T123432Z\nDTSTART:20070628T140000Z\nEND:VEVENT\nEND:VCALENDAR";

const TEST_EVENT_ONE_MEETING: &str = "BEGIN:VCALENDAR\nVERSION:2.0\nPRODID:-//ABC Corporation//NONSGML My Product//EN\nBEGIN:VEVENT\nUID:onemeeting@example.com\nDTSTAMP:19970901T130000Z\nDTSTART:19970905T090000Z\nDTEND:19970905T180000Z\nSUMMARY:Annual Employee Review\nLOCATION:LDB Lobby\nDESCRIPTION:Discuss how we can test c&s interoperability\\nusing iCalendar and other IETF standards.\nEND:VEVENT\nEND:VCALENDAR";

const TEST_MULTIPLE_EVENTS: &str = "BEGIN:VCALENDAR\nVERSION:2.0\nPRODID:-//ABC Corporation//NONSGML My Product//EN\nBEGIN:VEVENT\nUID:uid1\nDTSTAMP:20070423T123432Z\nDTSTART:20070628T140000Z\nSUMMARY:first event\nEND:VEVENT\nBEGIN:VEVENT\nUID:uid2\nDTSTAMP:20070423T123432Z\nDTSTART:20070629T140000Z\nSUMMARY:second event\nEND:VEVENT\nEND:VCALENDAR";

const TEST_EVENT_EMPTY_SUMMARY: &str = "BEGIN:VCALENDAR\nVERSION:2.0\nPRODID:-//ABC Corporation//NONSGML My Product//EN\nBEGIN:VEVENT\nUID:emptysummary@example.com\nDTSTAMP:20070423T123432Z\nDTSTART:20070628T140000Z\nSUMMARY:\nEND:VEVENT\nEND:VCALENDAR";

const TEST_EVENT_NO_UID: &str = "BEGIN:VCALENDAR\nVERSION:2.0\nPRODID:-//ABC Corporation//NONSGML My Product//EN\nBEGIN:VEVENT\nDTSTAMP:20070423T123432Z\nDTSTART:20070628T140000Z\nSUMMARY:No identifier here\nEND:VEVENT\nEND:VCALENDAR";

const TEST_EVENT_NO_PRODID: &str = "BEGIN:VCALENDAR\nVERSION:2.0\nBEGIN:VEVENT\nUID:noprodid@example.com\nDTSTAMP:20070423T123432Z\nDTSTART:20070628T140000Z\nSUMMARY:No product identifier\nEND:VEVENT\nEND:VCALENDAR";

#[test]
fn event_iterator_element_count() {
    let cal = IcalVCalendar::from_str(TEST_EVENT_MULTIDAY, None).unwrap();
    assert_eq!(cal.events_iter().len(), 1)
}

#[test]
fn event_iterator_element_count_with_other() {
    let cal = IcalVCalendar::from_str(TEST_EVENT_WITH_TIMEZONE_COMPONENT, None).unwrap();
    assert_eq!(cal.events_iter().len(), 1)
}

#[test]
fn load_serialize() {
    let cal = IcalVCalendar::from_str(TEST_EVENT_MULTIDAY, None).unwrap();
    let back = cal.to_string().replace("\r\n", "\n");
    assert_eq!(back.trim(), TEST_EVENT_MULTIDAY)
}

#[test]
fn icalwrap_recur_iterator_test() {
    let cal = IcalVCalendar::from_str(TEST_EVENT_RECUR, None).unwrap();
    let event = cal.get_principal_event();
    let start = event.get_dtstart_date().unwrap();
    assert_eq!((2018, 10, 11), (start.year, start.month, start.day));
    let end = event.get_dtend_date().unwrap();
    assert_eq!((2018, 10, 13), (end.year, end.month, end.day));
    let rrule = event.get_property_by_name("RRULE").unwrap();
    assert_eq!("RRULE:FREQ=WEEKLY;COUNT=10", rrule.as_ical_string());
    assert_eq!(10, event.get_recur_datetimes().len());
    assert_eq!(10, event.get_recur_instances().len());
}

#[test]
fn get_khaleesi_line_test() {
    let path = Some("test/path".to_string());
    let cal = IcalVCalendar::from_str(TEST_EVENT_MULTIDAY, path).unwrap();
    let event = cal.get_principal_event();
    assert_eq!(String::from("1182988800 test/path"), event.get_khaleesi_line().unwrap())
}

#[test]
fn icalwrap_test_get_all_properties() {
    let cal = IcalVCalendar::from_str(TEST_EVENT_MULTIDAY, None).unwrap();

    let props = cal.get_properties_all();
    assert_eq!(2, props.len());

    let event = cal.get_principal_event();
    let props = event.get_properties_all();
    assert_eq!(7, props.len());
}

#[test]
fn icalwrap_test_get_property_get_value() {
    let cal = IcalVCalendar::from_str(TEST_EVENT_MULTIDAY, None).unwrap();
    let event = cal.get_principal_event();
    let prop = event.get_properties_by_name("DTSTART");

    assert_eq!(1, prop.len());
    assert_eq!("DTSTART", prop[0].get_name());
    assert_eq!("20070628", prop[0].get_value());
    let date = prop[0].get_value_as_date().unwrap();
    assert_eq!((2007, 6, 28), (date.year, date.month, date.day));
}

#[test]
fn icalwrap_test_get_property_debug() {
    let cal = IcalVCalendar::from_str(TEST_EVENT_MULTIDAY, None).unwrap();
    let event = cal.get_principal_event();
    let prop = event.get_properties_by_name("DTSTART");

    assert_eq!("DTSTART;VALUE=DATE:20070628", prop[0].as_ical_string());
}

#[test]
fn test_get_sumary() {
    let cal = IcalVCalendar::from_str(TEST_EVENT_MULTIDAY, None).unwrap();
    let event = cal.get_principal_event();

    assert_eq!(
        Some("Festival International de Jazz de Montreal".to_string()),
        event.get_summary()
    );
}

#[test]
fn test_get_sumary_none() {
    let cal = IcalVCalendar::from_str(TEST_NO_SUMMARY, None).unwrap();
    let event = cal.get_principal_event();

    assert_eq!(None, event.get_summary());
}

#[test]
fn icalwrap_test_get_description() {
    let cal = IcalVCalendar::from_str(TEST_EVENT_ONE_MEETING, None).unwrap();
    let event = cal.get_principal_event();

    assert_eq!(
        Some(
            "Discuss how we can test c&s interoperability\nusing iCalendar and other IETF standards."
                .to_string()
        ),
        event.get_description()
    );
}

#[test]
fn parse_checker_test_empty_summary() {
    assert!(IcalVCalendar::from_str(TEST_EVENT_EMPTY_SUMMARY, None).is_err())
}

#[test]
fn parse_checker_test_no_uid() {
    assert!(IcalVCalendar::from_str(TEST_EVENT_NO_UID, None).is_err())
}

#[test]
fn parse_checker_test_no_prodid() {
    assert!(IcalVCalendar::from_str(TEST_EVENT_NO_PRODID, None).is_err())
}

#[test]
fn icalwrap_test_get_location() {
    let cal = IcalVCalendar::from_str(TEST_EVENT_ONE_MEETING, None).unwrap();
    let event = cal.get_principal_event();

    assert_eq!(Some("LDB Lobby".to_string()), event.get_location());
}

#[test]
fn icalwrap_test_get_location_none() {
    let cal = IcalVCalendar::from_str(TEST_NO_SUMMARY, None).unwrap();
    let event = cal.get_principal_event();

    assert_eq!(None, event.get_location());
}

#[test]
fn has_recur_test() {
    let cal = IcalVCalendar::from_str(TEST_EVENT_RECUR, None).unwrap();
    assert!(cal.get_principal_event().has_recur());
}

#[test]
fn icalwrap_recur_datetimes_test() {
    let cal = IcalVCalendar::from_str(TEST_EVENT_RECUR, None).unwrap();

    let event = cal.get_principal_event();
    let recur_instances = event.get_recur_instances();
    let first = recur_instances[0].get_dtstart().unwrap();
    assert_eq!((2018, 10, 11, 0, 0, 0), (
        first.year, first.month, first.day, first.hour, first.minute, first.second
    ));
    let second = recur_instances[1].get_dtstart().unwrap();
    assert_eq!((2018, 10, 18, 0, 0, 0), (
        second.year, second.month, second.day, second.hour, second.minute, second.second
    ));
}

#[test]
fn test_with_internal_timestamp() {
    let cal = IcalVCalendar::from_str(TEST_EVENT_MULTIDAY, None).unwrap();

    let timestamp = IcalTime::floating_ymd_hms(2018, 1, 1, 11, 30, 20);
    let new_cal = cal.with_internal_timestamp(timestamp);

    let event = new_cal.get_principal_event();
    let start = event.get_dtstart().unwrap();
    assert_eq!((2018, 1, 1, 11, 30, 20), (
        start.year, start.month, start.day, start.hour, start.minute, start.second
    ));
}

#[test]
fn with_uid_test() {
    let path = Some("test/path".to_string());
    let cal = IcalVCalendar::from_str(TEST_EVENT_MULTIDAY, path).unwrap();

    let uid = "my_new_uid";
    let new_cal = cal.with_uid(uid).unwrap();

    for event in new_cal.events_iter() {
        assert_eq!(uid, event.get_uid());
    }
    assert_eq!(Some(&"test/my_new_uid.ics".to_string()), new_cal.get_path());
}

#[test]
fn with_uid_multiple_test() {
    let path = Some("test/path".to_string());
    let cal = IcalVCalendar::from_str(TEST_MULTIPLE_EVENTS, path).unwrap();

    let uid = "my_new_uid";
    let new_cal = cal.with_uid(uid);

    assert!(new_cal.is_err());
    assert_eq!(new_cal.err(), Some(KhError::MultipleEvents));
}

#[test]
fn with_keep_uid_test() {
    let path = Some("test/path".to_string());
    let cal = IcalVCalendar::from_str(TEST_MULTIPLE_EVENTS, path).unwrap();

    for uid in &["uid1", "uid2"] {
        let new_cal = cal.clone().with_keep_uid(uid);

        assert_eq!(1, new_cal.events_iter().len());
        assert_eq!(*uid, new_cal.get_uid());
        assert_eq!(*uid, new_cal.get_principal_event().get_uid());
    }
}

#[test]
fn clone_test() {
    let path = Some("test/path".to_string());
    let cal = IcalVCalendar::from_str(TEST_EVENT_MULTIDAY, path).unwrap();
    let cal2 = cal.clone().with_uid("my_new_uid").unwrap();

    assert_ne!(cal.get_uid(), cal2.get_uid());
}

#[test]
fn parse_checker_test_negative() {
    assert!(IcalVCalendar::from_str(TEST_EVENT_NO_PRODID, None).is_err())
}

#[test]
fn parse_checker_test() {
    assert!(IcalVCalendar::from_str(TEST_EVENT_MULTIDAY, None).is_ok())
}
