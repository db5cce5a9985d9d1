use khaleesi::component::IcalComponent;
use khaleesi::icaltime::IcalTime;
use khaleesi::icalwrap::IcalVCalendar;

const TEST_EVENT_MULTIDAY: &str = "BEGIN:VCALENDAR\nVERSION:2.0\nPRODID:-//ABC Corporation//NONSGML My Product//EN\nBEGIN:VEVENT\nUID:20070423T123432Z-541111@example.com\nDTSTAMP:20070423T123432Z\nDTSTART;VALUE=DATE:20070628\nDTEND;VALUE=DATE:20070709\nSUMMARY:Festival International de Jazz de Montreal\nTRANSP:TRANSPARENT\nSTATUS:CONFIRMED\nEND:VEVENT\nEND:VCALENDAR";

const TEST_EVENT_MULTIDAY_ALLDAY: &str = "BEGIN:VCALENDAR\nVERSION:2.0\nPRODID:-//ABC Corporation//NONSGML My Product//EN\nBEGIN:VEVENT\nUID:20070423T123432Z-541111@example.com\nDTSTAMP:20070423T123432Z\nDTSTART;VALUE=DATE:20070628\nDTEND;VALUE=DATE:20070709\nSUMMARY:Festival International de Jazz de Montreal\nTRANSP:TRANSPARENT\nSTATUS:CONFIRMED\nEND:VEVENT\nEND:VCALENDAR";

const TEST_EVENT_RECUR: &str = "BEGIN:VCALENDAR\nVERSION:2.0\nPRODID:-//ABC Corporation//NONSGML My Product//EN\nBEGIN:VEVENT\nUID:recurring@example.com\nDTSTAMP:20180101T120000Z\nDTSTART;VALUE=DATE:20181011\nDTEND;VALUE=DATE:20181013\nRRULE:FREQ=WEEKLY;COUNT=10\nSUMMARY:Weekly standup\nEND:VEVENT\nEND:VCALENDAR";

const TEST_NO_SUMMARY: &str = "BEGIN:VCALENDAR\nVERSION:2.0\nPRODID:-//ABC Corporation//NONSGML My Product//EN\nBEGIN:VEVENT\nUID:nosummary@example.com\nDTSTAMP:20070423T123432Z\nDTSTART:20070628T140000Z\nEND:VEVENT\nEND:VCALENDAR";

const TEST_EVENT_ONE_MEETING: &str = "BEGIN:VCALENDAR\nVERSION:2.0\nPRODID:-//ABC Corporation//NONSGML My Product//EN\nBEGIN:VEVENT\nUID:onemeeting@example.com\nDTSTAMP:19970901T130000Z\nDTSTART:19970905T090000Z\nDTEND:19970905T180000Z\nSUMMARY:Annual Employee Review\nLOCATION:LDB Lobby\nDESCRIPTION:Discuss how we can test c&s interoperability\\nusing iCalendar and other IETF standards.\nEND:VEVENT\nEND:VCALENDAR";

fn utc_ymd_hms(y: u32, mo: u32, d: u32, h: u32, mi: u32, s: u32) -> IcalTime {
    IcalTime::floating_ymd_hms(y, mo, d, h, mi, s)
}

#[test]
fn icalvevent_recur_iterator_test() {
    let cal = IcalVCalendar::from_str(TEST_EVENT_RECUR, None).unwrap();
    let event = cal.get_principal_event();
    let start = event.get_dtstart_date().unwrap();
    assert_eq!((2018, 10, 11), (start.year, start.month, start.day));
    let end = event.get_dtend_date().unwrap();
    assert_eq!((2018, 10, 13), (end.year, end.month, end.day));
    assert_eq!(
        "RRULE:FREQ=WEEKLY;COUNT=10",
        event.get_property_by_name("RRULE").unwrap().as_ical_string()
    );
    assert_eq!(10, event.get_recur_datetimes().len());
    assert_eq!(10, event.get_recur_instances().len());
}

#[test]
fn icalvevent_test_get_all_properties() {
    let cal = IcalVCalendar::from_str(TEST_EVENT_MULTIDAY, None).unwrap();

    let event = cal.get_principal_event();
    let props = event.get_properties_all();
    assert_eq!(7, props.len());
}

#[test]
fn icalvevent_test_get_property_get_value() {
    let cal = IcalVCalendar::from_str(TEST_EVENT_MULTIDAY_ALLDAY, None).unwrap();
    let event = cal.get_principal_event();
    let prop = event.get_properties_by_name("DTSTART");

    assert_eq!(1, prop.len());
    assert_eq!("DTSTART", prop[0].get_name());
    assert_eq!("20070628", prop[0].get_value());
    let date = prop[0].get_value_as_date().unwrap();
    assert_eq!((2007, 6, 28), (date.year, date.month, date.day));
}

#[test]
fn icalvevent_test_get_property_debug() {
    let cal = IcalVCalendar::from_str(TEST_EVENT_MULTIDAY_ALLDAY, None).unwrap();
    let event = cal.get_principal_event();
    let prop = event.get_property_by_name("DTSTART").unwrap();

    assert_eq!("DTSTART;VALUE=DATE:20070628", prop.as_ical_string());
}

#[test]
fn test_get_summary() {
    let cal = IcalVCalendar::from_str(TEST_EVENT_MULTIDAY, None).unwrap();
    let event = cal.get_principal_event();

    assert_eq!(
        Some("Festival International de Jazz de Montreal".to_string()),
        event.get_summary()
    );
}

#[test]
fn test_get_summary_none() {
    let cal = IcalVCalendar::from_str(TEST_NO_SUMMARY, None).unwrap();
    let event = cal.get_principal_event();

    assert_eq!(None, event.get_summary());
}

#[test]
fn icalvevent_test_get_description() {
    let cal = IcalVCalendar::from_str(TEST_EVENT_ONE_MEETING, None).unwrap();
    let event = cal.get_principal_event();

    assert_eq!(
        Some(
            "Discuss how we can test c&s interoperability\nusing iCalendar and other IETF standards."
                .to_string()
        ),
        event.get_description()
    );
}

#[test]
fn test_get_description_none() {
    let cal = IcalVCalendar::from_str(TEST_EVENT_MULTIDAY, None).unwrap();
    let event = cal.get_principal_event();

    assert_eq!(None, event.get_description());
}

#[test]
fn icalvevent_test_get_location() {
    let cal = IcalVCalendar::from_str(TEST_EVENT_ONE_MEETING, None).unwrap();
    let event = cal.get_principal_event();

    assert_eq!(Some("LDB Lobby".to_string()), event.get_location());
}

#[test]
fn icalvevent_test_get_location_none() {
    let cal = IcalVCalendar::from_str(TEST_NO_SUMMARY, None).unwrap();
    let event = cal.get_principal_event();

    assert_eq!(None, event.get_location());
}

#[test]
fn test_is_recur_master() {
    let cal = IcalVCalendar::from_str(TEST_EVENT_RECUR, None).unwrap();
    assert!(cal.get_principal_event().is_recur_master());
}

#[test]
fn test_is_recur_master_instance() {
    let cal = IcalVCalendar::from_str(TEST_EVENT_RECUR, None).unwrap();
    let event = cal.get_principal_event();
    let event = event.with_internal_timestamp(utc_ymd_hms(2018, 1, 1, 0, 0, 0));
    assert!(!event.is_recur_master());
}

#[test]
fn test_is_recur_master_invalid() {
    let cal = IcalVCalendar::from_str(TEST_EVENT_ONE_MEETING, None).unwrap();
    assert!(!cal.get_principal_event().is_recur_master());
}

#[test]
fn icalvevent_recur_datetimes_test() {
    let cal = IcalVCalendar::from_str(TEST_EVENT_RECUR, None).unwrap();

    let event = cal.get_principal_event();
    let recur_instances = event.get_recur_instances();
    let first = recur_instances[0].get_dtstart().unwrap();
    assert_eq!((2018, 10, 11, 0, 0, 0), (
        first.year, first.month, first.day, first.hour, first.minute, first.second
    ));
    let second = recur_instances[1].get_dtstart().unwrap();
    assert_eq!((2018, 10, 18, 0, 0, 0), (
        second.year, second.month, second.day, second.hour, second.minute, second.second
    ));
}

#[test]
fn test_is_recur_valid_master() {
    let cal = IcalVCalendar::from_str(TEST_EVENT_RECUR, None).unwrap();
    let event = cal.get_principal_event();

    assert!(event.is_recur_valid());
}

#[test]
fn test_is_recur_valid_dtstart() {
    let cal = IcalVCalendar::from_str(TEST_EVENT_RECUR, None).unwrap();
    let event = cal.get_principal_event();

    let event = event.with_internal_timestamp(event.get_dtstart().unwrap());

    assert!(event.is_recur_valid());
}

#[test]
fn test_is_recur_valid_incorrect() {
    let cal = IcalVCalendar::from_str(TEST_EVENT_RECUR, None).unwrap();
    let event = cal.get_principal_event();

    let event = event.with_internal_timestamp(utc_ymd_hms(2010, 1, 1, 0, 0, 0));

    assert!(!event.is_recur_valid());
}

#[test]
fn test_is_recur_valid_other() {
    let cal = IcalVCalendar::from_str(TEST_EVENT_RECUR, None).unwrap();
    let event = cal.get_principal_event();

    let event = event.with_internal_timestamp(utc_ymd_hms(2018, 10, 25, 0, 0, 0));

    assert!(event.is_recur_valid());
}

#[test]
fn test_is_recur_valid_nonrecur() {
    let cal = IcalVCalendar::from_str(TEST_EVENT_ONE_MEETING, None).unwrap();
    let event = cal.get_principal_event();

    assert!(event.is_recur_valid());
}
