use khaleesi::component::IcalComponent;
use khaleesi::icalwrap::IcalVCalendar;

const TEST_EVENT_MULTIDAY: &str = "BEGIN:VCALENDAR\nVERSION:2.0\nPRODID:-//ABC Corporation//NONSGML My Product//EN\nBEGIN:VEVENT\nUID:20070423T123432Z-541111@example.com\nDTSTAMP:20070423T123432Z\nDTSTART;VALUE=DATE:20070628\nDTEND;VALUE=DATE:20070709\nSUMMARY:Festival International de Jazz de Montreal\nTRANSP:TRANSPARENT\nSTATUS:CONFIRMED\nEND:VEVENT\nEND:VCALENDAR";

const TEST_EVENT_MULTIDAY_LASTMODIFIED: &str = "BEGIN:VCALENDAR\nVERSION:2.0\nPRODID:-//ABC Corporation//NONSGML My Product//EN\nBEGIN:VEVENT\nUID:20070423T123432Z-541111@example.com\nDTSTAMP:20070423T123432Z\nLAST-MODIFIED:20070423T123432Z\nDTSTART;VALUE=DATE:20070628\nDTEND;VALUE=DATE:20070709\nSUMMARY:Festival International de Jazz de Montreal\nEND:VEVENT\nEND:VCALENDAR";

#[test]
fn get_property_test() {
    let cal = IcalVCalendar::from_str(TEST_EVENT_MULTIDAY, None).unwrap();
    let event = cal.get_principal_event();
    let prop_name = "SUMMARY";
    let prop_value: String = event.get_property_by_name(prop_name).unwrap().get_value();

    assert_eq!(
        "Festival International de Jazz de Montreal".to_string(),
        prop_value
    );
}

#[test]
fn get_property_test_lastmodified() {
    let cal = IcalVCalendar::from_str(TEST_EVENT_MULTIDAY_LASTMODIFIED, None).unwrap();
    let event = cal.get_principal_event();
    let prop_name = "LAST-MODIFIED";
    let prop_value: String = event.get_property_by_name(prop_name).unwrap().get_value();

    assert_eq!("20070423T123432Z".to_string(), prop_value);
}

#[test]
fn get_property_test_cal() {
    let cal = IcalVCalendar::from_str(TEST_EVENT_MULTIDAY, None).unwrap();
    let prop_name = "PRODID";
    let prop_value: String = cal.get_property_by_name(prop_name).unwrap().get_value();

    assert_eq!(
        "-//ABC Corporation//NONSGML My Product//EN".to_string(),
        prop_value
    );
}

#[test]
fn get_property_test_negative() {
    let cal = IcalVCalendar::from_str(TEST_EVENT_MULTIDAY, None).unwrap();
    let event = cal.get_principal_event();
    let prop_name = "DESCRIPTION";
    let prop = event.get_property_by_name(prop_name);

    assert!(prop.is_none());
}

#[test]
fn get_property_by_name_test() {
    let cal = IcalVCalendar::from_str(TEST_EVENT_MULTIDAY, None).unwrap();
    let event = cal.get_principal_event();
    let prop_name = "NONSENSE";
    let prop = event.get_property_by_name(prop_name);

    assert!(prop.is_none());
}
