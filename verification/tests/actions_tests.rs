use khaleesi::actions::{action_get, action_get_calendars, do_show, seq_actions,
    write_stdin_to_seqfile};
use khaleesi::errors::KhError;

const SEQ_FILE_ONE: &str = "BEGIN:VCALENDAR\nVERSION:2.0\nPRODID:-//ABC Corporation//NONSGML My Product//EN\nBEGIN:VEVENT\nUID:first-in-sequence@example.com\nDTSTAMP:20180813T160005Z\nDTSTART:20180823T093000Z\nDTEND:20180823T101500Z\nSUMMARY:Quarterly planning meetings along the platform teams\nLOCATION:Room one\nDESCRIPTION:First of the two chained events.\nSTATUS:CONFIRMED\nTRANSP:OPAQUE\nCLASS:PUBLIC\nEND:VEVENT\nEND:VCALENDAR";

const SEQ_FILE_TWO: &str = "BEGIN:VCALENDAR\nVERSION:2.0\nPRODID:-//ABC Corporation//NONSGML My Product//EN\nBEGIN:VEVENT\nUID:second-in-sequence@example.com\nDTSTAMP:20180813T160005Z\nDTSTART:20180824T110000Z\nDTEND:20180824T120000Z\nSUMMARY:Retrospective and review session with the same group\nLOCATION:Room two\nDESCRIPTION:Second of the two chained events.\nSTATUS:CONFIRMED\nTRANSP:OPAQUE\nCLASS:PUBLIC\nEND:VEVENT\nEND:VCALENDAR";

#[test]
fn test_() {
    let contents = vec![SEQ_FILE_ONE.to_string(), SEQ_FILE_TWO.to_string()];

    let shown = do_show(&contents);

    let mut stdout = String::new();
    for block in shown {
        stdout.push_str(&block);
        stdout.push('\n');
    }
    assert_eq!(784, stdout.len());
    assert_eq!(32, stdout.lines().count());
}

#[test]
fn test_get_calendars() {
    let calendars = vec![
        "first".to_string(),
        "second".to_string(),
        "second/second_sub".to_string(),
    ];

    let listed = action_get(&vec!["calendars".to_string()], &calendars).unwrap();

    let mut stdout = String::new();
    for line in listed {
        stdout.push_str(&line);
        stdout.push('\n');
    }
    assert_eq!("first\nsecond\nsecond/second_sub\n", stdout);
}

#[test]
fn action_get_unknown_parameter() {
    let calendars = vec!["first".to_string()];
    let r = action_get(&vec!["nonsense".to_string()], &calendars);
    assert_eq!(r.err(), Some(KhError::BadSyntax));
}

#[test]
fn action_get_empty_args() {
    let calendars = vec!["first".to_string()];
    let r = action_get(&vec![], &calendars);
    assert_eq!(r.err(), Some(KhError::BadSyntax));
}

#[test]
fn action_get_calendars_lists_all() {
    let calendars = vec!["a".to_string(), "b".to_string()];
    assert_eq!(calendars, action_get_calendars(&calendars));
}

#[test]
fn seq_actions_piped_input() {
    assert_eq!((true, false), seq_actions(false, true));
    assert_eq!((false, true), seq_actions(true, false));
    assert_eq!((true, true), seq_actions(false, false));
    assert_eq!((false, true), seq_actions(true, true));
}

#[test]
fn write_stdin_to_seqfile_joins_lines() {
    let lines = vec!["one".to_string(), "two".to_string()];
    assert_eq!("one\ntwo\n", write_stdin_to_seqfile(&lines));
}
