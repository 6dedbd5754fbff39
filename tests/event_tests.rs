use birthdays::error::Error;
use birthdays::event::{event_from_properties, events_from_components, parse_calendar};
use birthdays::rrule::{Rrule, YearlyRule};

fn prop(name: &str, value: Option<&str>) -> (String, Option<String>) {
    (name.to_string(), value.map(|v| v.to_string()))
}

#[test]
fn gathers_summary_start_and_rule() {
    let e = event_from_properties(&vec![
        prop("DTSTART", Some("20000315")),
        prop("SUMMARY", Some("Alice")),
        prop("RRULE", Some("FREQ=YEARLY;BYMONTHDAY=15;BYMONTH=3")),
        prop("LOCATION", Some("Home")),
    ]);
    assert_eq!(e.summary.as_deref(), Some("Alice"));
    assert_eq!(e.date_start.as_deref(), Some("20000315"));
    assert_eq!(
        e.rrule,
        Some(Rrule::Yearly(YearlyRule { by_month_day: 15, by_month: 3 }))
    );
}

#[test]
fn later_property_replaces_earlier() {
    let e = event_from_properties(&vec![
        prop("SUMMARY", Some("Alice")),
        prop("SUMMARY", Some("Bob")),
        prop("RRULE", Some("FREQ=YEARLY;BYMONTHDAY=1;BYMONTH=1")),
        prop("RRULE", Some("FREQ=WEEKLY")),
    ]);
    assert_eq!(e.summary.as_deref(), Some("Bob"));
    assert_eq!(e.rrule, None);
}

#[test]
fn rule_without_value_changes_nothing() {
    let e = event_from_properties(&vec![
        prop("RRULE", Some("FREQ=YEARLY;BYMONTHDAY=1;BYMONTH=1")),
        prop("RRULE", None),
    ]);
    assert_eq!(
        e.rrule,
        Some(Rrule::Yearly(YearlyRule { by_month_day: 1, by_month: 1 }))
    );
}

#[test]
fn component_without_properties_is_kept_empty() {
    let events = events_from_components(&vec![vec![], vec![prop("SUMMARY", Some("Carol"))]]);
    assert_eq!(events.len(), 2);
    assert!(events[0].summary.is_none() && events[0].rrule.is_none());
    assert_eq!(events[1].summary.as_deref(), Some("Carol"));
}

const CALENDAR: &str = "BEGIN:VCALENDAR\r
VERSION:2.0\r
BEGIN:VEVENT\r
DTSTART;VALUE=DATE:19900315\r
RRULE:FREQ=YEARLY;BYMONTHDAY=15;BYMONTH=3\r
SUMMARY:Alice\r
END:VEVENT\r
BEGIN:VEVENT\r
SUMMARY:Team meeting\r
RRULE:FREQ=WEEKLY;BYDAY=MO\r
END:VEVENT\r
END:VCALENDAR\r
";

#[test]
fn reads_events_of_a_calendar_file() {
    let events = parse_calendar(CALENDAR.as_bytes()).unwrap();
    assert_eq!(events.len(), 2);
    assert_eq!(events[0].summary.as_deref(), Some("Alice"));
    assert_eq!(events[0].date_start.as_deref(), Some("19900315"));
    assert_eq!(
        events[0].rrule,
        Some(Rrule::Yearly(YearlyRule { by_month_day: 15, by_month: 3 }))
    );
    assert_eq!(events[1].summary.as_deref(), Some("Team meeting"));
    assert_eq!(events[1].rrule, None);
}

#[test]
fn empty_file_holds_no_calendar() {
    assert!(matches!(parse_calendar(b""), Err(Error::IterError)));
}

#[test]
fn text_without_calendar_header_is_a_decode_error() {
    let r = parse_calendar(b"BEGIN:VEVENT\r\nSUMMARY:x\r\nEND:VEVENT\r\n");
    assert!(matches!(r, Err(Error::ParseError(_))));
}

#[test]
fn unfinished_calendar_is_a_decode_error() {
    let r = parse_calendar(b"BEGIN:VCALENDAR\r\nBEGIN:VEVENT\r\nSUMMARY:x\r\n");
    assert!(matches!(r, Err(Error::ParseError(_))));
}
