use birthdays::calendar::{day_month, valid_date, Moment, Weekday};
use birthdays::error::Error;
use birthdays::event::Event;
use birthdays::report::{
    classify, find_birthdays, find_birthdays_at, occurrences_at, Occurrence, Report, Upcoming,
};
use birthdays::rrule::{Rrule, YearlyRule};
use chrono::{Datelike, Local, TimeZone};

const MAR_10: i64 = 1710028800;
const MAR_14: i64 = 1710374400;
const MAR_15: i64 = 1710460800;
const MAR_16: i64 = 1710547200;
const MAR_17: i64 = 1710633600;
const MAR_12: i64 = 1710201600;
const DAY: i64 = 86400;

fn yearly_event(name: Option<&str>, d: u32, m: u32) -> Event {
    Event {
        date_start: None,
        summary: name.map(|n| n.to_string()),
        rrule: Some(Rrule::Yearly(YearlyRule { by_month_day: d, by_month: m })),
    }
}

fn alice() -> Event {
    yearly_event(Some("Alice"), 15, 3)
}

fn moment(day: u32, secs: i64) -> Moment {
    Moment { year: 2024, month: 3, day, secs, nanos: 0 }
}

fn at(secs: i64, weekday: Weekday) -> Option<Occurrence> {
    Some(Occurrence { secs, nanos: 0, weekday })
}

fn names(v: &[String]) -> Vec<&str> {
    v.iter().map(|s| s.as_str()).collect()
}

fn entry(u: &Upcoming) -> (i64, Weekday, &str, &str) {
    (u.days, u.weekday, u.date.as_str(), u.name.as_str())
}

#[test]
fn birthday_today_is_listed_today_only() {
    let r = classify(&vec![alice()], &moment(15, MAR_15 + 10 * 3600), &vec![at(MAR_15, Weekday::Fri)]).unwrap();
    assert_eq!(names(&r.today), vec!["Alice"]);
    assert!(r.tomorrow.is_empty());
    assert!(r.upcoming.is_empty());
}

#[test]
fn birthday_today_at_midnight_is_listed_today_only() {
    let r = classify(&vec![alice()], &moment(15, MAR_15), &vec![at(MAR_15, Weekday::Fri)]).unwrap();
    assert_eq!(names(&r.today), vec!["Alice"]);
    assert!(r.tomorrow.is_empty() && r.upcoming.is_empty());
}

#[test]
fn birthday_tomorrow_is_listed_tomorrow() {
    let r = classify(&vec![alice()], &moment(14, MAR_14 + 9 * 3600), &vec![at(MAR_15, Weekday::Fri)]).unwrap();
    assert!(r.today.is_empty());
    assert_eq!(names(&r.tomorrow), vec!["Alice"]);
    assert!(r.upcoming.is_empty());
}

#[test]
fn birthday_exactly_one_day_ahead_is_in_no_list() {
    let r = classify(&vec![alice()], &moment(14, MAR_14), &vec![at(MAR_15, Weekday::Fri)]).unwrap();
    assert!(r.today.is_empty() && r.tomorrow.is_empty() && r.upcoming.is_empty());
}

#[test]
fn birthday_five_days_ahead_is_upcoming() {
    let r = classify(&vec![alice()], &moment(10, MAR_10), &vec![at(MAR_15, Weekday::Fri)]).unwrap();
    assert!(r.today.is_empty() && r.tomorrow.is_empty());
    assert_eq!(r.upcoming.len(), 1);
    assert_eq!(entry(&r.upcoming[0]), (5, Weekday::Fri, "15/03", "Alice"));
}

#[test]
fn day_count_is_truncated() {
    let r = classify(&vec![alice()], &moment(10, MAR_10 + 3600), &vec![at(MAR_15, Weekday::Fri)]).unwrap();
    assert_eq!(r.upcoming[0].days, 4);
}

#[test]
fn birthday_seven_days_ahead_is_in_no_list() {
    let r = classify(&vec![alice()], &moment(8, MAR_15 - 7 * DAY), &vec![at(MAR_15, Weekday::Fri)]).unwrap();
    assert!(r.today.is_empty() && r.tomorrow.is_empty() && r.upcoming.is_empty());
    let r = classify(&vec![alice()], &moment(8, MAR_15 - 7 * DAY + 1), &vec![at(MAR_15, Weekday::Fri)]).unwrap();
    assert_eq!(r.upcoming[0].days, 6);
}

#[test]
fn past_birthday_is_in_no_list() {
    let r = classify(&vec![alice()], &moment(20, MAR_15 + 5 * DAY), &vec![at(MAR_15, Weekday::Fri)]).unwrap();
    assert!(r.today.is_empty() && r.tomorrow.is_empty() && r.upcoming.is_empty());
}

#[test]
fn weekly_event_contributes_to_no_list() {
    for (day, secs) in [(10, MAR_10), (14, MAR_14), (15, MAR_15)] {
        let weekly = Event {
            date_start: None,
            summary: Some("Team".to_string()),
            rrule: Rrule::from_outlook_event(Some("FREQ=WEEKLY;BYDAY=MO".to_string())),
        };
        assert!(weekly.rrule.is_none());
        let r = classify(&vec![weekly], &moment(day, secs), &vec![None]).unwrap();
        assert!(r.today.is_empty() && r.tomorrow.is_empty() && r.upcoming.is_empty());
    }
}

#[test]
fn upcoming_is_sorted_by_days_and_keeps_event_order() {
    let events = vec![
        yearly_event(Some("Sun"), 17, 3),
        yearly_event(Some("Fri A"), 15, 3),
        yearly_event(Some("Tue"), 12, 3),
        yearly_event(Some("Fri B"), 15, 3),
        yearly_event(Some("Sat"), 16, 3),
    ];
    let occ = vec![
        at(MAR_17, Weekday::Sun),
        at(MAR_15, Weekday::Fri),
        at(MAR_12, Weekday::Tue),
        at(MAR_15, Weekday::Fri),
        at(MAR_16, Weekday::Sat),
    ];
    let r = classify(&events, &moment(10, MAR_10), &occ).unwrap();
    let got: Vec<(i64, &str)> = r.upcoming.iter().map(|u| (u.days, u.name.as_str())).collect();
    assert_eq!(got, vec![(2, "Tue"), (5, "Fri A"), (5, "Fri B"), (6, "Sat")]);
}

#[test]
fn yearly_event_without_name_is_an_error() {
    let r = classify(&vec![yearly_event(None, 15, 3)], &moment(10, MAR_10), &vec![at(MAR_15, Weekday::Fri)]);
    assert!(matches!(r, Err(Error::IncorrectRrule)));
}

#[test]
fn date_missing_this_year_is_an_error() {
    let r = classify(&vec![yearly_event(Some("Bob"), 30, 2)], &moment(10, MAR_10), &vec![at(MAR_15, Weekday::Fri)]);
    assert!(matches!(r, Err(Error::IncorrectRrule)));
    let r = classify(&vec![yearly_event(Some("Bob"), 1, 13)], &moment(10, MAR_10), &vec![at(MAR_15, Weekday::Fri)]);
    assert!(matches!(r, Err(Error::IncorrectRrule)));
}

#[test]
fn missing_occurrence_is_an_error() {
    let r = classify(&vec![alice()], &moment(10, MAR_10), &vec![None]);
    assert!(matches!(r, Err(Error::IncorrectRrule)));
}

#[test]
fn event_without_rule_or_name_is_skipped() {
    let e = Event { date_start: None, summary: None, rrule: None };
    let r = classify(&vec![e], &moment(10, MAR_10), &vec![None]).unwrap();
    assert!(r.today.is_empty() && r.tomorrow.is_empty() && r.upcoming.is_empty());
}

#[test]
fn empty_event_list_reports_three_empty_sections() {
    let r = classify(&vec![], &moment(10, MAR_10), &vec![]).unwrap();
    assert_eq!(
        r.render(),
        "-----\nTODAY\n-----\nNo birthdays today\n\n--------\nTOMORROW\n--------\nNo birthdays tomorrow\n\n--------\nUPCOMING\n--------\nNo birthdays in 7 days\n"
    );
}

#[test]
fn renders_all_sections() {
    let report = Report {
        today: vec!["Alice".to_string(), "Bob".to_string()],
        tomorrow: vec!["Carol".to_string()],
        upcoming: vec![
            Upcoming { days: 1, weekday: Weekday::Sat, date: "16/03".to_string(), name: "Dan".to_string() },
            Upcoming { days: 5, weekday: Weekday::Wed, date: "20/03".to_string(), name: "Eve".to_string() },
        ],
    };
    assert_eq!(
        report.render(),
        "-----\nTODAY\n-----\n> Alice\n> Bob\n\n--------\nTOMORROW\n--------\n> Carol\n\n--------\nUPCOMING\n--------\n 1 day  | Sat 16/03 | Dan\n 5 days | Wed 20/03 | Eve\n"
    );
}

#[test]
fn classifying_twice_gives_the_same_text() {
    let events = vec![alice(), yearly_event(Some("Tue"), 12, 3)];
    let occ = vec![at(MAR_15, Weekday::Fri), at(MAR_12, Weekday::Tue)];
    let a = classify(&events, &moment(10, MAR_10), &occ).unwrap().render();
    let b = classify(&events, &moment(10, MAR_10), &occ).unwrap().render();
    assert_eq!(a, b);
    assert!(a.contains(" 5 days | Fri 15/03 | Alice\n"));
}

#[test]
fn dates_are_zero_padded() {
    assert_eq!(day_month(5, 3), "05/03");
    assert_eq!(day_month(31, 12), "31/12");
}

#[test]
fn leap_years_follow_the_gregorian_rule() {
    assert!(valid_date(2024, 2, 29));
    assert!(!valid_date(2023, 2, 29));
    assert!(!valid_date(1900, 2, 29));
    assert!(valid_date(2000, 2, 29));
    assert!(!valid_date(2024, 4, 31));
    assert!(!valid_date(2024, 0, 1));
    assert!(!valid_date(2024, 1, 0));
}

fn local_moment(y: i32, m: u32, d: u32, h: u32) -> Moment {
    let t = Local.with_ymd_and_hms(y, m, d, h, 0, 0).single().unwrap();
    Moment { year: t.year(), month: t.month(), day: t.day(), secs: t.timestamp(), nanos: t.timestamp_subsec_nanos() }
}

#[test]
fn local_occurrence_has_the_weekday_of_its_date() {
    let occ = occurrences_at(&vec![alice(), yearly_event(Some("Leap"), 29, 2)], &local_moment(2024, 6, 1, 12));
    let o = occ[0].unwrap();
    assert_eq!(o.weekday, Weekday::Fri);
    assert_eq!(o.secs, Local.with_ymd_and_hms(2024, 3, 15, 0, 0, 0).single().unwrap().timestamp());
    assert_eq!(occ[1].unwrap().weekday, Weekday::Thu);
}

#[test]
fn local_occurrence_of_a_missing_date_is_none() {
    let occ = occurrences_at(&vec![yearly_event(Some("Leap"), 29, 2)], &local_moment(2023, 6, 1, 12));
    assert!(occ[0].is_none());
    let r = find_birthdays_at(&vec![yearly_event(Some("Leap"), 29, 2)], &local_moment(2023, 6, 1, 12));
    assert!(matches!(r, Err(Error::IncorrectRrule)));
}

#[test]
fn report_by_the_local_clock_at_a_given_moment() {
    let events = vec![yearly_event(Some("June"), 15, 6), yearly_event(Some("Next"), 11, 6), yearly_event(Some("Today"), 10, 6)];
    let r = find_birthdays_at(&events, &local_moment(2024, 6, 10, 0)).unwrap();
    assert_eq!(names(&r.today), vec!["Today"]);
    assert!(r.tomorrow.is_empty());
    assert_eq!(r.upcoming.len(), 1);
    assert_eq!(entry(&r.upcoming[0]), (5, Weekday::Sat, "15/06", "June"));
    let r = find_birthdays_at(&events, &local_moment(2024, 6, 10, 12)).unwrap();
    assert_eq!(names(&r.tomorrow), vec!["Next"]);
}

#[test]
fn report_by_the_local_clock_now() {
    let r = find_birthdays(&vec![]).unwrap();
    assert!(r.today.is_empty() && r.tomorrow.is_empty() && r.upcoming.is_empty());
}

#[test]
fn local_midnight_is_within_a_day_of_utc_midnight() {
    let occ = occurrences_at(&vec![alice()], &local_moment(2024, 6, 1, 12));
    let o = occ[0].unwrap();
    assert_eq!(o.nanos, 0);
    assert!((o.secs - MAR_15).abs() < DAY);
}

#[test]
fn event_without_rule_changes_nothing_wherever_it_stands() {
    let weekly = || Event {
        date_start: None,
        summary: None,
        rrule: Rrule::from_outlook_event(Some("FREQ=WEEKLY;BYDAY=MO".to_string())),
    };
    let base = classify(
        &vec![alice(), yearly_event(Some("Tue"), 12, 3)],
        &moment(10, MAR_10),
        &vec![at(MAR_15, Weekday::Fri), at(MAR_12, Weekday::Tue)],
    )
    .unwrap()
    .render();
    let with_weekly = classify(
        &vec![alice(), weekly(), yearly_event(Some("Tue"), 12, 3)],
        &moment(10, MAR_10),
        &vec![at(MAR_15, Weekday::Fri), None, at(MAR_12, Weekday::Tue)],
    )
    .unwrap()
    .render();
    assert_eq!(base, with_weekly);
}

#[test]
fn empty_report_by_the_local_clock_has_three_headed_sections() {
    let text = find_birthdays(&vec![]).unwrap().render();
    assert!(text.contains("-----\nTODAY\n-----\nNo birthdays today\n"));
    assert!(text.contains("--------\nTOMORROW\n--------\nNo birthdays tomorrow\n"));
    assert!(text.ends_with("--------\nUPCOMING\n--------\nNo birthdays in 7 days\n"));
}
