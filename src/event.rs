//! Calendar events: the properties of each calendar component, gathered into
//! an event with its recurrence rule.
use crate::error::Error;
use crate::rrule::{parse, rule_of, Rrule};
use crate::text::{chars_of, text_is};
use vstd::prelude::*;

verus! {

/// One event of the calendar.
#[derive(Debug)]
pub struct Event {
    /// The `DTSTART` value, kept as written.
    pub date_start: Option<String>,
    /// The `SUMMARY` value: the name shown in the report.
    pub summary: Option<String>,
    /// The rule read from the `RRULE` value, where it states one.
    pub rrule: Option<Rrule>,
}

pub struct EventView {
    pub date_start: Option<Seq<char>>,
    pub summary: Option<Seq<char>>,
    pub rrule: Option<Rrule>,
}

impl View for Event {
    type V = EventView;

    open spec fn view(&self) -> EventView {
        EventView {
            date_start: match self.date_start {
                Some(s) => Some(s@),
                None => None,
            },
            summary: match self.summary {
                Some(s) => Some(s@),
                None => None,
            },
            rrule: self.rrule,
        }
    }
}

/// A property of a calendar component: its name and its value, if any.
pub type PropertyView = (Seq<char>, Option<Seq<char>>);

/// The event that a component's properties describe, read in order: a later
/// property of the same name replaces an earlier one. An `RRULE` without a
/// value changes nothing; names other than `RRULE`, `SUMMARY` and `DTSTART`
/// are ignored.
pub open spec fn event_of(props: Seq<PropertyView>) -> EventView
    decreases props.len(),
{
    if props.len() == 0 {
        EventView { date_start: None, summary: None, rrule: None }
    } else {
        let e = event_of(props.drop_last());
        let (name, value) = props.last();
        if name == "RRULE"@ {
            match value {
                Some(v) => EventView { rrule: rule_of(v), ..e },
                None => e,
            }
        } else if name == "SUMMARY"@ {
            EventView { summary: value, ..e }
        } else if name == "DTSTART"@ {
            EventView { date_start: value, ..e }
        } else {
            e
        }
    }
}

pub open spec fn events_view(events: Seq<Event>) -> Seq<EventView> {
    events.map_values(|e: Event| e@)
}

fn copy_value(v: &Option<String>) -> (r: Option<String>)
    ensures
        r.deep_view() == v.deep_view(),
{
    match v {
        Some(s) => Some(s.clone()),
        None => None,
    }
}

/// Gathers one component's properties into an event.
pub fn event_from_properties(props: &Vec<(String, Option<String>)>) -> (r: Event)
    ensures
        r@ == event_of(props.deep_view()),
{
    let mut event = Event { date_start: None, summary: None, rrule: None };
    let mut i: usize = 0;
    while i < props.len()
        invariant
            i <= props@.len(),
            event@ == event_of(props.deep_view().take(i as int)),
        decreases props@.len() - i,
    {
        let ghost p = props.deep_view().take(i + 1);
        assert(p.drop_last() =~= props.deep_view().take(i as int));
        let name = chars_of(props[i].0.as_str());
        if text_is(&name, "RRULE") {
            match &props[i].1 {
                Some(v) => {
                    event.rrule = parse(v.as_str());
                },
                None => {},
            }
        } else if text_is(&name, "SUMMARY") {
            event.summary = copy_value(&props[i].1);
        } else if text_is(&name, "DTSTART") {
            event.date_start = copy_value(&props[i].1);
        }
        i += 1;
    }
    assert(props.deep_view().take(props@.len() as int) =~= props.deep_view());
    event
}

/// Gathers each component into an event, in the order of the components.
pub fn events_from_components(components: &Vec<Vec<(String, Option<String>)>>) -> (r: Vec<Event>)
    ensures
        events_view(r@) == components.deep_view().map_values(
            |c: Seq<PropertyView>| event_of(c),
        ),
{
    let mut events: Vec<Event> = Vec::new();
    let mut i: usize = 0;
    while i < components.len()
        invariant
            i <= components@.len(),
            events_view(events@) == components.deep_view().take(i as int).map_values(
                |c: Seq<PropertyView>| event_of(c),
            ),
        decreases components@.len() - i,
    {
        let e = event_from_properties(&components[i]);
        let ghost before = events@;
        assert(components.deep_view()[i as int] == components@[i as int].deep_view());
        events.push(e);
        i += 1;
        assert(events_view(events@) =~= events_view(before).push(e@));
        assert(events_view(events@) =~= components.deep_view().take(i as int).map_values(
            |c: Seq<PropertyView>| event_of(c),
        ));
    }
    assert(components.deep_view().take(components@.len() as int) =~= components.deep_view());
    events
}

/// What the first calendar of a text holds, as the properties of each of its
/// events: `None` where the text holds no calendar, `Some(None)` where it
/// cannot be decoded.
pub uninterp spec fn ical_calendar(content: Seq<u8>) -> Option<
    Option<Seq<Seq<PropertyView>>>,
>;

/// Relies on ical's `IcalParser::new(..).next()`: the first calendar of the
/// text, or its decoding error, or nothing. Of each event of that calendar,
/// the name and value of each property, in order.
#[verifier::external_body]
fn first_calendar(content: &[u8]) -> (r: Option<
    Result<Vec<Vec<(String, Option<String>)>>, ical::parser::ParserError>,
>)
    ensures
        match r {
            None => ical_calendar(content@) is None,
            Some(Err(_)) => ical_calendar(content@) == Some(None::<Seq<Seq<PropertyView>>>),
            Some(Ok(c)) => ical_calendar(content@) == Some(Some(c.deep_view())),
        },
{
    match ical::IcalParser::new(content).next() {
        None => None,
        Some(Err(e)) => Some(Err(e)),
        Some(Ok(cal)) => Some(Ok(cal.events.into_iter().map(
            |ev| ev.properties.into_iter().map(|p| (p.name, p.value)).collect(),
        ).collect())),
    }
}

/// Reads the events of the first calendar in `content`.
pub fn parse_calendar(content: &[u8]) -> (r: Result<Vec<Event>, Error>)
    ensures
        match ical_calendar(content@) {
            None => r matches Err(Error::IterError),
            Some(None) => r matches Err(Error::ParseError(_)),
            Some(Some(c)) => r is Ok && events_view(r->Ok_0@) == c.map_values(
                |p: Seq<PropertyView>| event_of(p),
            ),
        },
{
    match first_calendar(content) {
        None => Err(Error::IterError),
        Some(Err(e)) => Err(Error::ParseError(e)),
        Some(Ok(components)) => Ok(events_from_components(&components)),
    }
}

} // verus!
