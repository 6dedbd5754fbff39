//! Birthday reminders from a calendar file: yearly recurrence rules, the
//! events that carry them, and a report of what falls today, tomorrow and
//! within the next week.
pub mod text;
pub mod rrule;
pub mod calendar;
pub mod error;
pub mod event;
pub mod report;
