//! Recurrence rules: the `RRULE` value of a calendar event, read into a typed
//! yearly rule.
use crate::text::{
    chars_of, has_at, is_digit, lemma_decimal_digits, lemma_split_join, lemma_split_no_sep,
    parse_u32, parse_u32_from, split_chars, split_on, text_is, decimal,
};
use vstd::prelude::*;

verus! {

/// The calendar day on which a yearly event recurs.
///
/// Values are kept as written: a month of 13 is held, and simply never
/// matches a real date.
#[derive(Clone, Copy, Debug, PartialEq, Eq, Structural)]
pub struct YearlyRule {
    pub by_month_day: u32,
    pub by_month: u32,
}

/// A recurrence rule that the reminder understands.
#[derive(Clone, Copy, Debug, PartialEq, Eq, Structural)]
pub enum Rrule {
    Yearly(YearlyRule),
}

/// The value of a `KEY=VALUE` field whose `KEY=` part is `prefix`, read as a
/// `u32`; `None` when the key differs or the value is not such a number.
pub open spec fn keyed_number(field: Seq<char>, prefix: Seq<char>) -> Option<u32> {
    if field.len() >= prefix.len() && field.take(prefix.len() as int) == prefix {
        parse_u32(field.skip(prefix.len() as int))
    } else {
        None
    }
}

/// The rule that `text` states. The fields are taken by position: the first
/// must be `FREQ=YEARLY`, the second `BYMONTHDAY=<n>`, the third
/// `BYMONTH=<m>`; further fields are ignored. Anything else states no rule.
pub open spec fn rule_of(text: Seq<char>) -> Option<Rrule> {
    let f = split_on(text, ';');
    if f.len() >= 3 && f[0] == "FREQ=YEARLY"@ {
        match (keyed_number(f[1], "BYMONTHDAY="@), keyed_number(f[2], "BYMONTH="@)) {
            (Some(d), Some(m)) => Some(Rrule::Yearly(YearlyRule { by_month_day: d, by_month: m })),
            _ => None,
        }
    } else {
        None
    }
}

/// The text `FREQ=YEARLY;BYMONTHDAY=<d>;BYMONTH=<m>`, numbers in decimal.
pub open spec fn yearly_rule_text(d: nat, m: nat) -> Seq<char> {
    "FREQ=YEARLY"@.push(';') + ("BYMONTHDAY="@ + decimal(d)).push(';') + ("BYMONTH="@
        + decimal(m))
}

fn field_number(field: &Vec<char>, prefix: &str) -> (r: Option<u32>)
    ensures
        r == keyed_number(field@, prefix@),
{
    if has_at(field, 0, prefix) {
        let n = prefix.unicode_len();
        assert(field@.subrange(0, n as int) =~= field@.take(n as int));
        parse_u32_from(field, n)
    } else {
        proof {
            if field@.len() >= prefix@.len() && field@.take(prefix@.len() as int) == prefix@ {
                assert(field@.subrange(0, prefix@.len() as int) =~= field@.take(
                    prefix@.len() as int,
                ));
            }
        }
        None
    }
}

/// Reads a recurrence rule such as `FREQ=YEARLY;BYMONTHDAY=14;BYMONTH=3`.
/// Unsupported frequencies and malformed text give `None`.
pub fn parse(rule_text: &str) -> (r: Option<Rrule>)
    ensures
        r == rule_of(rule_text@),
{
    let chars = chars_of(rule_text);
    let fields = split_chars(&chars, ';');
    let ghost f = split_on(rule_text@, ';');
    assert(fields@.len() == f.len());
    if fields.len() < 3 {
        return None;
    }
    assert(fields@[0]@ == f[0]);
    assert(fields@[1]@ == f[1]);
    assert(fields@[2]@ == f[2]);
    if !text_is(&fields[0], "FREQ=YEARLY") {
        return None;
    }
    let day = field_number(&fields[1], "BYMONTHDAY=");
    let month = field_number(&fields[2], "BYMONTH=");
    match (day, month) {
        (Some(d), Some(m)) => Some(Rrule::Yearly(YearlyRule { by_month_day: d, by_month: m })),
        _ => None,
    }
}

impl Rrule {
    /// The rule of an event's `RRULE` value, if it has one that is understood.
    pub fn from_outlook_event(rule: Option<String>) -> (r: Option<Rrule>)
        ensures
            r == match rule {
                Some(s) => rule_of(s@),
                None => None,
            },
    {
        match rule {
            Some(s) => parse(s.as_str()),
            None => None,
        }
    }
}

/// Every well-formed yearly rule with a day in 1–31 and a month in 1–12 is
/// read back with exactly its two numbers.
pub proof fn lemma_yearly_round_trip(d: u32, m: u32)
    requires
        1 <= d <= 31,
        1 <= m <= 12,
    ensures
        rule_of(yearly_rule_text(d as nat, m as nat)) == Some(
            Rrule::Yearly(YearlyRule { by_month_day: d, by_month: m }),
        ),
{
    reveal_strlit("FREQ=YEARLY");
    reveal_strlit("BYMONTHDAY=");
    reveal_strlit("BYMONTH=");
    let a = "FREQ=YEARLY"@;
    let b = "BYMONTHDAY="@ + decimal(d as nat);
    let c = "BYMONTH="@ + decimal(m as nat);
    lemma_decimal_digits(d as nat);
    lemma_decimal_digits(m as nat);
    assert forall|i: int| 0 <= i < b.len() implies b[i] != ';' by {
        if i >= 11 {
            assert(is_digit(decimal(d as nat)[i - 11]));
        }
    }
    assert forall|i: int| 0 <= i < c.len() implies c[i] != ';' by {
        if i >= 8 {
            assert(is_digit(decimal(m as nat)[i - 8]));
        }
    }
    lemma_split_no_sep(a, ';');
    lemma_split_no_sep(b, ';');
    lemma_split_no_sep(c, ';');
    lemma_split_join(a, b.push(';') + c, ';');
    lemma_split_join(b, c, ';');
    assert(yearly_rule_text(d as nat, m as nat) =~= a.push(';') + (b.push(';') + c));
    let f = split_on(yearly_rule_text(d as nat, m as nat), ';');
    assert(f =~= seq![a, b, c]);
    assert(b.take(11) =~= "BYMONTHDAY="@);
    assert(b.skip(11) =~= decimal(d as nat));
    assert(c.take(8) =~= "BYMONTH="@);
    assert(c.skip(8) =~= decimal(m as nat));
}

/// A first field other than `FREQ=YEARLY` (another frequency, or no `FREQ`
/// at all), fewer than three fields, or a day or month field that is not
/// `BYMONTHDAY=<n>` or `BYMONTH=<m>` with a number, gives no rule.
pub proof fn lemma_unsupported_gives_none(text: Seq<char>)
    requires
        split_on(text, ';')[0] != "FREQ=YEARLY"@ || split_on(text, ';').len() < 3 || keyed_number(
            split_on(text, ';')[1],
            "BYMONTHDAY="@,
        ) is None || keyed_number(split_on(text, ';')[2], "BYMONTH="@) is None,
    ensures
        rule_of(text) is None,
{
}

} // verus!
