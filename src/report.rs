//! Which yearly events fall today, tomorrow, or within the coming week, and
//! the report that lists them.
use crate::calendar::{
    abbreviation_of, day_month, day_month_text, instant_of, is_valid_date, local_midnight,
    local_now, nanos_since_epoch, valid_date, weekday_at, weekday_of, midnight_utc_secs, moment_fits_date, Moment, Weekday,
    NANOS_PER_DAY,
};
use crate::error::Error;
use crate::event::Event;
use crate::rrule::{Rrule, YearlyRule};
use crate::text::{digit_char, digit_str};
use vstd::prelude::*;
use vstd::string::*;

verus! {

/// Where this year's date of an event falls: local midnight as seconds and
/// nanoseconds since the epoch, and its weekday.
#[derive(Clone, Copy, Debug, PartialEq, Eq, Structural)]
pub struct Occurrence {
    pub secs: i64,
    pub nanos: u32,
    pub weekday: Weekday,
}

impl Occurrence {
    pub open spec fn instant(self) -> int {
        instant_of(self.secs, self.nanos)
    }
}

/// An event of the coming week: whole days until it, its weekday, its date
/// as `DD/MM`, and its name.
#[derive(Debug)]
pub struct Upcoming {
    pub days: i64,
    pub weekday: Weekday,
    pub date: String,
    pub name: String,
}

pub struct UpcomingView {
    pub days: int,
    pub weekday: Weekday,
    pub date: Seq<char>,
    pub name: Seq<char>,
}

impl View for Upcoming {
    type V = UpcomingView;

    open spec fn view(&self) -> UpcomingView {
        UpcomingView {
            days: self.days as int,
            weekday: self.weekday,
            date: self.date@,
            name: self.name@,
        }
    }
}

/// The three lists of the report.
#[derive(Debug)]
pub struct Report {
    pub today: Vec<String>,
    pub tomorrow: Vec<String>,
    pub upcoming: Vec<Upcoming>,
}

pub struct ReportView {
    pub today: Seq<Seq<char>>,
    pub tomorrow: Seq<Seq<char>>,
    pub upcoming: Seq<UpcomingView>,
}

pub open spec fn names_view(s: Seq<String>) -> Seq<Seq<char>> {
    s.map_values(|n: String| n@)
}

pub open spec fn upcoming_view(s: Seq<Upcoming>) -> Seq<UpcomingView> {
    s.map_values(|u: Upcoming| u@)
}

impl View for Report {
    type V = ReportView;

    open spec fn view(&self) -> ReportView {
        ReportView {
            today: names_view(self.today@),
            tomorrow: names_view(self.tomorrow@),
            upcoming: upcoming_view(self.upcoming@),
        }
    }
}

impl Report {
    /// Every event of the coming week is between one and six days away.
    pub open spec fn wf(&self) -> bool {
        forall|i: int|
            0 <= i < self.upcoming@.len() ==> 1 <= #[trigger] self.upcoming@[i].days <= 6
    }
}

pub open spec fn yearly_rule(e: Event) -> Option<YearlyRule> {
    match e.rrule {
        Some(Rrule::Yearly(y)) => Some(y),
        None => None,
    }
}

pub open spec fn name_of(e: Event) -> Seq<char> {
    e.summary->0@
}

/// A yearly event that cannot be reported: it has no name, its date does
/// not exist in the current year, or no instant was found for it.
pub open spec fn fails(e: Event, now: Moment, o: Option<Occurrence>) -> bool {
    match yearly_rule(e) {
        Some(y) => e.summary is None || !is_valid_date(
            now.year as int,
            y.by_month as int,
            y.by_month_day as int,
        ) || o is None,
        None => false,
    }
}

pub open spec fn all_reportable(
    events: Seq<Event>,
    now: Moment,
    occ: Seq<Option<Occurrence>>,
) -> bool {
    forall|i: int| 0 <= i < events.len() ==> !fails(#[trigger] events[i], now, occ[i])
}

/// Today: the rule's month and day are those of the local date now.
pub open spec fn in_today(e: Event, now: Moment) -> bool {
    match yearly_rule(e) {
        Some(y) => y.by_month == now.month && y.by_month_day == now.day,
        None => false,
    }
}

/// Tomorrow: the occurrence lies strictly between now and now + 24 h.
pub open spec fn in_tomorrow(e: Event, now: Moment, o: Option<Occurrence>) -> bool {
    yearly_rule(e) is Some && match o {
        Some(o) => now.instant() < o.instant() < now.instant() + NANOS_PER_DAY,
        None => false,
    }
}

/// The coming week: the occurrence lies strictly between now + 24 h and
/// now + 7 × 24 h.
pub open spec fn in_upcoming(e: Event, now: Moment, o: Option<Occurrence>) -> bool {
    yearly_rule(e) is Some && match o {
        Some(o) => now.instant() + NANOS_PER_DAY < o.instant() < now.instant() + 7
            * NANOS_PER_DAY,
        None => false,
    }
}

pub open spec fn upcoming_entry(e: Event, now: Moment, o: Occurrence) -> UpcomingView {
    let y = yearly_rule(e)->0;
    UpcomingView {
        days: (o.instant() - now.instant()) / (NANOS_PER_DAY as int),
        weekday: o.weekday,
        date: day_month_text(y.by_month_day as nat, y.by_month as nat),
        name: name_of(e),
    }
}

/// The names for today among the first `n` events, in event order.
pub open spec fn today_names(events: Seq<Event>, now: Moment, n: nat) -> Seq<Seq<char>>
    decreases n,
{
    if n == 0 {
        seq![]
    } else {
        let rest = today_names(events, now, (n - 1) as nat);
        if in_today(events[n - 1], now) {
            rest.push(name_of(events[n - 1]))
        } else {
            rest
        }
    }
}

/// The names for tomorrow among the first `n` events, in event order.
pub open spec fn tomorrow_names(
    events: Seq<Event>,
    now: Moment,
    occ: Seq<Option<Occurrence>>,
    n: nat,
) -> Seq<Seq<char>>
    decreases n,
{
    if n == 0 {
        seq![]
    } else {
        let rest = tomorrow_names(events, now, occ, (n - 1) as nat);
        if in_tomorrow(events[n - 1], now, occ[n - 1]) {
            rest.push(name_of(events[n - 1]))
        } else {
            rest
        }
    }
}

/// The entries of the coming week among the first `n` events, in event
/// order.
pub open spec fn week_entries(
    events: Seq<Event>,
    now: Moment,
    occ: Seq<Option<Occurrence>>,
    n: nat,
) -> Seq<UpcomingView>
    decreases n,
{
    if n == 0 {
        seq![]
    } else {
        let rest = week_entries(events, now, occ, (n - 1) as nat);
        if in_upcoming(events[n - 1], now, occ[n - 1]) {
            rest.push(upcoming_entry(events[n - 1], now, occ[n - 1]->0))
        } else {
            rest
        }
    }
}

/// The entries of `s` that are `k` days away, in their order in `s`.
pub open spec fn with_days(s: Seq<UpcomingView>, k: int) -> Seq<UpcomingView>
    decreases s.len(),
{
    if s.len() == 0 {
        seq![]
    } else {
        let rest = with_days(s.drop_last(), k);
        if s.last().days == k {
            rest.push(s.last())
        } else {
            rest
        }
    }
}

/// The entries `lo` days away, then those `lo + 1` days away, and so on
/// below `hi`: a stable sort by day count.
pub open spec fn grouped(s: Seq<UpcomingView>, lo: int, hi: int) -> Seq<UpcomingView>
    decreases hi - lo,
{
    if hi <= lo {
        seq![]
    } else {
        grouped(s, lo, hi - 1) + with_days(s, hi - 1)
    }
}

/// The report on `events` at `now`, each event's occurrence given by `occ`.
pub open spec fn report_of(
    events: Seq<Event>,
    now: Moment,
    occ: Seq<Option<Occurrence>>,
) -> ReportView {
    let n = events.len();
    ReportView {
        today: today_names(events, now, n),
        tomorrow: tomorrow_names(events, now, occ, n),
        upcoming: grouped(week_entries(events, now, occ, n), 1, 7),
    }
}

/// What classifying `events` at `now` with occurrences `occ` gives: the
/// report where every yearly event can be reported, else `IncorrectRrule`.
pub open spec fn classified_as(
    events: Seq<Event>,
    now: Moment,
    occ: Seq<Option<Occurrence>>,
    r: Result<Report, Error>,
) -> bool {
    &&& (r is Ok) == all_reportable(events, now, occ)
    &&& r matches Ok(rep) ==> rep@ == report_of(events, now, occ) && rep.wf()
    &&& r matches Err(e) ==> e is IncorrectRrule
}

proof fn lemma_days_in_week(diff: int)
    requires
        NANOS_PER_DAY < diff < 7 * NANOS_PER_DAY,
    ensures
        1 <= diff / (NANOS_PER_DAY as int) <= 6,
{
    let d = NANOS_PER_DAY as int;
    assert(1 <= diff / d <= 6) by (nonlinear_arith)
        requires
            d < diff < 7 * d,
            d > 0,
    ;
}

fn copy_upcoming(u: &Upcoming) -> (r: Upcoming)
    ensures
        r@ == u@,
{
    Upcoming { days: u.days, weekday: u.weekday, date: u.date.clone(), name: u.name.clone() }
}

/// Orders the entries by day count, keeping event order among equal counts.
fn group_by_days(entries: &Vec<Upcoming>) -> (r: Vec<Upcoming>)
    requires
        forall|i: int| 0 <= i < entries@.len() ==> 1 <= #[trigger] entries@[i].days <= 6,
    ensures
        upcoming_view(r@) == grouped(upcoming_view(entries@), 1, 7),
        forall|i: int| 0 <= i < r@.len() ==> 1 <= #[trigger] r@[i].days <= 6,
{
    let ghost s = upcoming_view(entries@);
    let mut out: Vec<Upcoming> = Vec::new();
    let mut k: i64 = 1;
    while k <= 6
        invariant
            1 <= k <= 7,
            s == upcoming_view(entries@),
            upcoming_view(out@) == grouped(s, 1, k as int),
            forall|i: int| 0 <= i < out@.len() ==> 1 <= #[trigger] out@[i].days <= 6,
        decreases 7 - k,
    {
        let mut j: usize = 0;
        assert(s.take(0) =~= Seq::<UpcomingView>::empty());
        assert(upcoming_view(out@) =~= grouped(s, 1, k as int) + with_days(s.take(0), k as int));
        while j < entries.len()
            invariant
                1 <= k <= 6,
                j <= entries@.len(),
                s == upcoming_view(entries@),
                upcoming_view(out@) == grouped(s, 1, k as int) + with_days(
                    s.take(j as int),
                    k as int,
                ),
                forall|i: int| 0 <= i < out@.len() ==> 1 <= #[trigger] out@[i].days <= 6,
            decreases entries@.len() - j,
        {
            assert(s.take(j + 1).drop_last() =~= s.take(j as int));
            assert(s[j as int] == entries@[j as int]@);
            if entries[j].days == k {
                let ghost before = out@;
                out.push(copy_upcoming(&entries[j]));
                assert(upcoming_view(out@) =~= upcoming_view(before).push(entries@[j as int]@));
            }
            j += 1;
            assert(upcoming_view(out@) =~= grouped(s, 1, k as int) + with_days(
                s.take(j as int),
                k as int,
            ));
        }
        assert(s.take(entries@.len() as int) =~= s);
        k += 1;
    }
    out
}

/// Sorts the events into the report's three lists, given where each event
/// falls this year (`None` for an event without a yearly rule, or where no
/// instant could be found).
pub fn classify(events: &Vec<Event>, now: &Moment, occurrences: &Vec<Option<Occurrence>>) -> (r:
    Result<Report, Error>)
    requires
        occurrences@.len() == events@.len(),
    ensures
        classified_as(events@, *now, occurrences@, r),
{
    let now_ns = nanos_since_epoch(now.secs, now.nanos);
    let tomorrow_end = now_ns + NANOS_PER_DAY;
    let week_end = now_ns + 7 * NANOS_PER_DAY;
    let mut today: Vec<String> = Vec::new();
    let mut tomorrow: Vec<String> = Vec::new();
    let mut week: Vec<Upcoming> = Vec::new();
    let mut i: usize = 0;
    while i < events.len()
        invariant
            occurrences@.len() == events@.len(),
            i <= events@.len(),
            now_ns == now.instant(),
            tomorrow_end == now.instant() + NANOS_PER_DAY,
            week_end == now.instant() + 7 * NANOS_PER_DAY,
            forall|j: int| 0 <= j < i ==> !fails(#[trigger] events@[j], *now, occurrences@[j]),
            names_view(today@) == today_names(events@, *now, i as nat),
            names_view(tomorrow@) == tomorrow_names(events@, *now, occurrences@, i as nat),
            upcoming_view(week@) == week_entries(events@, *now, occurrences@, i as nat),
            forall|j: int| 0 <= j < week@.len() ==> 1 <= #[trigger] week@[j].days <= 6,
        decreases events@.len() - i,
    {
        let event = &events[i];
        let ghost e = events@[i as int];
        let ghost o = occurrences@[i as int];
        match event.rrule {
            Some(Rrule::Yearly(y)) => {
                let name = match &event.summary {
                    Some(n) => n,
                    None => {
                        assert(fails(e, *now, o));
                        return Err(Error::IncorrectRrule);
                    },
                };
                if !valid_date(now.year, y.by_month, y.by_month_day) {
                    assert(fails(e, *now, o));
                    return Err(Error::IncorrectRrule);
                }
                let occ = match occurrences[i] {
                    Some(occ) => occ,
                    None => {
                        assert(fails(e, *now, o));
                        return Err(Error::IncorrectRrule);
                    },
                };
                if y.by_month == now.month && y.by_month_day == now.day {
                    let ghost before = today@;
                    today.push(name.clone());
                    assert(names_view(today@) =~= names_view(before).push(name_of(e)));
                }
                let t = nanos_since_epoch(occ.secs, occ.nanos);
                if now_ns < t && t < tomorrow_end {
                    let ghost before = tomorrow@;
                    tomorrow.push(name.clone());
                    assert(names_view(tomorrow@) =~= names_view(before).push(name_of(e)));
                }
                if tomorrow_end < t && t < week_end {
                    proof {
                        lemma_days_in_week(t - now_ns);
                    }
                    let days = ((t - now_ns) / NANOS_PER_DAY) as i64;
                    let date = day_month(y.by_month_day, y.by_month);
                    let ghost before = week@;
                    week.push(Upcoming { days, weekday: occ.weekday, date, name: name.clone() });
                    assert(upcoming_view(week@) =~= upcoming_view(before).push(
                        upcoming_entry(e, *now, occ),
                    ));
                }
            },
            None => {},
        }
        i += 1;
    }
    let upcoming = group_by_days(&week);
    Ok(Report { today, tomorrow, upcoming })
}

/// One `> name` line per name.
pub open spec fn name_lines(names: Seq<Seq<char>>) -> Seq<char>
    decreases names.len(),
{
    if names.len() == 0 {
        seq![]
    } else {
        name_lines(names.drop_last()) + "> "@ + names.last() + "\n"@
    }
}

/// A line of the coming week, as ` 5 days | Fri 15/03 | Alice`: the day
/// count right-aligned in two columns, `day` alone for a count of one.
pub open spec fn upcoming_line(u: UpcomingView) -> Seq<char> {
    seq![' ', digit_char(u.days as nat)] + (if u.days == 1 {
        " day  | "@
    } else {
        " days | "@
    }) + abbreviation_of(u.weekday) + " "@ + u.date + " | "@ + u.name + "\n"@
}

pub open spec fn upcoming_lines(s: Seq<UpcomingView>) -> Seq<char>
    decreases s.len(),
{
    if s.len() == 0 {
        seq![]
    } else {
        upcoming_lines(s.drop_last()) + upcoming_line(s.last())
    }
}

/// The body of the today or tomorrow section: its names and a blank line,
/// or the message `none` where there are none.
pub open spec fn section(names: Seq<Seq<char>>, none: Seq<char>) -> Seq<char> {
    if names.len() == 0 {
        none
    } else {
        name_lines(names) + "\n"@
    }
}

/// The text of a report: a today, a tomorrow and an upcoming section, each
/// under its heading, an empty one with a line saying that it holds nothing.
pub open spec fn report_text(r: ReportView) -> Seq<char> {
    "-----\nTODAY\n-----\n"@ + section(r.today, "No birthdays today\n\n"@)
        + "--------\nTOMORROW\n--------\n"@ + section(r.tomorrow, "No birthdays tomorrow\n\n"@)
        + "--------\nUPCOMING\n--------\n"@ + if r.upcoming.len() == 0 {
        "No birthdays in 7 days\n"@
    } else {
        upcoming_lines(r.upcoming)
    }
}

fn append_section(out: &mut String, names: &Vec<String>, none: &str)
    ensures
        final(out)@ == old(out)@ + section(names_view(names@), none@),
{
    if names.len() == 0 {
        out.append(none);
        return;
    }
    let ghost start = old(out)@;
    let mut i: usize = 0;
    assert(names_view(names@).take(0) =~= Seq::<Seq<char>>::empty());
    while i < names.len()
        invariant
            i <= names@.len(),
            out@ == start + name_lines(names_view(names@).take(i as int)),
        decreases names@.len() - i,
    {
        let ghost v = names_view(names@);
        assert(v.take(i + 1).drop_last() =~= v.take(i as int));
        assert(v.take(i + 1).last() == names@[i as int]@);
        out.append("> ");
        out.append(names[i].as_str());
        out.append("\n");
        i += 1;
        assert(out@ =~= start + name_lines(v.take(i as int)));
    }
    assert(names_view(names@).take(names@.len() as int) =~= names_view(names@));
    out.append("\n");
    assert(out@ =~= start + section(names_view(names@), none@));
}

fn append_upcoming_line(out: &mut String, u: &Upcoming)
    requires
        1 <= u.days <= 6,
    ensures
        final(out)@ == old(out)@ + upcoming_line(u@),
{
    let ghost start = old(out)@;
    out.append(" ");
    out.append(digit_str(u.days as u32));
    if u.days == 1 {
        out.append(" day  | ");
    } else {
        out.append(" days | ");
    }
    out.append(u.weekday.abbreviation());
    out.append(" ");
    out.append(u.date.as_str());
    out.append(" | ");
    out.append(u.name.as_str());
    out.append("\n");
    proof {
        reveal_strlit(" ");
    }
    assert(out@ =~= start + upcoming_line(u@));
}

impl Report {
    /// The report as text, each section headed as in
    ///
    /// ```text
    /// -----
    /// TODAY
    /// -----
    /// > Alice
    /// ```
    pub fn render(&self) -> (r: String)
        requires
            self.wf(),
        ensures
            r@ == report_text(self@),
    {
        let mut out = String::new();
        out.append("-----\nTODAY\n-----\n");
        append_section(&mut out, &self.today, "No birthdays today\n\n");
        out.append("--------\nTOMORROW\n--------\n");
        append_section(&mut out, &self.tomorrow, "No birthdays tomorrow\n\n");
        let ghost head = out@;
        assert(head =~= "-----\nTODAY\n-----\n"@ + section(self@.today, "No birthdays today\n\n"@)
            + "--------\nTOMORROW\n--------\n"@ + section(
            self@.tomorrow,
            "No birthdays tomorrow\n\n"@,
        ));
        out.append("--------\nUPCOMING\n--------\n");
        if self.upcoming.len() == 0 {
            out.append("No birthdays in 7 days\n");
        } else {
            let ghost mid = out@;
            let ghost v = upcoming_view(self.upcoming@);
            let mut i: usize = 0;
            assert(v.take(0) =~= Seq::<UpcomingView>::empty());
            while i < self.upcoming.len()
                invariant
                    self.wf(),
                    v == upcoming_view(self.upcoming@),
                    i <= self.upcoming@.len(),
                    out@ == mid + upcoming_lines(v.take(i as int)),
                decreases self.upcoming@.len() - i,
            {
                let u = &self.upcoming[i];
                assert(v.take(i + 1).drop_last() =~= v.take(i as int));
                assert(v.take(i + 1).last() == u@);
                assert(1 <= self.upcoming@[i as int].days <= 6);
                append_upcoming_line(&mut out, u);
                i += 1;
                assert(out@ =~= mid + upcoming_lines(v.take(i as int)));
            }
            assert(v.take(self.upcoming@.len() as int) =~= v);
        }
        out
    }
}

/// The occurrence `o` is one that the local time zone may give for event
/// `e` this year: only an event with a yearly rule on an existing date has
/// one; its weekday is that of the date, and its instant is that date's
/// midnight less an offset of under a day.
pub open spec fn occurrence_fits(e: Event, now: Moment, o: Option<Occurrence>) -> bool {
    match o {
        Some(o) => match yearly_rule(e) {
            Some(y) => {
                let (yy, mm, dd) = (now.year as int, y.by_month as int, y.by_month_day as int);
                &&& is_valid_date(yy, mm, dd)
                &&& o.weekday == weekday_at(weekday_of(yy, mm, dd))
                &&& o.nanos == 0
                &&& -86400 < o.secs - midnight_utc_secs(yy, mm, dd) < 86400
            },
            None => false,
        },
        None => true,
    }
}

pub open spec fn occurrences_fit(
    events: Seq<Event>,
    now: Moment,
    occ: Seq<Option<Occurrence>>,
) -> bool {
    &&& occ.len() == events.len()
    &&& forall|i: int| 0 <= i < events.len() ==> occurrence_fits(events[i], now, #[trigger] occ[i])
}

/// Finds where each yearly event falls in the year of `now`: local midnight
/// of its month and day.
pub fn occurrences_at(events: &Vec<Event>, now: &Moment) -> (r: Vec<Option<Occurrence>>)
    ensures
        occurrences_fit(events@, *now, r@),
{
    let mut occ: Vec<Option<Occurrence>> = Vec::new();
    let mut i: usize = 0;
    while i < events.len()
        invariant
            i <= events@.len(),
            occ@.len() == i,
            forall|j: int|
                0 <= j < i ==> occurrence_fits(events@[j], *now, #[trigger] occ@[j]),
        decreases events@.len() - i,
    {
        let found = match events[i].rrule {
            Some(Rrule::Yearly(y)) => match local_midnight(now.year, y.by_month, y.by_month_day) {
                Some((secs, nanos, w)) => Some(
                    Occurrence { secs, nanos, weekday: Weekday::from_index(w) },
                ),
                None => None,
            },
            None => None,
        };
        occ.push(found);
        i += 1;
    }
    occ
}

/// The report on `events` at the moment `now`, in the local time zone.
pub fn find_birthdays_at(events: &Vec<Event>, now: &Moment) -> (r: Result<Report, Error>)
    ensures
        exists|occ: Seq<Option<Occurrence>>|
            occurrences_fit(events@, *now, occ) && #[trigger] classified_as(
                events@,
                *now,
                occ,
                r,
            ),
{
    let occ = occurrences_at(events, now);
    let r = classify(events, now, &occ);
    assert(classified_as(events@, *now, occ@, r));
    r
}

/// The report on `events` now, by the local clock and time zone.
pub fn find_birthdays(events: &Vec<Event>) -> (r: Result<Report, Error>)
    ensures
        exists|now: Moment, occ: Seq<Option<Occurrence>>|
            1 <= now.month <= 12 && 1 <= now.day <= 31 && moment_fits_date(now)
                && occurrences_fit(events@, now, occ) && #[trigger] classified_as(
                events@,
                now,
                occ,
                r,
            ),
{
    let now = local_now();
    find_birthdays_at(events, &now)
}

proof fn lemma_with_days_empty(k: int)
    ensures
        with_days(Seq::<UpcomingView>::empty(), k) == Seq::<UpcomingView>::empty(),
{
}

proof fn lemma_grouped_empty(lo: int, hi: int)
    ensures
        grouped(Seq::<UpcomingView>::empty(), lo, hi) == Seq::<UpcomingView>::empty(),
    decreases hi - lo,
{
    if hi > lo {
        lemma_grouped_empty(lo, hi - 1);
        assert(Seq::<UpcomingView>::empty() + Seq::<UpcomingView>::empty() =~= Seq::<
            UpcomingView,
        >::empty());
    }
}

/// An event whose yearly date is today's local date, and whose occurrence
/// (that day's midnight) is therefore not after now, is listed today and in
/// no other list.
pub proof fn lemma_today_only(e: Event, now: Moment, o: Occurrence)
    requires
        in_today(e, now),
        o.instant() <= now.instant(),
    ensures
        report_of(seq![e], now, seq![Some(o)]).today == seq![name_of(e)],
        report_of(seq![e], now, seq![Some(o)]).tomorrow.len() == 0,
        report_of(seq![e], now, seq![Some(o)]).upcoming.len() == 0,
{
    let es = seq![e];
    let os = seq![Some(o)];
    assert(es[0] == e && os[0] == Some(o));
    assert(today_names(es, now, 0) =~= Seq::<Seq<char>>::empty());
    assert(tomorrow_names(es, now, os, 0) =~= Seq::<Seq<char>>::empty());
    assert(week_entries(es, now, os, 0) =~= Seq::<UpcomingView>::empty());
    assert(!in_tomorrow(e, now, Some(o)));
    assert(!in_upcoming(e, now, Some(o)));
    assert(today_names(es, now, 1) =~= seq![name_of(e)]);
    assert(tomorrow_names(es, now, os, 1) =~= Seq::<Seq<char>>::empty());
    assert(week_entries(es, now, os, 1) =~= Seq::<UpcomingView>::empty());
    lemma_grouped_empty(1, 7);
}

/// An event exactly 24 hours after now is in neither the tomorrow list nor
/// the coming week: both bounds are strict.
pub proof fn lemma_next_day_boundary(e: Event, now: Moment, o: Occurrence)
    requires
        o.instant() == now.instant() + NANOS_PER_DAY,
    ensures
        report_of(seq![e], now, seq![Some(o)]).tomorrow.len() == 0,
        report_of(seq![e], now, seq![Some(o)]).upcoming.len() == 0,
{
    let es = seq![e];
    let os = seq![Some(o)];
    assert(es[0] == e && os[0] == Some(o));
    assert(today_names(es, now, 0) =~= Seq::<Seq<char>>::empty());
    assert(tomorrow_names(es, now, os, 0) =~= Seq::<Seq<char>>::empty());
    assert(week_entries(es, now, os, 0) =~= Seq::<UpcomingView>::empty());
    assert(!in_tomorrow(e, now, Some(o)));
    assert(!in_upcoming(e, now, Some(o)));
    assert(tomorrow_names(es, now, os, 1) =~= Seq::<Seq<char>>::empty());
    assert(week_entries(es, now, os, 1) =~= Seq::<UpcomingView>::empty());
    lemma_grouped_empty(1, 7);
}

proof fn lemma_with_days_concat(a: Seq<UpcomingView>, b: Seq<UpcomingView>, k: int)
    ensures
        with_days(a + b, k) == with_days(a, k) + with_days(b, k),
    decreases b.len(),
{
    if b.len() == 0 {
        assert(a + b =~= a);
        assert(with_days(a, k) + with_days(b, k) =~= with_days(a, k));
    } else {
        lemma_with_days_concat(a, b.drop_last(), k);
        assert((a + b).drop_last() =~= a + b.drop_last());
        assert((a + b).last() == b.last());
        if b.last().days == k {
            assert((with_days(a, k) + with_days(b.drop_last(), k)).push(b.last()) =~= with_days(
                a,
                k,
            ) + with_days(b.drop_last(), k).push(b.last()));
        }
    }
}

proof fn lemma_with_days_twice(s: Seq<UpcomingView>, j: int, k: int)
    ensures
        with_days(with_days(s, j), k) == if j == k {
            with_days(s, k)
        } else {
            Seq::<UpcomingView>::empty()
        },
    decreases s.len(),
{
    if s.len() > 0 {
        lemma_with_days_twice(s.drop_last(), j, k);
        let w = with_days(s.drop_last(), j);
        if s.last().days == j {
            assert(w.push(s.last()).drop_last() =~= w);
        }
    }
}

proof fn lemma_with_days_all(s: Seq<UpcomingView>, k: int)
    ensures
        forall|i: int| 0 <= i < with_days(s, k).len() ==> (#[trigger] with_days(s, k)[i]).days == k,
    decreases s.len(),
{
    if s.len() > 0 {
        lemma_with_days_all(s.drop_last(), k);
    }
}

proof fn lemma_with_days_outside(s: Seq<UpcomingView>, k: int)
    requires
        forall|i: int| 0 <= i < s.len() ==> 1 <= (#[trigger] s[i]).days <= 6,
        k < 1 || k > 6,
    ensures
        with_days(s, k) == Seq::<UpcomingView>::empty(),
    decreases s.len(),
{
    if s.len() > 0 {
        assert(s.last() == s[s.len() - 1]);
        lemma_with_days_outside(s.drop_last(), k);
    }
}

proof fn lemma_grouped_filter(s: Seq<UpcomingView>, lo: int, hi: int, k: int)
    ensures
        with_days(grouped(s, lo, hi), k) == if lo <= k < hi {
            with_days(s, k)
        } else {
            Seq::<UpcomingView>::empty()
        },
    decreases hi - lo,
{
    if hi > lo {
        lemma_grouped_filter(s, lo, hi - 1, k);
        lemma_with_days_concat(grouped(s, lo, hi - 1), with_days(s, hi - 1), k);
        lemma_with_days_twice(s, hi - 1, k);
        if lo <= k < hi - 1 {
            assert(with_days(s, k) + Seq::<UpcomingView>::empty() =~= with_days(s, k));
        } else if k == hi - 1 {
            assert(Seq::<UpcomingView>::empty() + with_days(s, k) =~= with_days(s, k));
        } else {
            assert(Seq::<UpcomingView>::empty() + Seq::<UpcomingView>::empty() =~= Seq::<
                UpcomingView,
            >::empty());
        }
    }
}

proof fn lemma_grouped_sorted(s: Seq<UpcomingView>, lo: int, hi: int)
    ensures
        forall|i: int|
            0 <= i < grouped(s, lo, hi).len() ==> lo <= (#[trigger] grouped(s, lo, hi)[i]).days
                < hi,
        forall|a: int, b: int|
            0 <= a < b < grouped(s, lo, hi).len() ==> (#[trigger] grouped(s, lo, hi)[a]).days
                <= (#[trigger] grouped(s, lo, hi)[b]).days,
    decreases hi - lo,
{
    if hi > lo {
        lemma_grouped_sorted(s, lo, hi - 1);
        lemma_with_days_all(s, hi - 1);
        let g = grouped(s, lo, hi - 1);
        let w = with_days(s, hi - 1);
        let all = grouped(s, lo, hi);
        assert(all == g + w);
        assert forall|i: int| 0 <= i < all.len() implies lo <= (#[trigger] all[i]).days < hi by {
            if i < g.len() {
                assert(all[i] == g[i]);
            } else {
                assert(all[i] == w[i - g.len()]);
            }
        }
        assert forall|a: int, b: int| 0 <= a < b < all.len() implies (
        #[trigger] all[a]).days <= (#[trigger] all[b]).days by {
            if b < g.len() {
                assert(all[a] == g[a] && all[b] == g[b]);
            } else if a < g.len() {
                assert(all[a] == g[a] && all[b] == w[b - g.len()]);
            } else {
                assert(all[a] == w[a - g.len()] && all[b] == w[b - g.len()]);
            }
        }
    }
}

proof fn lemma_week_entries_days(
    events: Seq<Event>,
    now: Moment,
    occ: Seq<Option<Occurrence>>,
    n: nat,
)
    requires
        n <= events.len(),
        occ.len() == events.len(),
    ensures
        forall|i: int|
            0 <= i < week_entries(events, now, occ, n).len() ==> 1 <= (
            #[trigger] week_entries(events, now, occ, n)[i]).days <= 6,
    decreases n,
{
    if n > 0 {
        lemma_week_entries_days(events, now, occ, (n - 1) as nat);
        if in_upcoming(events[n - 1], now, occ[n - 1]) {
            lemma_days_in_week(occ[n - 1]->0.instant() - now.instant());
        }
    }
}

/// The coming week is ordered by day count, and among entries with the same
/// count the order of the events is kept.
pub proof fn lemma_upcoming_sorted_stable(
    events: Seq<Event>,
    now: Moment,
    occ: Seq<Option<Occurrence>>,
)
    requires
        occ.len() == events.len(),
    ensures
        forall|a: int, b: int|
            0 <= a < b < report_of(events, now, occ).upcoming.len() ==> (#[trigger] report_of(
                events,
                now,
                occ,
            ).upcoming[a]).days <= (#[trigger] report_of(events, now, occ).upcoming[b]).days,
        forall|k: int|
            #[trigger] with_days(report_of(events, now, occ).upcoming, k) == with_days(
                week_entries(events, now, occ, events.len()),
                k,
            ),
{
    let s = week_entries(events, now, occ, events.len());
    lemma_grouped_sorted(s, 1, 7);
    lemma_week_entries_days(events, now, occ, events.len());
    assert forall|k: int| #[trigger]
        with_days(report_of(events, now, occ).upcoming, k) == with_days(s, k) by {
        lemma_grouped_filter(s, 1, 7, k);
        if k < 1 || k > 6 {
            lemma_with_days_outside(s, k);
        }
    }
}

/// Classifying the same events at the same moment twice gives the same
/// report text.
pub proof fn lemma_classification_repeatable(
    events: Seq<Event>,
    now: Moment,
    occ: Seq<Option<Occurrence>>,
    first: Result<Report, Error>,
    second: Result<Report, Error>,
)
    requires
        classified_as(events, now, occ, first),
        classified_as(events, now, occ, second),
    ensures
        first is Ok == second is Ok,
        first is Ok ==> report_text(first->Ok_0@) == report_text(second->Ok_0@),
{
}

proof fn lemma_insert_shift(
    events: Seq<Event>,
    now: Moment,
    occ: Seq<Option<Occurrence>>,
    i: int,
    e: Event,
    o: Option<Occurrence>,
    n: nat,
)
    requires
        !in_tomorrow(e, now, o),
        !in_upcoming(e, now, o),
        0 <= i <= events.len(),
        occ.len() == events.len(),
        n <= events.len() + 1,
    ensures
        ({
            let m = if n <= i {
                n
            } else {
                (n - 1) as nat
            };
            let ev = events.insert(i, e);
            let oc = occ.insert(i, o);
            &&& !in_today(e, now) ==> today_names(ev, now, n) == today_names(events, now, m)
            &&& tomorrow_names(ev, now, oc, n) == tomorrow_names(events, now, occ, m)
            &&& week_entries(ev, now, oc, n) == week_entries(events, now, occ, m)
        }),
    decreases n,
{
    if n > 0 {
        lemma_insert_shift(events, now, occ, i, e, o, (n - 1) as nat);
        let ev = events.insert(i, e);
        let oc = occ.insert(i, o);
        let k = n - 1;
        if k < i {
            assert(ev[k] == events[k] && oc[k] == occ[k]);
        } else if k == i {
            assert(ev[k] == e && oc[k] == o);
        } else {
            assert(ev[k] == events[k - 1] && oc[k] == occ[k - 1]);
        }
    }
}

/// An event whose yearly date is today's local date, and whose occurrence is
/// not after now, adds nothing to the tomorrow list or the coming week,
/// wherever it stands among other events.
pub proof fn lemma_today_adds_nothing_later(
    events: Seq<Event>,
    now: Moment,
    occ: Seq<Option<Occurrence>>,
    i: int,
    e: Event,
    o: Occurrence,
)
    requires
        in_today(e, now),
        o.instant() <= now.instant(),
        0 <= i <= events.len(),
        occ.len() == events.len(),
    ensures
        report_of(events.insert(i, e), now, occ.insert(i, Some(o))).tomorrow == report_of(
            events,
            now,
            occ,
        ).tomorrow,
        report_of(events.insert(i, e), now, occ.insert(i, Some(o))).upcoming == report_of(
            events,
            now,
            occ,
        ).upcoming,
{
    lemma_insert_shift(events, now, occ, i, e, Some(o), (events.len() + 1) as nat);
}

/// An event exactly 24 hours after now adds nothing to the tomorrow list or
/// the coming week, wherever it stands among other events.
pub proof fn lemma_next_day_adds_nothing(
    events: Seq<Event>,
    now: Moment,
    occ: Seq<Option<Occurrence>>,
    i: int,
    e: Event,
    o: Occurrence,
)
    requires
        o.instant() == now.instant() + NANOS_PER_DAY,
        0 <= i <= events.len(),
        occ.len() == events.len(),
    ensures
        report_of(events.insert(i, e), now, occ.insert(i, Some(o))).tomorrow == report_of(
            events,
            now,
            occ,
        ).tomorrow,
        report_of(events.insert(i, e), now, occ.insert(i, Some(o))).upcoming == report_of(
            events,
            now,
            occ,
        ).upcoming,
{
    lemma_insert_shift(events, now, occ, i, e, Some(o), (events.len() + 1) as nat);
}

/// An event without a yearly rule (a weekly one, or one whose rule could
/// not be read) changes nothing wherever it is inserted: it is given no
/// occurrence, causes no error and is listed nowhere.
pub proof fn lemma_event_without_rule_ignored(
    events: Seq<Event>,
    now: Moment,
    occ: Seq<Option<Occurrence>>,
    i: int,
    e: Event,
)
    requires
        yearly_rule(e) is None,
        0 <= i <= events.len(),
        occ.len() == events.len(),
    ensures
        forall|o: Option<Occurrence>| #[trigger] occurrence_fits(e, now, o) ==> o is None,
        all_reportable(events.insert(i, e), now, occ.insert(i, None)) == all_reportable(
            events,
            now,
            occ,
        ),
        report_of(events.insert(i, e), now, occ.insert(i, None)) == report_of(events, now, occ),
{
    let ev = events.insert(i, e);
    let oc = occ.insert(i, None);
    lemma_insert_shift(events, now, occ, i, e, None, (events.len() + 1) as nat);
    if all_reportable(events, now, occ) {
        assert forall|j: int| 0 <= j < ev.len() implies !fails(#[trigger] ev[j], now, oc[j]) by {
            if j < i {
                assert(ev[j] == events[j] && oc[j] == occ[j]);
            } else if j > i {
                assert(ev[j] == events[j - 1] && oc[j] == occ[j - 1]);
            }
        }
    }
    if all_reportable(ev, now, oc) {
        assert forall|j: int| 0 <= j < events.len() implies !fails(
            #[trigger] events[j],
            now,
            occ[j],
        ) by {
            if j < i {
                assert(ev[j] == events[j] && oc[j] == occ[j]);
            } else {
                assert(ev[j + 1] == events[j] && oc[j + 1] == occ[j]);
            }
        }
    }
}

} // verus!
