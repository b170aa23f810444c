//! Calendar events: the fields of an event and its iCalendar form.

use crate::civil;
use crate::datetime;
use crate::datetime::{next_day, parse_ical_date, parse_ical_datetime};
use crate::decimal;
use crate::duration;
use crate::duration::{check_duration_fits, parse_duration, Unit};
use crate::error;
use crate::error::{Error, Fault};
use crate::ical;
use crate::ical::{fold_ical_line, ical_escape};
use crate::text;
use vstd::prelude::*;
use vstd::string::*;

verus! {

/// Fields for creating an event. `start` is `YYYY-MM-DD` for all-day events,
/// otherwise `YYYY-MM-DDTHH:MM[:SS][Z]` (no `Z` means floating local time).
#[derive(Debug, Clone, Copy)]
pub struct EventFields<'a> {
    /// The title.
    pub title: &'a str,
    /// When it starts.
    pub start: &'a str,
    /// When it ends, exclusively, in the form of `start`.
    pub end: Option<&'a str>,
    /// How long it takes, such as `1h`, `90m`, `1h30m` or `2d`. Without an end
    /// or a duration it is one hour, or one day for an all-day event.
    pub duration: Option<&'a str>,
    /// Whether it takes whole days.
    pub all_day: bool,
    /// Where it is.
    pub location: Option<&'a str>,
    /// A description.
    pub notes: Option<&'a str>,
    /// A recurrence rule as iCalendar writes it, such as
    /// `FREQ=WEEKLY;BYDAY=MO`.
    pub rrule: Option<&'a str>,
}

impl<'a> Default for EventFields<'a> {
    fn default() -> (r: Self)
        ensures
            r.title@.len() == 0,
            r.start@.len() == 0,
            r.end is None,
            r.duration is None,
            !r.all_day,
            r.location is None,
            r.notes is None,
            r.rrule is None,
    {
        proof {
            reveal_strlit("");
        }
        EventFields {
            title: "",
            start: "",
            end: None,
            duration: None,
            all_day: false,
            location: None,
            notes: None,
            rrule: None,
        }
    }
}

/// The DTSTART line, or why there can be no event.
pub open spec fn start_line(f: EventFields) -> Result<Seq<char>, Fault> {
    if text::trimmed(f.title@).len() == 0 {
        Err(Fault::Config("Event title must not be empty"@))
    } else if f.end is Some && f.duration is Some {
        Err(Fault::Config("Provide --end or --duration, not both"@))
    } else if f.rrule is Some && !"FREQ="@.is_prefix_of(text::uppered(f.rrule->Some_0@)) {
        Err(
            Fault::Config(
                "Invalid RRULE '"@ + f.rrule->Some_0@ + "': must start with FREQ="@,
            ),
        )
    } else if f.all_day {
        if f.start@.contains('T') || f.start@.contains('t') {
            Err(Fault::Config("--all-day events take a plain date (YYYY-MM-DD), not a time"@))
        } else {
            match datetime::date_text(f.start@) {
                Ok(date) => Ok("DTSTART;VALUE=DATE:"@ + date),
                Err(fault) => Err(fault),
            }
        }
    } else {
        match datetime::datetime_text(f.start@) {
            Ok(stamp) => Ok("DTSTART:"@ + stamp),
            Err(fault) => Err(fault),
        }
    }
}

/// The line that says when an all-day event ends.
pub open spec fn all_day_end_line(f: EventFields) -> Result<Seq<char>, Fault> {
    match (f.end, f.duration) {
        (Some(end), _) => match datetime::date_text(end@) {
            Ok(date) => Ok("DTEND;VALUE=DATE:"@ + date),
            Err(fault) => Err(fault),
        },
        (None, Some(duration)) => match duration::duration_text(duration@) {
            Ok(d) => if d.contains('T') {
                Err(
                    Fault::Config(
                        "All-day duration must be whole days (e.g. 2d), got '"@ + duration@ + "'"@,
                    ),
                )
            } else {
                Ok("DURATION:"@ + d)
            },
            Err(fault) => Err(fault),
        },
        (None, None) => match datetime::date_text(f.start@) {
            Ok(date) => match datetime::next_day_text(date) {
                Ok(next) => Ok("DTEND;VALUE=DATE:"@ + next),
                Err(fault) => Err(fault),
            },
            Err(fault) => Err(fault),
        },
    }
}

/// The line that says when an event with a time of day ends.
pub open spec fn timed_end_line(f: EventFields) -> Result<Seq<char>, Fault> {
    match (f.end, f.duration) {
        (Some(end), _) => match datetime::datetime_text(end@) {
            Ok(stamp) => Ok("DTEND:"@ + stamp),
            Err(fault) => Err(fault),
        },
        (None, Some(duration)) => match duration::duration_text(duration@) {
            Ok(d) => Ok("DURATION:"@ + d),
            Err(fault) => Err(fault),
        },
        (None, None) => Ok("DURATION:PT1H"@),
    }
}

/// The line that says when the event ends.
pub open spec fn end_line(f: EventFields) -> Result<Seq<char>, Fault> {
    if f.all_day {
        all_day_end_line(f)
    } else {
        timed_end_line(f)
    }
}

/// A line for a TEXT property, or none where there is no value.
pub open spec fn text_line(name: Seq<char>, value: Option<&str>) -> Seq<Seq<char>> {
    match value {
        Some(v) => seq![name + ical::escaped(v@)],
        None => Seq::<Seq<char>>::empty(),
    }
}

/// The line for the recurrence rule, or none where there is no rule.
pub open spec fn rule_line(rrule: Option<&str>) -> Seq<Seq<char>> {
    match rrule {
        Some(rule) => seq!["RRULE:"@ + text::uppered(rule@)],
        None => Seq::<Seq<char>>::empty(),
    }
}

/// The lines of a calendar with one event, unfolded, or why there can be none.
pub open spec fn event_lines(uid: Seq<char>, dtstamp: Seq<char>, f: EventFields) -> Result<
    Seq<Seq<char>>,
    Fault,
> {
    match start_line(f) {
        Err(fault) => Err(fault),
        Ok(start) => match end_line(f) {
            Err(fault) => Err(fault),
            Ok(end) => Ok(
                seq![
                    "BEGIN:VCALENDAR"@,
                    "VERSION:2.0"@,
                    "PRODID:-//fastmail-cli//EN"@,
                    "BEGIN:VEVENT"@,
                    "UID:"@ + uid,
                    "DTSTAMP:"@ + dtstamp,
                    start,
                    end,
                    "SUMMARY:"@ + ical::escaped(f.title@),
                ] + text_line("LOCATION:"@, f.location) + text_line("DESCRIPTION:"@, f.notes)
                    + rule_line(f.rrule) + seq!["END:VEVENT"@, "END:VCALENDAR"@],
            ),
        },
    }
}

/// The lines folded, each ended by CRLF.
pub open spec fn calendar_text(lines: Seq<Seq<char>>) -> Seq<char>
    decreases lines.len(),
{
    if lines.len() == 0 {
        Seq::<char>::empty()
    } else {
        calendar_text(lines.drop_last()) + ical::folded(lines.last()) + seq!['\r', '\n']
    }
}

/// A calendar with one event, or why there can be none.
pub open spec fn event_text(uid: Seq<char>, dtstamp: Seq<char>, f: EventFields) -> Result<
    Seq<char>,
    Fault,
> {
    match event_lines(uid, dtstamp, f) {
        Ok(lines) => Ok(calendar_text(lines)),
        Err(fault) => Err(fault),
    }
}

/// Whether a duration that is asked for adds up to less than 2^64 in each unit,
/// where the event gets as far as needing it.
pub open spec fn event_fits(f: EventFields) -> bool {
    start_line(f) is Ok && f.duration is Some ==> duration::duration_fits(f.duration->Some_0@)
}

/// Makes the DTSTART line, after checking the fields that do not depend on it.
fn make_start_line(fields: &EventFields<'_>) -> (r: Result<String, Error>)
    ensures
        error::outcome(r) == start_line(*fields),
{
    let title = text::to_chars(fields.title);
    if text::trim(title.as_slice()).len() == 0 {
        return Err(Error::Config("Event title must not be empty".to_owned()));
    }
    if fields.end.is_some() && fields.duration.is_some() {
        return Err(Error::Config("Provide --end or --duration, not both".to_owned()));
    }
    if let Some(rrule) = fields.rrule {
        let chars = text::to_chars(rrule);
        let upper = text::to_upper(chars.as_slice());
        let freq = text::to_chars("FREQ=");
        if !text::begins_with(upper.as_slice(), freq.as_slice()) {
            return Err(
                Error::Config(
                    text::concat3("Invalid RRULE '", rrule, "': must start with FREQ="),
                ),
            );
        }
    }
    if fields.all_day {
        let start = text::to_chars(fields.start);
        if text::contains_char(start.as_slice(), 'T') || text::contains_char(
            start.as_slice(),
            't',
        ) {
            return Err(
                Error::Config(
                    "--all-day events take a plain date (YYYY-MM-DD), not a time".to_owned(),
                ),
            );
        }
        match parse_ical_date(fields.start) {
            Ok(date) => Ok(text::concat2("DTSTART;VALUE=DATE:", date.as_str())),
            Err(e) => Err(e),
        }
    } else {
        match parse_ical_datetime(fields.start) {
            Ok(stamp) => Ok(text::concat2("DTSTART:", stamp.as_str())),
            Err(e) => Err(e),
        }
    }
}

/// Makes the line that says when an all-day event ends.
fn make_all_day_end_line(fields: &EventFields<'_>) -> (r: Result<String, Error>)
    requires
        fields.end is None && fields.duration is Some ==> duration::duration_fits(
            fields.duration->Some_0@,
        ),
    ensures
        error::outcome(r) == all_day_end_line(*fields),
{
    match (fields.end, fields.duration) {
        (Some(end), _) => match parse_ical_date(end) {
            Ok(date) => Ok(text::concat2("DTEND;VALUE=DATE:", date.as_str())),
            Err(e) => Err(e),
        },
        (None, Some(duration)) => match parse_duration(duration) {
            Ok(d) => {
                let chars = text::to_chars(d.as_str());
                if text::contains_char(chars.as_slice(), 'T') {
                    Err(
                        Error::Config(
                            text::concat3(
                                "All-day duration must be whole days (e.g. 2d), got '",
                                duration,
                                "'",
                            ),
                        ),
                    )
                } else {
                    Ok(text::concat2("DURATION:", d.as_str()))
                }
            },
            Err(e) => Err(e),
        },
        (None, None) => match parse_ical_date(fields.start) {
            Ok(date) => {
                proof {
                    datetime::law_date_normal_form(fields.start@);
                    datetime::lemma_digit_fields(date@);
                }
                match next_day(date.as_str()) {
                    Ok(next) => Ok(text::concat2("DTEND;VALUE=DATE:", next.as_str())),
                    Err(e) => Err(e),
                }
            },
            Err(e) => Err(e),
        },
    }
}

/// Makes the line that says when an event with a time of day ends.
fn make_timed_end_line(fields: &EventFields<'_>) -> (r: Result<String, Error>)
    requires
        fields.end is None && fields.duration is Some ==> duration::duration_fits(
            fields.duration->Some_0@,
        ),
    ensures
        error::outcome(r) == timed_end_line(*fields),
{
    match (fields.end, fields.duration) {
        (Some(end), _) => match parse_ical_datetime(end) {
            Ok(stamp) => Ok(text::concat2("DTEND:", stamp.as_str())),
            Err(e) => Err(e),
        },
        (None, Some(duration)) => match parse_duration(duration) {
            Ok(d) => Ok(text::concat2("DURATION:", d.as_str())),
            Err(e) => Err(e),
        },
        (None, None) => Ok("DURATION:PT1H".to_owned()),
    }
}

/// Appends a line made of two texts.
fn push_line(lines: &mut Vec<String>, name: &str, value: &str)
    ensures
        text::texts(final(lines)@) == text::texts(old(lines)@).push(name@ + value@),
{
    let ghost before = lines@;
    lines.push(text::concat2(name, value));
    assert(text::texts(lines@) =~= text::texts(before).push(name@ + value@));
}

/// Folds the lines and ends each with CRLF.
fn write_calendar(lines: &Vec<String>) -> (r: String)
    ensures
        r@ == calendar_text(text::texts(lines@)),
{
    let mut out = String::new();
    let mut i: usize = 0;
    let ghost all = text::texts(lines@);
    assert(all.take(0) =~= Seq::<Seq<char>>::empty());
    while i < lines.len()
        invariant
            i <= lines@.len(),
            all == text::texts(lines@),
            out@ == calendar_text(all.take(i as int)),
        decreases lines@.len() - i,
    {
        let ghost before = out@;
        let line = fold_ical_line(lines[i].as_str());
        out.append(line.as_str());
        out.push('\r');
        out.push('\n');
        proof {
            assert(all.take(i + 1).drop_last() =~= all.take(i as int));
            assert(out@ =~= before + line@ + seq!['\r', '\n']);
        }
        i = i + 1;
    }
    assert(all.take(lines@.len() as int) =~= all);
    out
}

/// Builds a minimal calendar with one event, with CRLF line endings and lines
/// folded at 75 bytes. `uid` and `dtstamp` are given, so the output is a
/// function of the arguments.
pub fn build_event_ics(uid: &str, dtstamp: &str, fields: &EventFields<'_>) -> (r: Result<
    String,
    Error,
>)
    requires
        event_fits(*fields),
    ensures
        error::outcome(r) == event_text(uid@, dtstamp@, *fields),
{
    let start = match make_start_line(fields) {
        Ok(line) => line,
        Err(e) => {
            return Err(e);
        },
    };
    let ended = if fields.all_day {
        make_all_day_end_line(fields)
    } else {
        make_timed_end_line(fields)
    };
    let end = match ended {
        Ok(line) => line,
        Err(e) => {
            return Err(e);
        },
    };
    proof {
        reveal_strlit("");
        text::lemma_empty_literal();
    }
    let mut lines: Vec<String> = Vec::new();
    push_line(&mut lines, "BEGIN:VCALENDAR", "");
    push_line(&mut lines, "VERSION:2.0", "");
    push_line(&mut lines, "PRODID:-//fastmail-cli//EN", "");
    push_line(&mut lines, "BEGIN:VEVENT", "");
    push_line(&mut lines, "UID:", uid);
    push_line(&mut lines, "DTSTAMP:", dtstamp);
    push_line(&mut lines, start.as_str(), "");
    push_line(&mut lines, end.as_str(), "");
    push_line(&mut lines, "SUMMARY:", ical_escape(fields.title).as_str());
    let ghost l0 = text::texts(lines@);
    if let Some(location) = fields.location {
        push_line(&mut lines, "LOCATION:", ical_escape(location).as_str());
    }
    let ghost l1 = text::texts(lines@);
    assert(l1 =~= l0 + text_line("LOCATION:"@, fields.location));
    if let Some(notes) = fields.notes {
        push_line(&mut lines, "DESCRIPTION:", ical_escape(notes).as_str());
    }
    let ghost l2 = text::texts(lines@);
    assert(l2 =~= l1 + text_line("DESCRIPTION:"@, fields.notes));
    if let Some(rrule) = fields.rrule {
        let chars = text::to_chars(rrule);
        let upper = text::from_chars(text::to_upper(chars.as_slice()).as_slice());
        push_line(&mut lines, "RRULE:", upper.as_str());
    }
    let ghost l3 = text::texts(lines@);
    assert(l3 =~= l2 + rule_line(fields.rrule));
    push_line(&mut lines, "END:VEVENT", "");
    push_line(&mut lines, "END:VCALENDAR", "");
    assert(text::texts(lines@) =~= l3 + seq!["END:VEVENT"@, "END:VCALENDAR"@]);
    assert(l0 =~= seq![
        "BEGIN:VCALENDAR"@,
        "VERSION:2.0"@,
        "PRODID:-//fastmail-cli//EN"@,
        "BEGIN:VEVENT"@,
        "UID:"@ + uid@,
        "DTSTAMP:"@ + dtstamp@,
        start@,
        end@,
        "SUMMARY:"@ + ical::escaped(fields.title@),
    ]);
    Ok(write_calendar(&lines))
}

/// Whether [`build_event_ics`] can be asked for the event: a duration that it
/// needs adds up to less than 2^64 in each unit.
pub fn check_event_fits(fields: &EventFields<'_>) -> (r: bool)
    ensures
        r == event_fits(*fields),
{
    match fields.duration {
        Some(duration) => make_start_line(fields).is_err() || check_duration_fits(duration),
        None => true,
    }
}

/// The lines, each ended by CRLF.
pub open spec fn terminated(lines: Seq<Seq<char>>) -> Seq<char>
    decreases lines.len(),
{
    if lines.len() == 0 {
        Seq::<char>::empty()
    } else {
        terminated(lines.drop_last()) + lines.last() + seq!['\r', '\n']
    }
}

/// Ending lines goes line by line.
proof fn lemma_terminated_concat(a: Seq<Seq<char>>, b: Seq<Seq<char>>)
    ensures
        terminated(a + b) == terminated(a) + terminated(b),
    decreases b.len(),
{
    if b.len() == 0 {
        assert(a + b =~= a);
        assert(terminated(a) + terminated(b) =~= terminated(a));
    } else {
        assert((a + b).drop_last() =~= a + b.drop_last());
        lemma_terminated_concat(a, b.drop_last());
        assert(terminated(a + b) =~= terminated(a) + terminated(b));
    }
}

/// The physical lines that a content line is written as: its segments, each
/// but the first after a space.
pub open spec fn physical_lines(line: Seq<char>) -> Seq<Seq<char>> {
    ical::segments(line).map(
        |i: int, segment: Seq<char>|
            if i == 0 {
                segment
            } else {
                seq![' '] + segment
            },
    )
}

/// The physical lines of all content lines.
pub open spec fn all_physical_lines(lines: Seq<Seq<char>>) -> Seq<Seq<char>>
    decreases lines.len(),
{
    if lines.len() == 0 {
        Seq::<Seq<char>>::empty()
    } else {
        all_physical_lines(lines.drop_last()) + physical_lines(lines.last())
    }
}

/// Segments joined by breaks and ended are the physical lines, ended.
proof fn lemma_physical(parts: Seq<Seq<char>>)
    requires
        parts.len() > 0,
    ensures
        text::joined(parts, ical::line_break()) + seq!['\r', '\n'] == terminated(
            parts.map(
                |i: int, segment: Seq<char>|
                    if i == 0 {
                        segment
                    } else {
                        seq![' '] + segment
                    },
            ),
        ),
    decreases parts.len(),
{
    let shift = |i: int, segment: Seq<char>|
        if i == 0 {
            segment
        } else {
            seq![' '] + segment
        };
    let mapped = parts.map(shift);
    let crlf = seq!['\r', '\n'];
    assert(mapped.drop_last() =~= parts.drop_last().map(shift));
    if parts.len() == 1 {
        assert(parts.drop_last() =~= Seq::<Seq<char>>::empty());
        assert(mapped.drop_last() =~= Seq::<Seq<char>>::empty());
        assert(text::joined(parts, ical::line_break()) =~= parts.last());
        assert(terminated(mapped.drop_last()) =~= Seq::<char>::empty());
        assert(terminated(mapped) =~= parts.last() + crlf);
    } else {
        lemma_physical(parts.drop_last());
        assert(mapped.last() == seq![' '] + parts.last());
        let init = text::joined(parts.drop_last(), ical::line_break());
        assert(init + ical::line_break() + parts.last() + crlf =~= (init + crlf) + (seq![' ']
            + parts.last()) + crlf);
    }
}

/// Whether a text holds neither a carriage return nor a line feed.
pub open spec fn is_plain(s: Seq<char>) -> bool {
    !s.contains('\r') && !s.contains('\n')
}

/// A plain line that is not empty is written as such physical lines.
proof fn lemma_physical_plain(line: Seq<char>)
    requires
        line.len() > 0,
        is_plain(line),
    ensures
        forall|k: int|
            0 <= k < physical_lines(line).len() ==> (#[trigger] physical_lines(line)[k]).len() > 0
                && is_plain(physical_lines(line)[k]),
{
    let segments = ical::segments(line);
    ical::lemma_segments(line);
    ical::lemma_first_segment(line);
    assert forall|k: int| 0 <= k < physical_lines(line).len() implies (
    #[trigger] physical_lines(line)[k]).len() > 0 && is_plain(physical_lines(line)[k]) by {
        if segments[k].contains('\r') {
            ical::lemma_flatten_contains(segments, k, '\r');
        }
        if segments[k].contains('\n') {
            ical::lemma_flatten_contains(segments, k, '\n');
        }
        if k > 0 {
            lemma_plain_concat(seq![' '], segments[k]);
        }
    }
}

/// Law: where no content line is empty or holds a carriage return or a line feed,
/// no physical line does.
pub proof fn law_physical_lines_plain(lines: Seq<Seq<char>>)
    requires
        forall|i: int|
            0 <= i < lines.len() ==> (#[trigger] lines[i]).len() > 0 && is_plain(lines[i]),
    ensures
        forall|i: int|
            0 <= i < all_physical_lines(lines).len() ==> (
            #[trigger] all_physical_lines(lines)[i]).len() > 0 && is_plain(
                all_physical_lines(lines)[i],
            ),
    decreases lines.len(),
{
    if lines.len() > 0 {
        let front = lines.drop_last();
        assert forall|i: int| 0 <= i < front.len() implies (#[trigger] front[i]).len() > 0
            && is_plain(front[i]) by {
            assert(front[i] == lines[i]);
        }
        law_physical_lines_plain(front);
        assert(lines[lines.len() - 1] == lines.last());
        lemma_physical_plain(lines.last());
        let init = all_physical_lines(front);
        let all = all_physical_lines(lines);
        assert forall|i: int| 0 <= i < all.len() implies (#[trigger] all[i]).len() > 0 && is_plain(
            all[i],
        ) by {
            if i < init.len() {
                assert(all[i] == init[i]);
            } else {
                assert(all[i] == physical_lines(lines.last())[i - init.len()]);
            }
        }
    }
}

/// Law: a calendar is a list of physical lines, each of at most 75 bytes and
/// ended by CRLF.
pub proof fn law_physical_lines(lines: Seq<Seq<char>>)
    ensures
        calendar_text(lines) == terminated(all_physical_lines(lines)),
        forall|i: int|
            0 <= i < all_physical_lines(lines).len() ==> text::octets(
                #[trigger] all_physical_lines(lines)[i],
            ) <= 75,
    decreases lines.len(),
{
    if lines.len() > 0 {
        let last = lines.last();
        let init = all_physical_lines(lines.drop_last());
        law_physical_lines(lines.drop_last());
        ical::lemma_segments(last);
        lemma_physical(ical::segments(last));
        lemma_terminated_concat(init, physical_lines(last));
        assert(calendar_text(lines) =~= calendar_text(lines.drop_last()) + (ical::folded(last)
            + seq!['\r', '\n']));
        assert forall|i: int| 0 <= i < all_physical_lines(lines).len() implies text::octets(
            #[trigger] all_physical_lines(lines)[i],
        ) <= 75 by {
            if i < init.len() {
                assert(all_physical_lines(lines)[i] == init[i]);
            } else {
                let k = i - init.len();
                assert(all_physical_lines(lines)[i] == physical_lines(last)[k]);
                let segment = ical::segments(last)[k];
                assert(text::octets(segment) <= ical::room((k + 1) as nat));
                if k > 0 {
                    text::lemma_encode_concat(seq![' '], segment);
                    text::lemma_octets_one(' ');
                }
            }
        }
    }
}

/// Law: unfolding a calendar gives back its content lines, each ended by CRLF,
/// provided that no segment of a line holds CRLF and a space and no line but the
/// first begins with a space.
pub proof fn law_calendar_unfolds(lines: Seq<Seq<char>>)
    requires
        forall|i: int| 0 <= i < lines.len() ==> ical::is_unbroken(#[trigger] lines[i]),
        forall|i: int| 0 < i < lines.len() ==> !begins_with_space(#[trigger] lines[i]),
    ensures
        ical::unfolded(calendar_text(lines)) == terminated(lines),
{
    lemma_unfolds_before(lines, Seq::<char>::empty());
    assert(calendar_text(lines) + Seq::<char>::empty() =~= calendar_text(lines));
    assert(terminated(lines) + ical::unfolded(Seq::<char>::empty()) =~= terminated(lines));
}

/// Whether a line begins with a space, so that it would be taken for the
/// continuation of the line before.
pub open spec fn begins_with_space(line: Seq<char>) -> bool {
    line.len() > 0 && line[0] == ' '
}

proof fn lemma_unfolds_before(lines: Seq<Seq<char>>, rest: Seq<char>)
    requires
        forall|i: int| 0 <= i < lines.len() ==> ical::is_unbroken(#[trigger] lines[i]),
        forall|i: int| 0 < i < lines.len() ==> !begins_with_space(#[trigger] lines[i]),
        lines.len() > 0 ==> !begins_with_space(rest),
    ensures
        ical::unfolded(calendar_text(lines) + rest) == terminated(lines) + ical::unfolded(rest),
    decreases lines.len(),
{
    if lines.len() == 0 {
        assert(calendar_text(lines) + rest =~= rest);
        assert(terminated(lines) + ical::unfolded(rest) =~= ical::unfolded(rest));
    } else {
        let crlf = seq!['\r', '\n'];
        let last = lines[lines.len() - 1];
        let init = lines.drop_last();
        let tail = ical::folded(last) + (crlf + rest);
        assert forall|i: int| 0 <= i < init.len() implies ical::is_unbroken(#[trigger] init[i]) by {
            assert(init[i] == lines[i]);
        }
        assert forall|i: int| 0 < i < init.len() implies !begins_with_space(
            #[trigger] init[i],
        ) by {
            assert(init[i] == lines[i]);
        }
        if last.len() > 0 {
            lemma_folded_first(last);
            assert(tail[0] == last[0]);
        } else {
            ical::lemma_segments(last);
            assert(last =~= Seq::<char>::empty());
            assert(ical::segments(last).drop_last() =~= Seq::<Seq<char>>::empty());
            assert(text::joined(Seq::<Seq<char>>::empty(), ical::line_break()) =~= last);
            assert(ical::folded(last) =~= last);
            assert(tail[0] == '\r');
        }
        lemma_unfolds_before(init, tail);
        ical::lemma_unfold_line(last, rest);
        assert(calendar_text(lines) + rest =~= calendar_text(init) + tail);
        assert(terminated(lines) + ical::unfolded(rest) =~= terminated(init) + (last + (crlf
            + ical::unfolded(rest))));
    }
}

/// A folded line begins with the line's first character.
proof fn lemma_folded_first(line: Seq<char>)
    requires
        line.len() > 0,
    ensures
        ical::folded(line).len() > 0,
        ical::folded(line)[0] == line[0],
    decreases line.len(),
{
    let before = ical::segments(line.drop_last());
    let after = ical::segments(line);
    ical::lemma_segments(line.drop_last());
    let c = line.last();
    if line.len() == 1 {
        let none = Seq::<char>::empty();
        assert(line.drop_last() =~= none);
        assert(before =~= seq![none]);
        assert(text::octets(none) == 0);
        assert(after =~= seq![seq![c]]) by {
            assert(none.push(c) =~= seq![c]);
        }
        assert(after.drop_last() =~= Seq::<Seq<char>>::empty());
        assert(text::joined(after.drop_last(), ical::line_break()) =~= none);
        assert(ical::folded(line) =~= seq![c]);
    } else {
        lemma_folded_first(line.drop_last());
        let old = ical::folded(line.drop_last());
        if text::octets(before.last()) + text::width(c) > ical::room(before.len()) {
            assert(after.drop_last() =~= before);
            assert(ical::folded(line) =~= old + ical::line_break() + seq![c]);
        } else {
            assert(after.drop_last() =~= before.drop_last());
            assert(ical::folded(line) =~= old.push(c));
        }
    }
}

/// Whether a text can begin a content line: it is plain and not taken for a
/// continuation.
pub open spec fn is_line_start(name: Seq<char>) -> bool {
    name.len() > 0 && name[0] != ' ' && is_plain(name)
}

/// What begins a content line still does with a plain value behind it.
proof fn lemma_line_start(name: Seq<char>, value: Seq<char>)
    requires
        is_line_start(name),
        is_plain(value),
    ensures
        is_line_start(name + value),
{
    lemma_plain_concat(name, value);
    assert((name + value)[0] == name[0]);
}

/// Two plain texts together are plain.
proof fn lemma_plain_concat(a: Seq<char>, b: Seq<char>)
    requires
        is_plain(a),
        is_plain(b),
    ensures
        is_plain(a + b),
{
    assert forall|i: int| 0 <= i < (a + b).len() implies (a + b)[i] != '\r' && (a + b)[i]
        != '\n' by {
        if i < a.len() {
            assert(a.contains(a[i]));
        } else {
            assert(b.contains(b[i - a.len()]));
        }
    }
}

/// A padded numeral is plain.
proof fn lemma_padded_plain(n: nat, size: int)
    ensures
        is_plain(decimal::padded(n, size)),
        is_plain(decimal::numeral(n)),
{
    decimal::law_numeral_round_trip(n);
    assert forall|i: int| 0 <= i < decimal::numeral(n).len() implies decimal::numeral(n)[i]
        != '\r' && decimal::numeral(n)[i] != '\n' by {
        assert(text::is_digit(decimal::numeral(n)[i]));
    }
    let zeros = decimal::zeros(size - decimal::numeral(n).len());
    assert(is_plain(zeros));
    lemma_plain_concat(zeros, decimal::numeral(n));
}

proof fn lemma_component_plain(n: nat, letter: char)
    requires
        letter != '\r' && letter != '\n',
    ensures
        is_plain(duration::component(n, letter)),
{
    lemma_padded_plain(n, 0);
    if n > 0 {
        lemma_plain_concat(decimal::numeral(n), seq![letter]);
        assert(decimal::numeral(n) + seq![letter] =~= duration::component(n, letter));
    }
}

proof fn lemma_duration_plain(days: nat, hours: nat, minutes: nat, seconds: nat)
    ensures
        is_plain(duration::ical_duration(days, hours, minutes, seconds)),
{
    lemma_component_plain(days, 'D');
    lemma_component_plain(hours, 'H');
    lemma_component_plain(minutes, 'M');
    lemma_component_plain(seconds, 'S');
    let day_part = seq!['P'] + duration::component(days, 'D');
    lemma_plain_concat(seq!['P'], duration::component(days, 'D'));
    lemma_plain_concat(day_part, seq!['T']);
    let t = day_part + seq!['T'];
    lemma_plain_concat(t, duration::component(hours, 'H'));
    let h = t + duration::component(hours, 'H');
    lemma_plain_concat(h, duration::component(minutes, 'M'));
    let m = h + duration::component(minutes, 'M');
    lemma_plain_concat(m, duration::component(seconds, 'S'));
}

proof fn lemma_date_plain(date: (int, int, int))
    ensures
        is_plain(datetime::compact_date(date)),
{
    let year = decimal::signed_padded(date.0, 4);
    if date.0 < 0 {
        lemma_padded_plain((-date.0) as nat, 3);
        lemma_plain_concat(seq!['-'], decimal::padded((-date.0) as nat, 3));
    } else {
        lemma_padded_plain(date.0 as nat, 4);
    }
    lemma_padded_plain(date.1 as nat, 2);
    lemma_padded_plain(date.2 as nat, 2);
    lemma_plain_concat(year, decimal::padded(date.1 as nat, 2));
    lemma_plain_concat(
        year + decimal::padded(date.1 as nat, 2),
        decimal::padded(date.2 as nat, 2),
    );
}

proof fn lemma_normal_forms_plain(input: Seq<char>)
    ensures
        datetime::date_text(input) matches Ok(date) ==> is_plain(date),
        datetime::datetime_text(input) matches Ok(stamp) ==> is_plain(stamp),
        duration::duration_text(input) matches Ok(d) ==> is_plain(d),
        datetime::next_day_text(input) matches Ok(date) ==> is_plain(date),
{
    datetime::law_date_normal_form(input);
    datetime::law_datetime_normal_form(input);
    if let Ok(date) = datetime::date_text(input) {
        assert forall|i: int| 0 <= i < date.len() implies date[i] != '\r' && date[i]
            != '\n' by {
            assert(text::is_digit(date[i]));
        }
    }
    if let Ok(stamp) = datetime::datetime_text(input) {
        assert forall|i: int| 0 <= i < stamp.len() implies stamp[i] != '\r' && stamp[i]
            != '\n' by {
            if i < 8 {
                assert(text::is_digit(stamp.take(8)[i]));
            } else if 8 < i < 15 {
                assert(text::is_digit(stamp.subrange(9, 15)[i - 9]));
            }
        }
    }
    let found = duration::scan(text::trimmed(input));
    lemma_duration_plain(
        duration::total(found.amounts, Unit::Day),
        duration::total(found.amounts, Unit::Hour),
        duration::total(found.amounts, Unit::Minute),
        duration::total(found.amounts, Unit::Second),
    );
    let b = datetime::byte_chars(input);
    if let (Some(y), Some(m), Some(d)) = (
        decimal::signed_value(b.subrange(0, 4)),
        decimal::unsigned_value(b.subrange(4, 6)),
        decimal::unsigned_value(b.subrange(6, 8)),
    ) {
        lemma_date_plain(civil::date_of(civil::day_number(y, m as int, d as int) + 1));
    }
}

/// The names of the properties begin content lines.
proof fn lemma_names()
    ensures
        is_line_start("BEGIN:VCALENDAR"@),
        is_line_start("VERSION:2.0"@),
        is_line_start("PRODID:-//fastmail-cli//EN"@),
        is_line_start("BEGIN:VEVENT"@),
        is_line_start("UID:"@),
        is_line_start("DTSTAMP:"@),
        is_line_start("DTSTART;VALUE=DATE:"@),
        is_line_start("DTSTART:"@),
        is_line_start("DTEND;VALUE=DATE:"@),
        is_line_start("DTEND:"@),
        is_line_start("DURATION:"@),
        is_line_start("DURATION:PT1H"@),
        is_line_start("SUMMARY:"@),
        is_line_start("LOCATION:"@),
        is_line_start("DESCRIPTION:"@),
        is_line_start("RRULE:"@),
        is_line_start("END:VEVENT"@),
        is_line_start("END:VCALENDAR"@),
{
    reveal_strlit("BEGIN:VCALENDAR");
    reveal_strlit("VERSION:2.0");
    reveal_strlit("PRODID:-//fastmail-cli//EN");
    reveal_strlit("BEGIN:VEVENT");
    reveal_strlit("UID:");
    reveal_strlit("DTSTAMP:");
    reveal_strlit("DTSTART;VALUE=DATE:");
    reveal_strlit("DTSTART:");
    reveal_strlit("DTEND;VALUE=DATE:");
    reveal_strlit("DTEND:");
    reveal_strlit("DURATION:");
    reveal_strlit("DURATION:PT1H");
    reveal_strlit("SUMMARY:");
    reveal_strlit("LOCATION:");
    reveal_strlit("DESCRIPTION:");
    reveal_strlit("RRULE:");
    reveal_strlit("END:VEVENT");
    reveal_strlit("END:VCALENDAR");
}

/// Upper-casing ASCII letters keeps a text plain.
proof fn lemma_uppered_plain(s: Seq<char>)
    requires
        is_plain(s),
    ensures
        is_plain(text::uppered(s)),
{
    assert forall|i: int| 0 <= i < s.len() implies text::uppered(s)[i] != '\r' && text::uppered(
        s,
    )[i] != '\n' by {
        assert(s.contains(s[i]));
        assert(text::uppered(s)[i] == text::ascii_upper(s[i]));
    }
}

/// Whether a line of an event is the one with the identifier, the stamp or the
/// rule, which are written as they are given.
spec fn is_given_line(
    line: Seq<char>,
    uid: Seq<char>,
    dtstamp: Seq<char>,
    f: EventFields,
) -> bool {
    ||| line == "UID:"@ + uid
    ||| line == "DTSTAMP:"@ + dtstamp
    ||| f.rrule is Some && line == "RRULE:"@ + text::uppered(f.rrule->Some_0@)
}

/// Every other line of an event is plain and begins with its name.
proof fn lemma_event_lines(uid: Seq<char>, dtstamp: Seq<char>, f: EventFields)
    ensures
        event_lines(uid, dtstamp, f) matches Ok(lines) ==> forall|i: int|
            0 <= i < lines.len() ==> is_line_start(#[trigger] lines[i]) || is_given_line(
                lines[i],
                uid,
                dtstamp,
                f,
            ),
{
    if let Ok(lines) = event_lines(uid, dtstamp, f) {
        let start = start_line(f)->Ok_0;
        let end = end_line(f)->Ok_0;
        lemma_names();
        lemma_normal_forms_plain(f.start@);
        if f.all_day {
            let date = datetime::date_text(f.start@)->Ok_0;
            lemma_line_start("DTSTART;VALUE=DATE:"@, date);
            lemma_normal_forms_plain(date);
        } else {
            lemma_line_start("DTSTART:"@, datetime::datetime_text(f.start@)->Ok_0);
        }
        assert(is_line_start(start));
        if let Some(e) = f.end {
            lemma_normal_forms_plain(e@);
            if f.all_day {
                lemma_line_start("DTEND;VALUE=DATE:"@, datetime::date_text(e@)->Ok_0);
            } else {
                lemma_line_start("DTEND:"@, datetime::datetime_text(e@)->Ok_0);
            }
        } else if let Some(d) = f.duration {
            lemma_normal_forms_plain(d@);
            lemma_line_start("DURATION:"@, duration::duration_text(d@)->Ok_0);
        } else if f.all_day {
            let date = datetime::date_text(f.start@)->Ok_0;
            lemma_line_start("DTEND;VALUE=DATE:"@, datetime::next_day_text(date)->Ok_0);
        }
        assert(is_line_start(end));
        ical::law_escape_one_line(f.title@);
        lemma_line_start("SUMMARY:"@, ical::escaped(f.title@));
        if let Some(v) = f.location {
            ical::law_escape_one_line(v@);
            lemma_line_start("LOCATION:"@, ical::escaped(v@));
        }
        if let Some(v) = f.notes {
            ical::law_escape_one_line(v@);
            lemma_line_start("DESCRIPTION:"@, ical::escaped(v@));
        }
        assert forall|i: int| 0 <= i < lines.len() implies is_line_start(#[trigger] lines[i])
            || is_given_line(lines[i], uid, dtstamp, f) by {
            let head = seq![
                "BEGIN:VCALENDAR"@,
                "VERSION:2.0"@,
                "PRODID:-//fastmail-cli//EN"@,
                "BEGIN:VEVENT"@,
                "UID:"@ + uid,
                "DTSTAMP:"@ + dtstamp,
                start,
                end,
                "SUMMARY:"@ + ical::escaped(f.title@),
            ];
            let a = text_line("LOCATION:"@, f.location);
            let b = text_line("DESCRIPTION:"@, f.notes);
            let c = rule_line(f.rrule);
            let tail = seq!["END:VEVENT"@, "END:VCALENDAR"@];
            assert(lines == head + a + b + c + tail);
            if i < 9 {
                assert(lines[i] == head[i]);
            }
        }
    }
}

/// Law: unfolding the text of an event gives back its content lines, each
/// ended by CRLF, whatever the title, location and notes hold, provided that
/// the lines with the identifier, the stamp and the rule hold no CRLF and space
/// within a segment.
pub proof fn law_event_reads_back(uid: Seq<char>, dtstamp: Seq<char>, f: EventFields)
    requires
        ical::is_unbroken("UID:"@ + uid),
        ical::is_unbroken("DTSTAMP:"@ + dtstamp),
        f.rrule is Some ==> ical::is_unbroken("RRULE:"@ + text::uppered(f.rrule->Some_0@)),
    ensures
        event_lines(uid, dtstamp, f) matches Ok(lines) ==> ical::unfolded(calendar_text(lines))
            == terminated(lines),
{
    if let Ok(lines) = event_lines(uid, dtstamp, f) {
        lemma_event_lines(uid, dtstamp, f);
        lemma_names();
        assert forall|i: int| 0 <= i < lines.len() implies ical::is_unbroken(#[trigger] lines[i])
            && !begins_with_space(lines[i]) by {
            if is_line_start(lines[i]) {
                ical::lemma_plain_segments(lines[i]);
            } else {
                assert(("UID:"@ + uid)[0] == "UID:"@[0]);
                assert(("DTSTAMP:"@ + dtstamp)[0] == "DTSTAMP:"@[0]);
                assert(f.rrule is Some ==> ("RRULE:"@ + text::uppered(f.rrule->Some_0@))[0]
                    == "RRULE:"@[0]);
            }
        }
        law_calendar_unfolds(lines);
    }
}

/// Law: an event is written as physical lines of 1 to 75 bytes that hold neither
/// a carriage return nor a line feed, each ended by CRLF, whatever the title,
/// location and notes hold, provided that the identifier, the stamp and the rule
/// hold neither.
pub proof fn law_event_physical_lines(uid: Seq<char>, dtstamp: Seq<char>, f: EventFields)
    requires
        is_plain(uid),
        is_plain(dtstamp),
        f.rrule is Some ==> is_plain(f.rrule->Some_0@),
    ensures
        event_lines(uid, dtstamp, f) matches Ok(lines) ==> event_text(uid, dtstamp, f) == Ok::<
            Seq<char>,
            Fault,
        >(terminated(all_physical_lines(lines))) && forall|i: int|
            0 <= i < all_physical_lines(lines).len() ==> {
                let line = #[trigger] all_physical_lines(lines)[i];
                line.len() > 0 && text::octets(line) <= 75 && is_plain(line)
            },
{
    if let Ok(lines) = event_lines(uid, dtstamp, f) {
        lemma_event_lines(uid, dtstamp, f);
        lemma_names();
        lemma_line_start("UID:"@, uid);
        lemma_line_start("DTSTAMP:"@, dtstamp);
        if let Some(rule) = f.rrule {
            lemma_uppered_plain(rule@);
            lemma_line_start("RRULE:"@, text::uppered(rule@));
        }
        assert forall|i: int| 0 <= i < lines.len() implies (#[trigger] lines[i]).len() > 0
            && is_plain(lines[i]) by {
            assert(is_line_start(lines[i]));
        }
        law_physical_lines(lines);
        law_physical_lines_plain(lines);
    }
}

/// Whether a line is among the lines and the only one that begins with that name.
pub open spec fn has_only(lines: Seq<Seq<char>>, name: Seq<char>, line: Seq<char>) -> bool {
    &&& lines.contains(line)
    &&& forall|i: int|
        0 <= i < lines.len() && name.is_prefix_of(#[trigger] lines[i]) ==> lines[i] == line
}

/// Whether no line begins with that name.
pub open spec fn has_none(lines: Seq<Seq<char>>, name: Seq<char>) -> bool {
    forall|i: int| 0 <= i < lines.len() ==> !name.is_prefix_of(#[trigger] lines[i])
}

/// Whether that is a line of an event that starts and ends as those lines say.
spec fn is_event_line(
    line: Seq<char>,
    uid: Seq<char>,
    dtstamp: Seq<char>,
    start: Seq<char>,
    end: Seq<char>,
    f: EventFields,
) -> bool {
    ||| line == "BEGIN:VCALENDAR"@
    ||| line == "VERSION:2.0"@
    ||| line == "PRODID:-//fastmail-cli//EN"@
    ||| line == "BEGIN:VEVENT"@
    ||| line == "UID:"@ + uid
    ||| line == "DTSTAMP:"@ + dtstamp
    ||| line == start
    ||| line == end
    ||| line == "SUMMARY:"@ + ical::escaped(f.title@)
    ||| f.location is Some && line == "LOCATION:"@ + ical::escaped(f.location->0@)
    ||| f.notes is Some && line == "DESCRIPTION:"@ + ical::escaped(f.notes->0@)
    ||| f.rrule is Some && line == "RRULE:"@ + text::uppered(f.rrule->0@)
    ||| line == "END:VEVENT"@
    ||| line == "END:VCALENDAR"@
}

proof fn lemma_prefix_char(name: Seq<char>, line: Seq<char>, k: int)
    requires
        0 <= k < name.len(),
    ensures
        name.is_prefix_of(line) ==> line.len() > k && line[k] == name[k],
{
    if name.is_prefix_of(line) {
        assert(line.subrange(0, name.len() as int)[k] == line[k]);
    }
}

/// Which line of an event begins with which name.
proof fn lemma_line_names(
    line: Seq<char>,
    uid: Seq<char>,
    dtstamp: Seq<char>,
    start: Seq<char>,
    end: Seq<char>,
    f: EventFields,
)
    requires
        is_event_line(line, uid, dtstamp, start, end, f),
        start.len() > 5 && start[0] == 'D' && start[1] == 'T' && start[2] == 'S' && start[5] == 'R',
        end.len() > 2 && end[0] == 'D',
        (end[1] == 'T' && end[2] == 'E') || end[1] == 'U',
    ensures
        "UID"@.is_prefix_of(line) ==> line == "UID:"@ + uid,
        "DTSTAMP"@.is_prefix_of(line) ==> line == "DTSTAMP:"@ + dtstamp,
        "DTSTART"@.is_prefix_of(line) ==> line == start,
        "DTEND"@.is_prefix_of(line) ==> line == end && end[1] == 'T',
        "DURATION"@.is_prefix_of(line) ==> line == end && end[1] == 'U',
        "SUMMARY"@.is_prefix_of(line) ==> line == "SUMMARY:"@ + ical::escaped(f.title@),
        "LOCATION"@.is_prefix_of(line) ==> f.location is Some && line == "LOCATION:"@
            + ical::escaped(f.location->0@),
        "DESCRIPTION"@.is_prefix_of(line) ==> f.notes is Some && line == "DESCRIPTION:"@
            + ical::escaped(f.notes->0@),
        "RRULE"@.is_prefix_of(line) ==> f.rrule is Some && line == "RRULE:"@ + text::uppered(
            f.rrule->0@,
        ),
{
    reveal_strlit("BEGIN:VCALENDAR");
    reveal_strlit("VERSION:2.0");
    reveal_strlit("PRODID:-//fastmail-cli//EN");
    reveal_strlit("BEGIN:VEVENT");
    reveal_strlit("UID:");
    reveal_strlit("DTSTAMP:");
    reveal_strlit("SUMMARY:");
    reveal_strlit("LOCATION:");
    reveal_strlit("DESCRIPTION:");
    reveal_strlit("RRULE:");
    reveal_strlit("END:VEVENT");
    reveal_strlit("END:VCALENDAR");
    reveal_strlit("UID");
    reveal_strlit("DTSTAMP");
    reveal_strlit("DTSTART");
    reveal_strlit("DTEND");
    reveal_strlit("DURATION");
    reveal_strlit("SUMMARY");
    reveal_strlit("LOCATION");
    reveal_strlit("DESCRIPTION");
    reveal_strlit("RRULE");
    lemma_prefix_char("UID"@, line, 0);
    lemma_prefix_char("DTSTAMP"@, line, 0);
    lemma_prefix_char("DTSTAMP"@, line, 1);
    lemma_prefix_char("DTSTAMP"@, line, 2);
    lemma_prefix_char("DTSTAMP"@, line, 5);
    lemma_prefix_char("DTSTART"@, line, 0);
    lemma_prefix_char("DTSTART"@, line, 1);
    lemma_prefix_char("DTSTART"@, line, 2);
    lemma_prefix_char("DTSTART"@, line, 5);
    lemma_prefix_char("DTEND"@, line, 0);
    lemma_prefix_char("DTEND"@, line, 1);
    lemma_prefix_char("DTEND"@, line, 2);
    lemma_prefix_char("DURATION"@, line, 0);
    lemma_prefix_char("DURATION"@, line, 1);
    lemma_prefix_char("SUMMARY"@, line, 0);
    lemma_prefix_char("LOCATION"@, line, 0);
    lemma_prefix_char("DESCRIPTION"@, line, 0);
    lemma_prefix_char("DESCRIPTION"@, line, 1);
    lemma_prefix_char("RRULE"@, line, 0);
}

/// The lines of an event, and which of them begin with which names.
proof fn lemma_event_line_names(uid: Seq<char>, dtstamp: Seq<char>, f: EventFields)
    requires
        event_lines(uid, dtstamp, f) is Ok,
    ensures
        ({
            let lines = event_lines(uid, dtstamp, f)->Ok_0;
            let start = start_line(f)->Ok_0;
            let end = end_line(f)->Ok_0;
            &&& has_only(lines, "UID"@, "UID:"@ + uid)
            &&& has_only(lines, "DTSTAMP"@, "DTSTAMP:"@ + dtstamp)
            &&& has_only(lines, "DTSTART"@, start)
            &&& end[1] == 'T' ==> has_only(lines, "DTEND"@, end) && has_none(lines, "DURATION"@)
            &&& end[1] != 'T' ==> has_only(lines, "DURATION"@, end) && has_none(lines, "DTEND"@)
            &&& has_only(lines, "SUMMARY"@, "SUMMARY:"@ + ical::escaped(f.title@))
            &&& if f.location is Some {
                has_only(lines, "LOCATION"@, "LOCATION:"@ + ical::escaped(f.location->0@))
            } else {
                has_none(lines, "LOCATION"@)
            }
            &&& if f.notes is Some {
                has_only(lines, "DESCRIPTION"@, "DESCRIPTION:"@ + ical::escaped(f.notes->0@))
            } else {
                has_none(lines, "DESCRIPTION"@)
            }
            &&& if f.rrule is Some {
                has_only(lines, "RRULE"@, "RRULE:"@ + text::uppered(f.rrule->0@))
            } else {
                has_none(lines, "RRULE"@)
            }
        }),
{
    let lines = event_lines(uid, dtstamp, f)->Ok_0;
    let start = start_line(f)->Ok_0;
    let end = end_line(f)->Ok_0;
    lemma_event_line_heads(f);
    let head = seq![
        "BEGIN:VCALENDAR"@,
        "VERSION:2.0"@,
        "PRODID:-//fastmail-cli//EN"@,
        "BEGIN:VEVENT"@,
        "UID:"@ + uid,
        "DTSTAMP:"@ + dtstamp,
        start,
        end,
        "SUMMARY:"@ + ical::escaped(f.title@),
    ];
    let a = text_line("LOCATION:"@, f.location);
    let b = text_line("DESCRIPTION:"@, f.notes);
    let c = rule_line(f.rrule);
    let tail = seq!["END:VEVENT"@, "END:VCALENDAR"@];
    assert(lines == head + a + b + c + tail);
    assert forall|i: int| 0 <= i < lines.len() implies is_event_line(
        #[trigger] lines[i],
        uid,
        dtstamp,
        start,
        end,
        f,
    ) by {
        if i < 9 {
            assert(lines[i] == head[i]);
        }
    }
    assert(lines[4] == "UID:"@ + uid);
    assert(lines[5] == "DTSTAMP:"@ + dtstamp);
    assert(lines[6] == start);
    assert(lines[7] == end);
    assert(lines[8] == "SUMMARY:"@ + ical::escaped(f.title@));
    assert(f.location is Some ==> lines[9] == "LOCATION:"@ + ical::escaped(f.location->0@));
    let m = 9 + a.len() as int;
    let n = m + b.len() as int;
    assert(f.notes is Some ==> lines[m] == "DESCRIPTION:"@ + ical::escaped(f.notes->0@));
    assert(f.rrule is Some ==> lines[n] == "RRULE:"@ + text::uppered(f.rrule->0@));
    lemma_each_line_name(lines, uid, dtstamp, start, end, f);
}

proof fn lemma_each_line_name(
    lines: Seq<Seq<char>>,
    uid: Seq<char>,
    dtstamp: Seq<char>,
    start: Seq<char>,
    end: Seq<char>,
    f: EventFields,
)
    requires
        forall|i: int|
            0 <= i < lines.len() ==> is_event_line(
                #[trigger] lines[i],
                uid,
                dtstamp,
                start,
                end,
                f,
            ),
        start.len() > 5 && start[0] == 'D' && start[1] == 'T' && start[2] == 'S' && start[5] == 'R',
        end.len() > 2 && end[0] == 'D',
        (end[1] == 'T' && end[2] == 'E') || end[1] == 'U',
    ensures
        forall|i: int|
            0 <= i < lines.len() ==> {
                let line = #[trigger] lines[i];
                &&& "UID"@.is_prefix_of(line) ==> line == "UID:"@ + uid
                &&& "DTSTAMP"@.is_prefix_of(line) ==> line == "DTSTAMP:"@ + dtstamp
                &&& "DTSTART"@.is_prefix_of(line) ==> line == start
                &&& "DTEND"@.is_prefix_of(line) ==> line == end && end[1] == 'T'
                &&& "DURATION"@.is_prefix_of(line) ==> line == end && end[1] == 'U'
                &&& "SUMMARY"@.is_prefix_of(line) ==> line == "SUMMARY:"@ + ical::escaped(f.title@)
                &&& "LOCATION"@.is_prefix_of(line) ==> f.location is Some && line == "LOCATION:"@
                    + ical::escaped(f.location->0@)
                &&& "DESCRIPTION"@.is_prefix_of(line) ==> f.notes is Some && line
                    == "DESCRIPTION:"@ + ical::escaped(f.notes->0@)
                &&& "RRULE"@.is_prefix_of(line) ==> f.rrule is Some && line == "RRULE:"@
                    + text::uppered(f.rrule->0@)
            },
{
    assert forall|i: int| 0 <= i < lines.len() implies {
        let line = #[trigger] lines[i];
        &&& "UID"@.is_prefix_of(line) ==> line == "UID:"@ + uid
        &&& "DTSTAMP"@.is_prefix_of(line) ==> line == "DTSTAMP:"@ + dtstamp
        &&& "DTSTART"@.is_prefix_of(line) ==> line == start
        &&& "DTEND"@.is_prefix_of(line) ==> line == end && end[1] == 'T'
        &&& "DURATION"@.is_prefix_of(line) ==> line == end && end[1] == 'U'
        &&& "SUMMARY"@.is_prefix_of(line) ==> line == "SUMMARY:"@ + ical::escaped(f.title@)
        &&& "LOCATION"@.is_prefix_of(line) ==> f.location is Some && line == "LOCATION:"@
            + ical::escaped(f.location->0@)
        &&& "DESCRIPTION"@.is_prefix_of(line) ==> f.notes is Some && line == "DESCRIPTION:"@
            + ical::escaped(f.notes->0@)
        &&& "RRULE"@.is_prefix_of(line) ==> f.rrule is Some && line == "RRULE:"@ + text::uppered(
            f.rrule->0@,
        )
    } by {
        lemma_line_names(lines[i], uid, dtstamp, start, end, f);
    }
}

/// What the lines for the start and the end begin with.
proof fn lemma_event_line_heads(f: EventFields)
    requires
        start_line(f) is Ok,
        end_line(f) is Ok,
    ensures
        ({
            let start = start_line(f)->Ok_0;
            let end = end_line(f)->Ok_0;
            &&& start.len() > 5 && start[0] == 'D' && start[1] == 'T' && start[2] == 'S' && start[5]
                == 'R'
            &&& end.len() > 2 && end[0] == 'D'
            &&& if f.end is Some || (f.all_day && f.duration is None) {
                end[1] == 'T' && end[2] == 'E'
            } else {
                end[1] == 'U'
            }
        }),
{
    reveal_strlit("DTSTART;VALUE=DATE:");
    reveal_strlit("DTSTART:");
    reveal_strlit("DTEND;VALUE=DATE:");
    reveal_strlit("DTEND:");
    reveal_strlit("DURATION:");
    reveal_strlit("DURATION:PT1H");
}

/// Law: what is read from the text of an event is what the event was to be: its lines
/// are the frame of a calendar with one event in it, and one line each for the
/// identifier, the stamp, the start, the end or the duration, the title, the location,
/// the notes and the rule. An all-day event that was given an end ends then; one that
/// was given a duration lasts that long; one with neither ends the day after its start,
/// or lasts an hour if it has a time of day. The identifier, the stamp and the rule must
/// hold neither a carriage return nor a line feed.
pub proof fn law_event_content(uid: Seq<char>, dtstamp: Seq<char>, f: EventFields)
    requires
        is_plain(uid),
        is_plain(dtstamp),
        f.rrule is Some ==> is_plain(f.rrule->0@),
    ensures
        event_text(uid, dtstamp, f) matches Ok(text) ==> exists|lines: Seq<Seq<char>>|
            {
                let n = lines.len();
                &&& ical::unfolded(text) == #[trigger] terminated(lines)
                &&& forall|i: int| 0 <= i < n ==> is_plain(#[trigger] lines[i])
                &&& n == 11 + (if f.location is Some {
                    1int
                } else {
                    0
                }) + (if f.notes is Some {
                    1int
                } else {
                    0
                }) + (if f.rrule is Some {
                    1int
                } else {
                    0
                })
                &&& lines[0] == "BEGIN:VCALENDAR"@ && lines[1] == "VERSION:2.0"@
                &&& lines[2] == "PRODID:-//fastmail-cli//EN"@ && lines[3] == "BEGIN:VEVENT"@
                &&& lines[n - 2] == "END:VEVENT"@ && lines[n - 1] == "END:VCALENDAR"@
                &&& has_only(lines, "UID"@, "UID:"@ + uid)
                &&& has_only(lines, "DTSTAMP"@, "DTSTAMP:"@ + dtstamp)
                &&& has_only(lines, "SUMMARY"@, "SUMMARY:"@ + ical::escaped(f.title@))
                &&& f.location matches Some(v) ==> has_only(
                    lines,
                    "LOCATION"@,
                    "LOCATION:"@ + ical::escaped(v@),
                )
                &&& f.location is None ==> has_none(lines, "LOCATION"@)
                &&& f.notes matches Some(v) ==> has_only(
                    lines,
                    "DESCRIPTION"@,
                    "DESCRIPTION:"@ + ical::escaped(v@),
                )
                &&& f.notes is None ==> has_none(lines, "DESCRIPTION"@)
                &&& f.rrule matches Some(v) ==> has_only(
                    lines,
                    "RRULE"@,
                    "RRULE:"@ + text::uppered(v@),
                )
                &&& f.rrule is None ==> has_none(lines, "RRULE"@)
                &&& f.all_day ==> has_only(
                    lines,
                    "DTSTART"@,
                    "DTSTART;VALUE=DATE:"@ + f.start@.filter(|c: char| c != '-'),
                )
                &&& !f.all_day ==> has_only(
                    lines,
                    "DTSTART"@,
                    "DTSTART:"@ + datetime::datetime_text(f.start@)->Ok_0,
                )
                &&& f.end matches Some(end) ==> has_none(lines, "DURATION"@) && (if f.all_day {
                    has_only(
                        lines,
                        "DTEND"@,
                        "DTEND;VALUE=DATE:"@ + end@.filter(|c: char| c != '-'),
                    )
                } else {
                    has_only(lines, "DTEND"@, "DTEND:"@ + datetime::datetime_text(end@)->Ok_0)
                })
                &&& f.duration matches Some(duration) ==> has_none(lines, "DTEND"@) && has_only(
                    lines,
                    "DURATION"@,
                    "DURATION:"@ + duration::duration_text(duration@)->Ok_0,
                )
                &&& f.end is None && f.duration is None && f.all_day ==> has_none(
                    lines,
                    "DURATION"@,
                ) && has_only(
                    lines,
                    "DTEND"@,
                    "DTEND;VALUE=DATE:"@ + datetime::next_day_text(
                        f.start@.filter(|c: char| c != '-'),
                    )->Ok_0,
                )
                &&& f.end is None && f.duration is None && !f.all_day ==> has_none(lines, "DTEND"@)
                    && has_only(lines, "DURATION"@, "DURATION:PT1H"@)
            },
{
    if let Ok(text) = event_text(uid, dtstamp, f) {
        let lines = event_lines(uid, dtstamp, f)->Ok_0;
        lemma_event_plain(uid, dtstamp, f);
        lemma_event_line_names(uid, dtstamp, f);
        lemma_event_line_heads(f);
        datetime::law_date_digits(f.start@);
        if let Some(end) = f.end {
            datetime::law_date_digits(end@);
        }
        lemma_event_frame(uid, dtstamp, f);
        assert(ical::unfolded(text) == terminated(lines));
    }
}

/// The lines of an event are plain where what is written as given is, and unfolding its
/// text gives them back.
proof fn lemma_event_plain(uid: Seq<char>, dtstamp: Seq<char>, f: EventFields)
    requires
        is_plain(uid),
        is_plain(dtstamp),
        f.rrule is Some ==> is_plain(f.rrule->0@),
        event_lines(uid, dtstamp, f) is Ok,
    ensures
        ({
            let lines = event_lines(uid, dtstamp, f)->Ok_0;
            &&& ical::unfolded(calendar_text(lines)) == terminated(lines)
            &&& forall|i: int| 0 <= i < lines.len() ==> is_plain(#[trigger] lines[i])
        }),
{
    let lines = event_lines(uid, dtstamp, f)->Ok_0;
    lemma_event_lines(uid, dtstamp, f);
    lemma_names();
    lemma_line_start("UID:"@, uid);
    lemma_line_start("DTSTAMP:"@, dtstamp);
    ical::lemma_plain_segments("UID:"@ + uid);
    ical::lemma_plain_segments("DTSTAMP:"@ + dtstamp);
    if let Some(rule) = f.rrule {
        lemma_uppered_plain(rule@);
        lemma_line_start("RRULE:"@, text::uppered(rule@));
        ical::lemma_plain_segments("RRULE:"@ + text::uppered(rule@));
    }
    law_event_reads_back(uid, dtstamp, f);
    assert forall|i: int| 0 <= i < lines.len() implies is_plain(#[trigger] lines[i]) by {
        assert(is_line_start(lines[i]));
    }
}

/// How many lines an event has, and which stand round it.
proof fn lemma_event_frame(uid: Seq<char>, dtstamp: Seq<char>, f: EventFields)
    requires
        event_lines(uid, dtstamp, f) is Ok,
    ensures
        ({
            let lines = event_lines(uid, dtstamp, f)->Ok_0;
            let n = lines.len();
            &&& n == 11 + (if f.location is Some {
                1int
            } else {
                0
            }) + (if f.notes is Some {
                1int
            } else {
                0
            }) + (if f.rrule is Some {
                1int
            } else {
                0
            })
            &&& lines[0] == "BEGIN:VCALENDAR"@ && lines[1] == "VERSION:2.0"@
            &&& lines[2] == "PRODID:-//fastmail-cli//EN"@ && lines[3] == "BEGIN:VEVENT"@
            &&& lines[n - 2] == "END:VEVENT"@ && lines[n - 1] == "END:VCALENDAR"@
        }),
{
}

/// Lines that are ended one behind the other can be told apart.
proof fn lemma_terminated_injective(a: Seq<Seq<char>>, b: Seq<Seq<char>>)
    requires
        terminated(a) == terminated(b),
        forall|i: int| 0 <= i < a.len() ==> is_plain(#[trigger] a[i]),
        forall|i: int| 0 <= i < b.len() ==> is_plain(#[trigger] b[i]),
    ensures
        a == b,
    decreases a.len(),
{
    if a.len() == 0 {
        if b.len() > 0 {
            assert(terminated(b).len() >= 2);
        }
        assert(a =~= b);
    } else if b.len() == 0 {
        assert(terminated(a).len() >= 2);
    } else {
        let x = terminated(a.drop_last());
        let y = terminated(b.drop_last());
        let la = a[a.len() - 1];
        let lb = b[b.len() - 1];
        let all = terminated(a);
        lemma_ends_with_feed(a.drop_last());
        lemma_ends_with_feed(b.drop_last());
        assert(all == x + la + seq!['\r', '\n']);
        assert(all == y + lb + seq!['\r', '\n']);
        if la.len() < lb.len() {
            assert(all[x.len() - 1] == x.last());
            assert(all[x.len() - 1] == lb[x.len() - 1 - y.len()]);
            assert(lb.contains('\n'));
        }
        if lb.len() < la.len() {
            assert(all[y.len() - 1] == y.last());
            assert(all[y.len() - 1] == la[y.len() - 1 - x.len()]);
            assert(la.contains('\n'));
        }
        assert(x =~= all.take(x.len() as int));
        assert(y =~= all.take(y.len() as int));
        assert(la =~= all.subrange(x.len() as int, x.len() + la.len() as int));
        assert(lb =~= all.subrange(y.len() as int, y.len() + lb.len() as int));
        assert forall|i: int| 0 <= i < a.len() - 1 implies is_plain(
            #[trigger] a.drop_last()[i],
        ) by {
            assert(a.drop_last()[i] == a[i]);
        }
        assert forall|i: int| 0 <= i < b.len() - 1 implies is_plain(
            #[trigger] b.drop_last()[i],
        ) by {
            assert(b.drop_last()[i] == b[i]);
        }
        lemma_terminated_injective(a.drop_last(), b.drop_last());
        assert(a =~= a.drop_last().push(la));
        assert(b =~= b.drop_last().push(lb));
    }
}

proof fn lemma_ends_with_feed(lines: Seq<Seq<char>>)
    ensures
        terminated(lines).len() > 0 ==> terminated(lines).last() == '\n',
        lines.len() == 0 ==> terminated(lines).len() == 0,
{
    if lines.len() > 0 {
        assert(terminated(lines).last() == '\n');
    }
}

/// A value behind the same name is the same in the same line.
proof fn lemma_same_value(name: Seq<char>, a: Seq<char>, b: Seq<char>)
    requires
        name + a == name + b,
    ensures
        a == b,
{
    let n = name.len() as int;
    assert((name + a).skip(n) =~= a);
    assert((name + b).skip(n) =~= b);
}

/// Law: events whose texts are the same have the same title, location and notes, but
/// for carriage returns, and the same rule, up to the case of letters. If both take
/// whole days they start on the same day, and if both were given an end they end on the
/// same day; so two events that differ only in their ends have different texts.
pub proof fn law_event_texts_differ(
    uid: Seq<char>,
    dtstamp: Seq<char>,
    f: EventFields,
    g: EventFields,
)
    requires
        is_plain(uid),
        is_plain(dtstamp),
        f.rrule is Some ==> is_plain(f.rrule->0@),
        g.rrule is Some ==> is_plain(g.rrule->0@),
        event_text(uid, dtstamp, f) is Ok,
        event_text(uid, dtstamp, f) == event_text(uid, dtstamp, g),
    ensures
        f.title@.filter(|c: char| c != '\r') == g.title@.filter(|c: char| c != '\r'),
        f.location is Some == g.location is Some,
        f.location is Some ==> f.location->0@.filter(|c: char| c != '\r')
            == g.location->0@.filter(|c: char| c != '\r'),
        f.notes is Some == g.notes is Some,
        f.notes is Some ==> f.notes->0@.filter(|c: char| c != '\r') == g.notes->0@.filter(
            |c: char| c != '\r',
        ),
        f.rrule is Some == g.rrule is Some,
        f.rrule is Some ==> text::uppered(f.rrule->0@) == text::uppered(g.rrule->0@),
        f.all_day && g.all_day ==> f.start@.filter(|c: char| c != '-') == g.start@.filter(
            |c: char| c != '-',
        ),
        !f.all_day && !g.all_day ==> datetime::datetime_text(f.start@) == datetime::datetime_text(
            g.start@,
        ),
        f.all_day && g.all_day && f.end is Some && g.end is Some ==> f.end->0@.filter(
            |c: char| c != '-',
        ) == g.end->0@.filter(|c: char| c != '-'),
        !f.all_day && !g.all_day && f.end is Some && g.end is Some ==> datetime::datetime_text(
            f.end->0@,
        ) == datetime::datetime_text(g.end->0@),
        f.duration is Some && g.duration is Some ==> duration::duration_text(f.duration->0@)
            == duration::duration_text(g.duration->0@),
{
    let a = event_lines(uid, dtstamp, f)->Ok_0;
    let b = event_lines(uid, dtstamp, g)->Ok_0;
    lemma_event_plain(uid, dtstamp, f);
    lemma_event_plain(uid, dtstamp, g);
    lemma_terminated_injective(a, b);
    lemma_event_line_names(uid, dtstamp, f);
    lemma_event_line_names(uid, dtstamp, g);
    lemma_event_line_heads(f);
    lemma_event_line_heads(g);
    lemma_own_names(f);
    lemma_own_names(g);
    let start = start_line(f)->Ok_0;
    let end = end_line(f)->Ok_0;
    assert(start == start_line(g)->Ok_0);
    assert(end[1] == end_line(g)->Ok_0[1] ==> end == end_line(g)->Ok_0);
    datetime::law_date_digits(f.start@);
    datetime::law_date_digits(g.start@);
    if f.all_day && g.all_day {
        lemma_same_value(
            "DTSTART;VALUE=DATE:"@,
            datetime::date_text(f.start@)->Ok_0,
            datetime::date_text(g.start@)->Ok_0,
        );
    }
    if !f.all_day && !g.all_day {
        lemma_same_value(
            "DTSTART:"@,
            datetime::datetime_text(f.start@)->Ok_0,
            datetime::datetime_text(g.start@)->Ok_0,
        );
    }
    if f.end is Some && g.end is Some {
        let x = f.end->0@;
        let y = g.end->0@;
        datetime::law_date_digits(x);
        datetime::law_date_digits(y);
        if f.all_day && g.all_day {
            lemma_same_value(
                "DTEND;VALUE=DATE:"@,
                datetime::date_text(x)->Ok_0,
                datetime::date_text(y)->Ok_0,
            );
        }
        if !f.all_day && !g.all_day {
            lemma_same_value(
                "DTEND:"@,
                datetime::datetime_text(x)->Ok_0,
                datetime::datetime_text(y)->Ok_0,
            );
        }
    }
    if f.duration is Some && g.duration is Some {
        lemma_same_value(
            "DURATION:"@,
            duration::duration_text(f.duration->0@)->Ok_0,
            duration::duration_text(g.duration->0@)->Ok_0,
        );
    }
    lemma_same_value("SUMMARY:"@, ical::escaped(f.title@), ical::escaped(g.title@));
    lemma_same_text(f.title@, g.title@);
    if f.location is Some {
        let x = f.location->0@;
        let y = g.location->0@;
        lemma_same_value("LOCATION:"@, ical::escaped(x), ical::escaped(y));
        lemma_same_text(x, y);
    }
    if f.notes is Some {
        let x = f.notes->0@;
        let y = g.notes->0@;
        lemma_same_value("DESCRIPTION:"@, ical::escaped(x), ical::escaped(y));
        lemma_same_text(x, y);
    }
    if f.rrule is Some {
        lemma_same_value("RRULE:"@, text::uppered(f.rrule->0@), text::uppered(g.rrule->0@));
    }
}

/// The lines of an event begin with their names.
proof fn lemma_own_names(f: EventFields)
    requires
        start_line(f) is Ok,
        end_line(f) is Ok,
    ensures
        "SUMMARY"@.is_prefix_of("SUMMARY:"@ + ical::escaped(f.title@)),
        f.location is Some ==> "LOCATION"@.is_prefix_of(
            "LOCATION:"@ + ical::escaped(f.location->0@),
        ),
        f.notes is Some ==> "DESCRIPTION"@.is_prefix_of(
            "DESCRIPTION:"@ + ical::escaped(f.notes->0@),
        ),
        f.rrule is Some ==> "RRULE"@.is_prefix_of("RRULE:"@ + text::uppered(f.rrule->0@)),
        "DTSTART"@.is_prefix_of(start_line(f)->Ok_0),
        end_line(f)->Ok_0[1] == 'T' ==> "DTEND"@.is_prefix_of(end_line(f)->Ok_0),
        end_line(f)->Ok_0[1] != 'T' ==> "DURATION"@.is_prefix_of(end_line(f)->Ok_0),
{
    reveal_strlit("SUMMARY");
    reveal_strlit("SUMMARY:");
    reveal_strlit("LOCATION");
    reveal_strlit("LOCATION:");
    reveal_strlit("DESCRIPTION");
    reveal_strlit("DESCRIPTION:");
    reveal_strlit("RRULE");
    reveal_strlit("RRULE:");
    reveal_strlit("DTSTART");
    reveal_strlit("DTSTART:");
    reveal_strlit("DTSTART;VALUE=DATE:");
    reveal_strlit("DTEND");
    reveal_strlit("DTEND:");
    reveal_strlit("DTEND;VALUE=DATE:");
    reveal_strlit("DURATION");
    reveal_strlit("DURATION:");
    reveal_strlit("DURATION:PT1H");
    let start = start_line(f)->Ok_0;
    let end = end_line(f)->Ok_0;
    assert(start.subrange(0, 7) =~= "DTSTART"@);
    if end[1] == 'T' {
        assert(end.subrange(0, 5) =~= "DTEND"@);
    } else {
        assert(end.subrange(0, 8) =~= "DURATION"@);
    }
    assert(("SUMMARY:"@ + ical::escaped(f.title@)).subrange(0, 7) =~= "SUMMARY"@);
    if f.location is Some {
        assert(("LOCATION:"@ + ical::escaped(f.location->0@)).subrange(0, 8) =~= "LOCATION"@);
    }
    if f.notes is Some {
        assert(("DESCRIPTION:"@ + ical::escaped(f.notes->0@)).subrange(0, 11) =~= "DESCRIPTION"@);
    }
    if f.rrule is Some {
        assert(("RRULE:"@ + text::uppered(f.rrule->0@)).subrange(0, 5) =~= "RRULE"@);
    }
}

/// Texts that are escaped alike are alike, but for carriage returns.
proof fn lemma_same_text(a: Seq<char>, b: Seq<char>)
    requires
        ical::escaped(a) == ical::escaped(b),
    ensures
        a.filter(|c: char| c != '\r') == b.filter(|c: char| c != '\r'),
{
    ical::law_escape_round_trip(a);
    ical::law_escape_round_trip(b);
    text::law_without(a, '\r');
    text::law_without(b, '\r');
}

/// Law: there is an event exactly if the title is not blank, there is an end or a
/// duration but not both, the rule begins with `FREQ=` in either case, and what it needs
/// can be read: for an all-day event a start without a time, an end that is a date or a
/// duration of whole days, or failing both a start that has a day after it; else a start
/// and an end that are dates with times, or a duration.
pub proof fn law_event_accepted(uid: Seq<char>, dtstamp: Seq<char>, f: EventFields)
    ensures
        event_text(uid, dtstamp, f) is Ok <==> {
            &&& exists|i: int| 0 <= i < f.title@.len() && !text::is_space(#[trigger] f.title@[i])
            &&& f.end is None || f.duration is None
            &&& f.rrule matches Some(rule) ==> rule@.len() >= 5 && text::uppered(rule@.take(5))
                == "FREQ="@
            &&& if f.all_day {
                &&& !f.start@.contains('T') && !f.start@.contains('t')
                &&& datetime::date_text(f.start@) is Ok
                &&& f.end matches Some(end) ==> datetime::date_text(end@) is Ok
                &&& f.end is None ==> (f.duration matches Some(duration) ==> (
                duration::duration_text(duration@) matches Ok(d) && !d.contains('T')))
                &&& f.end is None && f.duration is None ==> datetime::next_day_text(
                    f.start@.filter(|c: char| c != '-'),
                ) is Ok
            } else {
                &&& datetime::datetime_text(f.start@) is Ok
                &&& f.end matches Some(end) ==> datetime::datetime_text(end@) is Ok
                &&& f.end is None ==> (f.duration matches Some(duration)
                    ==> duration::duration_text(duration@) is Ok)
            }
        },
{
    lemma_blank(f.title@);
    reveal_strlit("FREQ=");
    if let Some(rule) = f.rrule {
        let upper = text::uppered(rule@);
        assert("FREQ="@.is_prefix_of(upper) <==> rule@.len() >= 5 && text::uppered(rule@.take(5))
            == "FREQ="@) by {
            if rule@.len() >= 5 {
                assert(text::uppered(rule@.take(5)) =~= upper.subrange(0, 5));
            }
        }
    }
    datetime::law_date_digits(f.start@);
}

/// A text is blank exactly if it holds nothing but white space.
proof fn lemma_blank(s: Seq<char>)
    ensures
        text::trimmed(s).len() > 0 <==> exists|i: int|
            0 <= i < s.len() && !text::is_space(#[trigger] s[i]),
{
    text::law_trimmed(s);
    let t = text::trimmed(s);
    let (a, b) = choose|a: Seq<char>, b: Seq<char>|
        s == #[trigger] (a + t + b) && (forall|i: int|
            0 <= i < a.len() ==> text::is_space(#[trigger] a[i])) && (forall|i: int|
            0 <= i < b.len() ==> text::is_space(#[trigger] b[i]));
    if t.len() > 0 {
        assert(s[a.len() as int] == t[0]);
    }
    if exists|i: int| 0 <= i < s.len() && !text::is_space(#[trigger] s[i]) {
        let i = choose|i: int| 0 <= i < s.len() && !text::is_space(#[trigger] s[i]);
        if i < a.len() {
            assert(s[i] == a[i]);
        } else if i >= a.len() + t.len() {
            assert(s[i] == b[i - a.len() - t.len()]);
        }
    }
}

/// Law: what is wrong with an event is reported in this order: a blank title, an end and
/// a duration both, a rule that does not begin with `FREQ=`, and a start with a time for
/// an all-day event.
pub proof fn law_event_refused(uid: Seq<char>, dtstamp: Seq<char>, f: EventFields)
    ensures
        ({
            let blank = forall|i: int|
                0 <= i < f.title@.len() ==> text::is_space(#[trigger] f.title@[i]);
            let both = f.end is Some && f.duration is Some;
            let bad_rule = f.rrule is Some && !"FREQ="@.is_prefix_of(
                text::uppered(f.rrule->0@),
            );
            let timed = f.all_day && (f.start@.contains('T') || f.start@.contains('t'));
            let r = event_text(uid, dtstamp, f);
            &&& blank ==> r == Err::<Seq<char>, Fault>(
                Fault::Config("Event title must not be empty"@),
            )
            &&& !blank && both ==> r == Err::<Seq<char>, Fault>(
                Fault::Config("Provide --end or --duration, not both"@),
            )
            &&& !blank && !both && bad_rule ==> r == Err::<Seq<char>, Fault>(
                Fault::Config(
                    "Invalid RRULE '"@ + f.rrule->0@ + "': must start with FREQ="@,
                ),
            )
            &&& !blank && !both && !bad_rule && timed ==> r == Err::<Seq<char>, Fault>(
                Fault::Config("--all-day events take a plain date (YYYY-MM-DD), not a time"@),
            )
        }),
{
    lemma_blank(f.title@);
}

/// Law: the text of an all-day event that was given an end says so: one of its lines is
/// `DTEND;VALUE=DATE:` and the digits of that end, and no other line tells an end or a
/// duration.
pub proof fn law_all_day_end(uid: Seq<char>, dtstamp: Seq<char>, f: EventFields)
    requires
        is_plain(uid),
        is_plain(dtstamp),
        f.rrule is Some ==> is_plain(f.rrule->0@),
        f.all_day,
        f.end is Some,
        event_text(uid, dtstamp, f) is Ok,
    ensures
        exists|lines: Seq<Seq<char>>|
            {
                let text = event_text(uid, dtstamp, f)->Ok_0;
                let line = "DTEND;VALUE=DATE:"@ + f.end->0@.filter(|c: char| c != '-');
                &&& ical::unfolded(text) == #[trigger] terminated(lines)
                &&& forall|i: int|
                    0 <= i < lines.len() ==> !(#[trigger] lines[i]).contains('\r')
                        && !lines[i].contains('\n')
                &&& lines.contains(line)
                &&& forall|i: int|
                    0 <= i < lines.len() && ("DTEND"@.is_prefix_of(#[trigger] lines[i])
                        || "DURATION"@.is_prefix_of(lines[i])) ==> lines[i] == line
            },
{
    let lines = event_lines(uid, dtstamp, f)->Ok_0;
    lemma_event_plain(uid, dtstamp, f);
    lemma_event_line_names(uid, dtstamp, f);
    lemma_event_line_heads(f);
    datetime::law_date_digits(f.end->0@);
    assert(ical::unfolded(event_text(uid, dtstamp, f)->Ok_0) == terminated(lines));
    assert forall|i: int| 0 <= i < lines.len() implies !(#[trigger] lines[i]).contains('\r')
        && !lines[i].contains('\n') by {
        assert(is_plain(lines[i]));
    }
}

/// Law: lines that fit are written as they are, each ended by CRLF.
pub proof fn law_short_lines_as_they_are(lines: Seq<Seq<char>>)
    requires
        forall|i: int| 0 <= i < lines.len() ==> text::octets(#[trigger] lines[i]) <= 75,
    ensures
        calendar_text(lines) == terminated(lines),
    decreases lines.len(),
{
    if lines.len() > 0 {
        let front = lines.drop_last();
        assert forall|i: int| 0 <= i < front.len() implies text::octets(#[trigger] front[i])
            <= 75 by {
            assert(front[i] == lines[i]);
        }
        law_short_lines_as_they_are(front);
        assert(text::octets(lines[lines.len() - 1]) <= 75);
        ical::law_fold_short(lines.last());
    }
}

/// Law: an event can be asked for unless the duration that it needs adds up to 2^64 or
/// more in some unit.
pub proof fn law_event_fits(f: EventFields)
    ensures
        f.duration is None ==> event_fits(f),
        f.duration is Some && duration::duration_fits(f.duration->0@) ==> event_fits(f),
        f.duration is Some && start_line(f) is Ok && event_fits(f) ==> duration::duration_fits(
            f.duration->0@,
        ),
{
}

} // verus!
