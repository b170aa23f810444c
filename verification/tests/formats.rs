//! Text, numbers, dates, durations and events, at their edges.

use fastmail_cli::civil::{civil_from_days, days_from_civil};
use fastmail_cli::datetime::{
    dtstamp_now, format_utc_timestamp, next_day, parse_ical_date, parse_ical_datetime,
};
use fastmail_cli::decimal::{
    read_number, read_signed, read_unsigned, write_number, write_padded, write_signed_padded,
};
use fastmail_cli::duration::{check_duration_fits, parse_duration};
use fastmail_cli::error::Error;
use fastmail_cli::event::{build_event_ics, check_event_fits, EventFields};
use fastmail_cli::ical::{fold_ical_line, ical_escape};
use fastmail_cli::text;

fn config(error: Error) -> String {
    match error {
        Error::Config(message) => message,
        Error::Server(message) => panic!("no server was asked: {message}"),
    }
}

#[test]
fn characters_are_classed_as_the_standard_library_does() {
    for code in 0..=0x10ffffu32 {
        if let Some(c) = char::from_u32(code) {
            assert_eq!(text::space(c), c.is_whitespace());
            assert_eq!(text::control(c), c.is_control());
            assert_eq!(text::digit(c), c.is_ascii_digit());
            assert_eq!(text::lower_char(c), c.to_ascii_lowercase());
            assert_eq!(text::upper_char(c), c.to_ascii_uppercase());
            assert_eq!(text::char_width(c), c.len_utf8());
        }
    }
}

#[test]
fn text_is_ordered_by_its_bytes() {
    let texts = ["", "a", "ab", "b", "\u{7f}", "\u{80}", "\u{ffff}", "\u{10000}", "a\u{10000}"];
    for a in texts {
        for b in texts {
            assert_eq!(text::comes_before(&text::to_chars(a), &text::to_chars(b)), a < b);
        }
    }
}

#[test]
fn text_is_cut_and_joined() {
    let chars = text::to_chars(" a b  c ");
    assert_eq!(text::from_chars(text::trim(&chars)), "a b  c");
    assert_eq!(text::from_chars(text::trim_start(&chars)), "a b  c ");
    assert_eq!(text::from_chars(text::trim_end(&chars)), " a b  c");
    assert_eq!(text::split(&chars, text::Separator::Space).len(), 6);
    assert_eq!(text::split_words(&chars).len(), 3);
    assert_eq!(text::from_chars(&text::collapse(&chars)), "a b c");
    assert_eq!(text::join_strings(&vec!["a".to_string(), "b".to_string()], ", "), "a, b");
    assert_eq!(text::join_strings(&vec![], ", "), "");
    assert_eq!(text::octet_len("a\u{e9}\u{20ac}\u{1f600}"), 10);
}

#[test]
fn parts_of_text() {
    let s = text::to_chars("abcabd");
    assert!(text::contains_part(&s, &text::to_chars("abd")));
    assert!(!text::contains_part(&s, &text::to_chars("abe")));
    assert!(text::contains_part(&s, &[]));
    assert!(text::begins_with(&s, &text::to_chars("abc")));
    assert!(!text::begins_with(&s, &text::to_chars("b")));
    assert!(text::same_ignoring_case(&text::to_chars("aB\u{e9}"), &text::to_chars("Ab\u{e9}")));
    assert!(!text::same_ignoring_case(&text::to_chars("\u{c9}"), &text::to_chars("\u{e9}")));
}

#[test]
fn numbers_are_written_and_read() {
    let text = |chars: Vec<char>| chars.into_iter().collect::<String>();
    assert_eq!(text(write_number(0)), "0");
    assert_eq!(text(write_number(u64::MAX)), "18446744073709551615");
    assert_eq!(text(write_padded(7, 3)), "007");
    assert_eq!(text(write_padded(1234, 3)), "1234");
    for n in [-12345i64, -999, -7, 0, 7, 12345] {
        assert_eq!(text(write_signed_padded(n, 4)), format!("{n:04}"));
    }
    assert_eq!(read_number(&text::to_chars("18446744073709551615")), Some(u64::MAX));
    assert_eq!(read_number(&text::to_chars("18446744073709551616")), None);
    assert_eq!(read_number(&[]), None);
    for s in [
        "12",
        "+1",
        "-1",
        "+",
        "-",
        "",
        "1x",
        "007",
        "+-1",
        "4294967295",
        "4294967296",
        "+000000000000000000000007",
        "9223372036854775807",
        "9223372036854775808",
        "-9223372036854775808",
        "-9223372036854775809",
        "-99999999999999999999",
        "99999999999999999999",
    ] {
        assert_eq!(read_unsigned(&text::to_chars(s)), s.parse::<u32>().ok());
        assert_eq!(read_signed(&text::to_chars(s)), s.parse::<i64>().ok());
    }
}

#[test]
fn days_and_dates_agree_over_centuries() {
    let mut date = (1600, 1, 1);
    let start = days_from_civil(1600, 1, 1);
    assert_eq!(start, -135_140);
    for z in start..start + 300_000 {
        assert_eq!(civil_from_days(z), date);
        assert_eq!(days_from_civil(date.0, date.1, date.2), z);
        let leap = date.0 % 4 == 0 && (date.0 % 100 != 0 || date.0 % 400 == 0);
        let length = match date.1 {
            2 if leap => 29,
            2 => 28,
            4 | 6 | 9 | 11 => 30,
            _ => 31,
        };
        date = if date.2 < length {
            (date.0, date.1, date.2 + 1)
        } else if date.1 < 12 {
            (date.0, date.1 + 1, 1)
        } else {
            (date.0 + 1, 1, 1)
        };
    }
}

#[test]
fn timestamps_at_their_edges() {
    assert_eq!(format_utc_timestamp(86_400), "19700102T000000Z");
    assert_eq!(format_utc_timestamp(1_790_000_000), "20260921T141320Z");
    assert_eq!(format_utc_timestamp(u64::MAX), "5845540512231109T070015Z");
}

#[test]
fn the_current_time_is_a_timestamp() {
    let stamp = dtstamp_now();
    assert_eq!(stamp.len(), 16);
    assert_eq!(parse_ical_datetime(&stamp).unwrap(), stamp);
    assert!(stamp.as_str() > "20240101T000000Z");
}

#[test]
fn dates_are_normalized_once() {
    assert_eq!(parse_ical_date("--2026-06--20-").unwrap(), "20260620");
    let date = parse_ical_date("2026-06-20").unwrap();
    assert_eq!(parse_ical_date(&date).unwrap(), date);
    assert_eq!(
        config(parse_ical_date("2026-06").unwrap_err()),
        "Invalid date '2026-06': expected YYYY-MM-DD"
    );
    assert!(parse_ical_date("2026-06-2\u{661}").is_err());
}

#[test]
fn datetimes_are_normalized_once() {
    assert_eq!(parse_ical_datetime("20260620t1400z").unwrap(), "20260620T140000Z");
    let stamp = parse_ical_datetime("2026-06-20T14:00").unwrap();
    assert_eq!(parse_ical_datetime(&stamp).unwrap(), stamp);
    assert_eq!(
        config(parse_ical_datetime("2026-06-20").unwrap_err()),
        "Invalid datetime '2026-06-20': expected YYYY-MM-DDTHH:MM[:SS] (or a plain date with --all-day)"
    );
    assert_eq!(
        config(parse_ical_datetime("2026-06T14:00").unwrap_err()),
        "Invalid date '2026-06': expected YYYY-MM-DD"
    );
    assert_eq!(
        config(parse_ical_datetime("2026-06-20T9").unwrap_err()),
        "Invalid time in '2026-06-20T9': expected HH:MM or HH:MM:SS"
    );
    assert_eq!(
        config(parse_ical_datetime("2026-06-20T9x:00").unwrap_err()),
        "Invalid time in '2026-06-20T9x:00'"
    );
    assert_eq!(
        config(parse_ical_datetime("2026-06-20T14\u{e9}").unwrap_err()),
        "Invalid time in '2026-06-20T14\u{e9}'"
    );
}

#[test]
fn days_follow_each_other() {
    assert_eq!(next_day("19991231").unwrap(), "20000101");
    assert_eq!(next_day("21000228").unwrap(), "21000301");
    assert_eq!(next_day("99991231").unwrap(), "100000101");
    assert_eq!(next_day("20260231").unwrap(), "20260304");
    for bad in ["20261301", "20260001", "20260100", "20260132", "2026xx01", "x0260101"] {
        assert_eq!(config(next_day(bad).unwrap_err()), format!("Invalid date '{bad}'"));
    }
    for short in ["abcd", "\u{e9}\u{e9}", "2026ab", "2026-6", "202606\u{e9}"] {
        assert_eq!(config(next_day(short).unwrap_err()), format!("Invalid date '{short}'"));
    }
}

#[test]
fn durations_add_up() {
    assert_eq!(config(parse_duration("1H 30M").unwrap_err()), "Invalid duration '1H 30M'");
    assert_eq!(parse_duration(" 1D2h3M4s ").unwrap(), "P1DT2H3M4S");
    assert_eq!(parse_duration("1h2h").unwrap(), "PT3H");
    assert_eq!(parse_duration("0d5m").unwrap(), "PT5M");
    assert_eq!(
        config(parse_duration("").unwrap_err()),
        "Invalid duration '': expected forms like 1h, 90m, 1h30m, 2d"
    );
    assert_eq!(
        config(parse_duration("1h5").unwrap_err()),
        "Invalid duration '1h5': expected forms like 1h, 90m, 1h30m, 2d"
    );
    assert_eq!(config(parse_duration("h").unwrap_err()), "Invalid duration 'h'");
    assert_eq!(
        config(parse_duration("18446744073709551616s").unwrap_err()),
        "Invalid duration '18446744073709551616s'"
    );
    assert_eq!(
        config(parse_duration("1w").unwrap_err()),
        "Invalid duration unit 'w' in '1w' (use d/h/m/s)"
    );
    assert_eq!(config(parse_duration("0m").unwrap_err()), "Duration '0m' is zero");
}

#[test]
fn sums_of_durations_must_fit() {
    assert!(check_duration_fits("18446744073709551615s"));
    assert!(!check_duration_fits("18446744073709551615s1s"));
    assert!(check_duration_fits("18446744073709551615s1m"));
    assert_eq!(parse_duration("18446744073709551615d").unwrap(), "P18446744073709551615D");
    let long = EventFields {
        title: "x",
        start: "2026-06-20T14:00",
        duration: Some("18446744073709551615s1s"),
        ..Default::default()
    };
    assert!(!check_event_fits(&long));
    assert!(check_event_fits(&EventFields { title: "", ..long }));
    assert!(check_event_fits(&EventFields { duration: None, ..long }));
}

#[test]
fn folding_at_the_limit() {
    let exact = "x".repeat(75);
    assert_eq!(fold_ical_line(&exact), exact);
    let over = "x".repeat(76);
    assert_eq!(fold_ical_line(&over), format!("{exact}\r\n x"));
    let wide = "x".repeat(74) + "\u{1f600}";
    assert_eq!(fold_ical_line(&wide), format!("{}\r\n \u{1f600}", "x".repeat(74)));
    let long = "y".repeat(75 + 74 + 1);
    assert_eq!(
        fold_ical_line(&long),
        format!("{}\r\n {}\r\n y", "y".repeat(75), "y".repeat(74))
    );
}

#[test]
fn escaped_text_is_one_line() {
    assert_eq!(ical_escape("a\r\nb\rc\n"), "a\\nbc\\n");
    assert!(!ical_escape("x\n\r\ny").contains(['\n', '\r']));
}

fn fields() -> EventFields<'static> {
    EventFields { title: "Dentist", start: "2026-06-20T14:00:00", ..Default::default() }
}

fn refusal(fields: &EventFields) -> String {
    config(build_event_ics("U", "D", fields).unwrap_err())
}

#[test]
fn an_event_in_full() {
    let event = EventFields {
        title: "A, B",
        start: "2026-06-20",
        duration: Some("2d"),
        all_day: true,
        location: Some("x"),
        notes: Some("y\nz"),
        rrule: Some("freq=daily"),
        ..Default::default()
    };
    assert_eq!(
        build_event_ics("U1", "20260601T000000Z", &event).unwrap(),
        "BEGIN:VCALENDAR\r\nVERSION:2.0\r\nPRODID:-//fastmail-cli//EN\r\nBEGIN:VEVENT\r\nUID:U1\r\n\
         DTSTAMP:20260601T000000Z\r\nDTSTART;VALUE=DATE:20260620\r\nDURATION:P2D\r\n\
         SUMMARY:A\\, B\r\nLOCATION:x\r\nDESCRIPTION:y\\nz\r\nRRULE:FREQ=DAILY\r\n\
         END:VEVENT\r\nEND:VCALENDAR\r\n"
    );
}

#[test]
fn every_refusal_of_an_event() {
    assert_eq!(refusal(&EventFields { title: " \t", ..fields() }), "Event title must not be empty");
    assert_eq!(
        refusal(&EventFields { end: Some("x"), duration: Some("y"), ..fields() }),
        "Provide --end or --duration, not both"
    );
    assert_eq!(
        refusal(&EventFields { rrule: Some("daily"), ..fields() }),
        "Invalid RRULE 'daily': must start with FREQ="
    );
    assert_eq!(
        refusal(&EventFields { all_day: true, ..fields() }),
        "--all-day events take a plain date (YYYY-MM-DD), not a time"
    );
    let day = EventFields { start: "2026-06-20", all_day: true, ..fields() };
    assert_eq!(
        refusal(&EventFields { duration: Some("3h"), ..day }),
        "All-day duration must be whole days (e.g. 2d), got '3h'"
    );
    assert_eq!(
        refusal(&EventFields { end: Some("soon"), ..day }),
        "Invalid date 'soon': expected YYYY-MM-DD"
    );
    assert_eq!(refusal(&EventFields { start: "2026-13-01", ..day }), "Invalid date '20261301'");
    assert_eq!(
        refusal(&EventFields { duration: Some("1"), ..fields() }),
        "Invalid duration '1': expected forms like 1h, 90m, 1h30m, 2d"
    );
    assert!(refusal(&EventFields { end: Some("2026-06-20"), ..fields() })
        .starts_with("Invalid datetime '2026-06-20'"));
}

#[test]
fn long_values_are_folded_and_read_back() {
    let notes = "\u{e9}, ".repeat(60) + "end";
    let event = EventFields { notes: Some(&notes), ..fields() };
    let ics = build_event_ics("U1", "20260601T000000Z", &event).unwrap();
    for line in ics.split("\r\n") {
        assert!(line.len() <= 75);
    }
    let unfolded = ics.replace("\r\n ", "");
    let line = unfolded.split("\r\n").find(|l| l.starts_with("DESCRIPTION:")).unwrap();
    assert_eq!(line["DESCRIPTION:".len()..].replace("\\,", ","), notes);
}

#[test]
fn collapsing_twice_changes_nothing() {
    for s in ["", " ", "a", "  a \t b\n\nc  ", "\u{2003}x\u{a0}y"] {
        let once = text::collapse(&text::to_chars(s));
        assert_eq!(text::collapse(&once), once);
        assert!(!text::from_chars(&once).contains("  "));
    }
}

#[test]
fn no_physical_line_is_empty_or_broken() {
    let notes = "first\r\n\n second\r third".repeat(9);
    let event = EventFields {
        notes: Some(&notes),
        location: Some("\n"),
        rrule: Some("FREQ=DAILY"),
        ..fields()
    };
    let ics = build_event_ics("U1", "20260601T000000Z", &event).unwrap();
    let lines: Vec<&str> = ics.strip_suffix("\r\n").unwrap().split("\r\n").collect();
    for line in lines {
        assert!(!line.is_empty() && line.len() <= 75 && !line.contains(['\r', '\n']));
    }
}
