//! Calendar events: iCalendar text, dates, durations and CalDAV.

use fastmail_cli::caldav::{match_calendar, parse_calendars_response, Calendar};
use fastmail_cli::civil::{civil_from_days, days_from_civil};
use fastmail_cli::datetime::{format_utc_timestamp, next_day, parse_ical_date, parse_ical_datetime};
use fastmail_cli::duration::parse_duration;
use fastmail_cli::event::{build_event_ics, EventFields};
use fastmail_cli::ical::{fold_ical_line, ical_escape};


// -- escaping & folding --------------------------------------------------

#[test]
fn test_ical_escape() {
    assert_eq!(ical_escape("plain"), "plain");
    assert_eq!(ical_escape("a;b,c\\d"), "a\\;b\\,c\\\\d");
    assert_eq!(ical_escape("line1\nline2"), "line1\\nline2");
    assert_eq!(ical_escape("crlf\r\nkept"), "crlf\\nkept");
}

#[test]
fn test_fold_short_line_unchanged() {
    assert_eq!(fold_ical_line("SUMMARY:short"), "SUMMARY:short");
}

#[test]
fn test_fold_long_line() {
    let line = format!("SUMMARY:{}", "x".repeat(100));
    let folded = fold_ical_line(&line);
    for part in folded.split("\r\n") {
        assert!(part.len() <= 75, "segment too long: {}", part.len());
    }
    // Unfolding (remove CRLF + single space) restores the original.
    assert_eq!(folded.replace("\r\n ", ""), line);
}

#[test]
fn test_fold_multibyte_on_char_boundary() {
    let line = format!("SUMMARY:{}", "é".repeat(100));
    let folded = fold_ical_line(&line);
    for part in folded.split("\r\n") {
        assert!(part.len() <= 75);
    }
    assert_eq!(folded.replace("\r\n ", ""), line);
}

// -- date/time parsing ---------------------------------------------------

#[test]
fn test_parse_ical_date() {
    assert_eq!(parse_ical_date("2026-06-20").unwrap(), "20260620");
    assert_eq!(parse_ical_date("20260620").unwrap(), "20260620");
    assert!(parse_ical_date("2026-06").is_err());
    assert!(parse_ical_date("not-a-date").is_err());
}

#[test]
fn test_parse_ical_datetime() {
    assert_eq!(
        parse_ical_datetime("2026-06-20T14:00:00").unwrap(),
        "20260620T140000"
    );
    assert_eq!(
        parse_ical_datetime("2026-06-20T14:00").unwrap(),
        "20260620T140000"
    );
    assert_eq!(
        parse_ical_datetime("2026-06-20T14:00:00Z").unwrap(),
        "20260620T140000Z"
    );
    assert_eq!(
        parse_ical_datetime("20260620T140000").unwrap(),
        "20260620T140000"
    );
    assert!(parse_ical_datetime("2026-06-20").is_err());
    assert!(parse_ical_datetime("2026-06-20T9").is_err());
}

// -- durations -----------------------------------------------------------

#[test]
fn test_parse_duration() {
    assert_eq!(parse_duration("1h").unwrap(), "PT1H");
    assert_eq!(parse_duration("90m").unwrap(), "PT90M");
    assert_eq!(parse_duration("1h30m").unwrap(), "PT1H30M");
    assert_eq!(parse_duration("2d").unwrap(), "P2D");
    assert_eq!(parse_duration("1d2h").unwrap(), "P1DT2H");
    assert_eq!(parse_duration("45s").unwrap(), "PT45S");
    assert!(parse_duration("").is_err());
    assert!(parse_duration("90").is_err());
    assert!(parse_duration("1x").is_err());
    assert!(parse_duration("0m").is_err());
}

// -- civil date math -----------------------------------------------------

#[test]
fn test_civil_epoch() {
    assert_eq!(civil_from_days(0), (1970, 1, 1));
    assert_eq!(days_from_civil(1970, 1, 1), 0);
}

#[test]
fn test_civil_round_trip() {
    for z in [-1000i64, -1, 0, 1, 10_000, 20_000, 60_000] {
        let (y, m, d) = civil_from_days(z);
        assert_eq!(days_from_civil(y, m, d), z);
    }
}

#[test]
fn test_format_utc_timestamp() {
    assert_eq!(format_utc_timestamp(0), "19700101T000000Z");
    assert_eq!(format_utc_timestamp(86_399), "19700101T235959Z");
    // 2000-02-29 00:00:00 UTC (leap day)
    assert_eq!(format_utc_timestamp(951_782_400), "20000229T000000Z");
}

#[test]
fn test_next_day() {
    assert_eq!(next_day("20260620").unwrap(), "20260621");
    assert_eq!(next_day("20261231").unwrap(), "20270101");
    assert_eq!(next_day("20240228").unwrap(), "20240229"); // leap year
    assert_eq!(next_day("20250228").unwrap(), "20250301");
}

// -- VEVENT assembly -----------------------------------------------------

fn fields<'a>() -> EventFields<'a> {
    EventFields {
        title: "Dentist",
        start: "2026-06-20T14:00:00",
        ..Default::default()
    }
}

#[test]
fn test_build_timed_event_default_duration() {
    let ics = build_event_ics("UID1", "20260601T000000Z", &fields()).unwrap();
    assert!(ics.contains("BEGIN:VCALENDAR\r\n"));
    assert!(ics.contains("UID:UID1\r\n"));
    assert!(ics.contains("DTSTAMP:20260601T000000Z\r\n"));
    assert!(ics.contains("DTSTART:20260620T140000\r\n"));
    assert!(ics.contains("DURATION:PT1H\r\n"));
    assert!(ics.contains("SUMMARY:Dentist\r\n"));
    assert!(ics.ends_with("END:VCALENDAR\r\n"));
}

#[test]
fn test_build_timed_event_with_duration_location_notes() {
    let f = EventFields {
        duration: Some("1h30m"),
        location: Some("12 Main St; Suite 4"),
        notes: Some("bring x-rays\nand insurance card"),
        ..fields()
    };
    let ics = build_event_ics("UID1", "20260601T000000Z", &f).unwrap();
    assert!(ics.contains("DURATION:PT1H30M\r\n"));
    assert!(ics.contains("LOCATION:12 Main St\\; Suite 4\r\n"));
    assert!(ics.contains("DESCRIPTION:bring x-rays\\nand insurance card\r\n"));
}

#[test]
fn test_build_timed_event_with_end() {
    let f = EventFields {
        end: Some("2026-06-20T15:30:00"),
        ..fields()
    };
    let ics = build_event_ics("UID1", "20260601T000000Z", &f).unwrap();
    assert!(ics.contains("DTEND:20260620T153000\r\n"));
    assert!(!ics.contains("DURATION:"));
}

#[test]
fn test_build_all_day_event_defaults_one_day() {
    let f = EventFields {
        start: "2026-06-20",
        all_day: true,
        ..fields()
    };
    let ics = build_event_ics("UID1", "20260601T000000Z", &f).unwrap();
    assert!(ics.contains("DTSTART;VALUE=DATE:20260620\r\n"));
    assert!(ics.contains("DTEND;VALUE=DATE:20260621\r\n"));
}

#[test]
fn test_build_all_day_rejects_time() {
    let f = EventFields {
        start: "2026-06-20T14:00:00",
        all_day: true,
        ..fields()
    };
    assert!(build_event_ics("UID1", "20260601T000000Z", &f).is_err());
}

#[test]
fn test_build_all_day_rejects_sub_day_duration() {
    let f = EventFields {
        start: "2026-06-20",
        all_day: true,
        duration: Some("3h"),
        ..fields()
    };
    assert!(build_event_ics("UID1", "20260601T000000Z", &f).is_err());
}

#[test]
fn test_build_event_rrule() {
    let f = EventFields {
        rrule: Some("freq=weekly;byday=sa"),
        ..fields()
    };
    let ics = build_event_ics("UID1", "20260601T000000Z", &f).unwrap();
    assert!(ics.contains("RRULE:FREQ=WEEKLY;BYDAY=SA\r\n"));
    let bad = EventFields {
        rrule: Some("WEEKLY"),
        ..fields()
    };
    assert!(build_event_ics("UID1", "20260601T000000Z", &bad).is_err());
}

#[test]
fn test_build_event_rejects_end_and_duration() {
    let f = EventFields {
        end: Some("2026-06-20T15:00:00"),
        duration: Some("1h"),
        ..fields()
    };
    assert!(build_event_ics("UID1", "20260601T000000Z", &f).is_err());
}

// -- calendar discovery --------------------------------------------------

const SAMPLE_PROPFIND: &str = r#"<?xml version="1.0" encoding="utf-8"?>
<d:multistatus xmlns:d="DAV:" xmlns:cal="urn:ietf:params:xml:ns:caldav">
  <d:response>
    <d:href>/dav/calendars/user/me@example.com/</d:href>
    <d:propstat>
      <d:prop>
        <d:displayname>me@example.com</d:displayname>
        <d:resourcetype><d:collection/></d:resourcetype>
      </d:prop>
      <d:status>HTTP/1.1 200 OK</d:status>
    </d:propstat>
  </d:response>
  <d:response>
    <d:href>/dav/calendars/user/me@example.com/abc123/</d:href>
    <d:propstat>
      <d:prop>
        <d:displayname>Family</d:displayname>
        <d:resourcetype><d:collection/><cal:calendar/></d:resourcetype>
      </d:prop>
      <d:status>HTTP/1.1 200 OK</d:status>
    </d:propstat>
  </d:response>
  <d:response>
    <d:href>/dav/calendars/user/me@example.com/def456/</d:href>
    <d:propstat>
      <d:prop>
        <d:displayname>Work</d:displayname>
        <d:resourcetype><d:collection/><cal:calendar/></d:resourcetype>
      </d:prop>
      <d:status>HTTP/1.1 200 OK</d:status>
    </d:propstat>
  </d:response>
</d:multistatus>"#;

#[test]
fn test_parse_calendars_response() {
    let cals = parse_calendars_response(SAMPLE_PROPFIND, "me@example.com").unwrap();
    assert_eq!(cals.len(), 2);
    assert_eq!(cals[0].name, "Family");
    assert_eq!(cals[0].href, "/dav/calendars/user/me@example.com/abc123/");
    assert_eq!(cals[1].name, "Work");
}

#[test]
fn test_match_calendar_case_insensitive() {
    let cals = vec![
        Calendar {
            href: "/a/".into(),
            name: "Family".into(),
        },
        Calendar {
            href: "/b/".into(),
            name: "Work".into(),
        },
    ];
    assert_eq!(match_calendar(&cals, "family").unwrap().href, "/a/");
    assert_eq!(match_calendar(&cals, "WORK").unwrap().href, "/b/");
    assert!(match_calendar(&cals, "Personal").is_none());
}
