//! Threads and their digests.

use fastmail_cli::digest::{get_thread_fmt, render_digest, write_entry};
use fastmail_cli::models::{Email, EmailAddress};
use fastmail_cli::thread::{
    excerpt_of, in_order, latest_message, snippet, thread_last_sender, Rendering, ThreadFormat,
    SNIPPET_LEN,
};

fn email(received_at: Option<&str>) -> Email {
    email_with(received_at, None, None)
}

fn address(email: &str) -> EmailAddress {
    EmailAddress { name: None, email: email.to_string() }
}

fn email_with(received_at: Option<&str>, from: Option<&str>, subject: Option<&str>) -> Email {
    let mut email = Email::new("e1".to_string());
    email.received_at = received_at.map(|r| r.to_string());
    email.from = from.map(|f| vec![address(f)]);
    email.subject = subject.map(|s| s.to_string());
    email
}

#[test]
fn test_latest_message_ordering() {
    let emails = vec![
        email(Some("2024-01-01T00:00:00Z")),
        email(Some("2024-03-01T00:00:00Z")),
        email(Some("2024-02-01T00:00:00Z")),
    ];
    let latest = latest_message(&emails).unwrap();
    assert_eq!(latest.received_at.as_deref(), Some("2024-03-01T00:00:00Z"));
}

#[test]
fn test_latest_message_empty() {
    let emails: Vec<Email> = vec![];
    assert!(latest_message(&emails).is_none());
}

#[test]
fn test_latest_message_missing_dates_treated_oldest() {
    let emails = vec![
        email(None),
        email(Some("2020-01-01T00:00:00Z")),
        email(None),
    ];
    let latest = latest_message(&emails).unwrap();
    assert_eq!(latest.received_at.as_deref(), Some("2020-01-01T00:00:00Z"));
}

#[test]
fn test_latest_message_all_missing() {
    let emails = vec![email(None), email(None)];
    // Some message is returned even when all dates are missing.
    assert!(latest_message(&emails).is_some());
}

fn email_with_body(
    received_at: &str,
    from: &str,
    subject: Option<&str>,
    text: Option<&str>,
    html: Option<&str>,
) -> Email {
    let mut email = email_with(Some(received_at), Some(from), subject);
    email.text_body = text.map(|t| t.to_string());
    email.html_body = html.map(|h| h.to_string());
    email
}

#[test]
fn test_snippet_strips_quoted_lines_and_collapses_whitespace() {
    let e = email_with_body(
        "2026-01-01T00:00:00Z",
        "a@x.com",
        None,
        Some("Sounds good,\n  see you then.\n\n> On Tue, someone wrote:\n> old quoted text"),
        None,
    );
    assert_eq!(snippet(&e), "Sounds good, see you then.");
}

#[test]
fn test_snippet_truncates_on_char_boundary() {
    let long = "é".repeat(SNIPPET_LEN + 10);
    let e = email_with_body("2026-01-01T00:00:00Z", "a@x.com", None, Some(&long), None);
    let s = snippet(&e);
    assert_eq!(s.chars().count(), SNIPPET_LEN + 1); // +1 for the ellipsis
    assert!(s.ends_with('…'));
}

#[test]
fn test_snippet_falls_back_to_html() {
    let e = email_with_body(
        "2026-01-01T00:00:00Z",
        "a@x.com",
        None,
        None,
        Some("<p>Hello <b>world</b></p>"),
    );
    let s = snippet(&e);
    assert!(s.contains("Hello"), "got: {s}");
    assert!(s.contains("world"), "got: {s}");
    assert!(!s.contains('<'), "html tags must be stripped: {s}");
}

#[test]
fn test_render_digest_orders_and_dedupes_participants() {
    let emails = vec![
        email_with_body(
            "2026-02-01T08:00:00Z",
            "bob@y.com",
            Some("Re: Plan"),
            Some("Reply text"),
            None,
        ),
        email_with_body(
            "2026-01-01T09:00:00Z",
            "alice@x.com",
            Some("Plan"),
            Some("Original text"),
            None,
        ),
        email_with_body(
            "2026-03-01T10:00:00Z",
            "alice@x.com",
            Some("Re: Plan"),
            Some("Final text"),
            None,
        ),
    ];
    let d = render_digest(&emails);
    // Header: earliest subject, count, date range, deduped participants.
    assert!(d.starts_with("Subject: Plan\n"), "got: {d}");
    assert!(
        d.contains("Messages: 3 | 2026-01-01 → 2026-03-01"),
        "got: {d}"
    );
    assert!(
        d.contains("Participants: alice@x.com, bob@y.com"),
        "got: {d}"
    );
    // Chronological numbering.
    let p1 = d.find("[1] 2026-01-01").unwrap();
    let p2 = d.find("[2] 2026-02-01").unwrap();
    let p3 = d.find("[3] 2026-03-01").unwrap();
    assert!(p1 < p2 && p2 < p3, "got: {d}");
    assert!(d.contains("Original text"), "got: {d}");
}

#[test]
fn test_render_digest_empty_thread() {
    let d = render_digest(&[]);
    assert!(d.contains("Subject: (no subject)"), "got: {d}");
    assert!(d.contains("Messages: 0"), "got: {d}");
}

#[test]
fn test_latest_message_ties() {
    let a = email_with(Some("2024-05-05T00:00:00Z"), None, Some("first"));
    let b = email_with(Some("2024-05-05T00:00:00Z"), None, Some("second"));
    let emails = vec![a, b];
    let latest = latest_message(&emails).unwrap();
    // A tie still yields one of the tied messages.
    assert_eq!(latest.received_at.as_deref(), Some("2024-05-05T00:00:00Z"));
}

#[test]
fn the_first_of_the_latest_is_taken() {
    let emails = vec![
        email_with(Some("2024-05-05T00:00:00Z"), None, Some("first")),
        email_with(Some("2024-05-05T00:00:00Z"), None, Some("second")),
        email_with(Some("2024-05-04T00:00:00Z"), None, Some("older")),
    ];
    assert_eq!(latest_message(&emails).unwrap().subject.as_deref(), Some("first"));
}

#[test]
fn emails_of_one_date_keep_their_order() {
    let emails = vec![
        email_with(Some("2024-02-01"), None, Some("c")),
        email_with(None, None, Some("a")),
        email_with(Some("2024-01-01"), None, Some("b1")),
        email_with(Some("2024-01-01"), None, Some("b2")),
        email_with(None, None, Some("a2")),
        email_with(Some("2024-01-01T00"), None, Some("b3")),
    ];
    let order: Vec<&str> =
        in_order(&emails).iter().map(|e| e.subject.as_deref().unwrap()).collect();
    assert_eq!(order, vec!["a", "a2", "b1", "b2", "b3", "c"]);
}

#[test]
fn an_excerpt_is_one_line() {
    assert_eq!(excerpt_of("a\r\n\tb  c\n"), "a b c");
    assert_eq!(excerpt_of("  > quoted\n\t>too\nkept > this"), "kept > this");
    assert_eq!(excerpt_of(""), "");
    assert_eq!(excerpt_of("reply\n> quoted"), excerpt_of("reply"));
}

#[test]
fn an_excerpt_is_cut_behind_its_last_character() {
    let exact = "x".repeat(SNIPPET_LEN);
    assert_eq!(excerpt_of(&exact), exact);
    assert_eq!(excerpt_of(&(exact.clone() + "y")), exact + "\u{2026}");
}

#[test]
fn the_preview_is_the_last_resort() {
    let mut email = email_with(None, None, None);
    assert_eq!(snippet(&email), "");
    email.preview = Some("from the server".to_string());
    assert_eq!(snippet(&email), "from the server");
    email.html_body = Some("<i>from html</i>".to_string());
    assert_eq!(snippet(&email), "from html");
    email.text_body = Some("from text".to_string());
    assert_eq!(snippet(&email), "from text");
}

#[test]
fn a_digest_in_full() {
    let mut first = email_with_body("2026-01-01T09:30:00Z", "alice@x.com", None, Some("Hi"), None);
    first.from = Some(vec![EmailAddress {
        name: Some("Alice".to_string()),
        email: "alice@x.com".to_string(),
    }]);
    let second = email_with(None, None, Some("Plan"));
    assert_eq!(
        render_digest(&[first, second]),
        "Subject: Plan\n\
         Messages: 2 | ? \u{2192} 2026-01-01\n\
         Participants: Alice <alice@x.com>\n\
         \n\
         [1] (no date) \u{2014} (unknown sender)\n\
         \n\
         [2] 2026-01-01 09:30 \u{2014} Alice <alice@x.com>\n    Hi\n"
    );
}

#[test]
fn an_entry_shows_its_excerpt_if_there_is_one() {
    let email = email_with(Some("2026-01-01T09:30:00Z"), Some("a@x.com"), None);
    assert_eq!(
        write_entry(12, &email, "text"),
        "\n[12] 2026-01-01 09:30 \u{2014} a@x.com\n    text\n"
    );
    assert_eq!(write_entry(1, &email, ""), "\n[1] 2026-01-01 09:30 \u{2014} a@x.com\n");
}

#[test]
fn formats_of_a_thread() {
    assert_eq!(ThreadFormat::default(), ThreadFormat::Json);
    assert!(matches!(get_thread_fmt(&[], ThreadFormat::Json), Rendering::Json));
    match get_thread_fmt(&[], ThreadFormat::Digest) {
        Rendering::Raw(text) => assert_eq!(text, render_digest(&[])),
        Rendering::Json => panic!("a digest is text"),
    }
}

#[test]
fn the_last_sender_is_that_of_the_latest_message() {
    let emails = vec![
        email_with(Some("2024-01-01"), Some("a@x.com"), Some("one")),
        email_with(Some("2024-03-01"), Some("b@x.com"), Some("two")),
    ];
    let last = thread_last_sender(&emails);
    assert_eq!(last.last_sender.unwrap().email, "b@x.com");
    assert_eq!(last.received_at.as_deref(), Some("2024-03-01"));
    assert_eq!(last.subject.as_deref(), Some("two"));
    let none = thread_last_sender(&[]);
    assert!(none.last_sender.is_none() && none.received_at.is_none() && none.subject.is_none());
}

#[test]
fn addresses_are_shown_with_their_names() {
    let mut shown = address("a@x.com");
    assert_eq!(shown.to_text(), "a@x.com");
    shown.name = Some(String::new());
    assert_eq!(shown.to_text(), "a@x.com");
    shown.name = Some("A B".to_string());
    assert_eq!(shown.to_text(), "A B <a@x.com>");
}

#[test]
fn the_latest_message_comes_last() {
    let emails = vec![
        email_with(Some("2024-02-01"), None, Some("b")),
        email_with(Some("2024-03-01"), None, Some("c")),
        email_with(None, None, Some("a")),
    ];
    let sorted = in_order(&emails);
    assert_eq!(sorted.len(), emails.len());
    assert_eq!(
        sorted[sorted.len() - 1].received_at,
        latest_message(&emails).unwrap().received_at
    );
}
