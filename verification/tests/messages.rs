//! Printing, composing and watching.

use fastmail_cli::compose::{
    build_compose_params, collect_attachments, parse_addresses, Attachment,
};
use fastmail_cli::get::{get_email_fmt, GetFormat};
use fastmail_cli::models::Email;
use fastmail_cli::push::EventReader;
use fastmail_cli::text::split_list;
use fastmail_cli::thread::Rendering;
use fastmail_cli::watch::{idle_seconds, Response, Signal, Watch, MAX_BACKOFF};

fn raw(rendering: Rendering) -> String {
    match rendering {
        Rendering::Raw(text) => text,
        Rendering::Json => panic!("this is printed as text"),
    }
}

#[test]
fn formats_of_an_email() {
    assert_eq!(GetFormat::default(), GetFormat::Json);
    let mut email = Email::new("e".to_string());
    assert!(matches!(get_email_fmt(&email, GetFormat::Json), Rendering::Json));
    assert_eq!(raw(get_email_fmt(&email, GetFormat::Text)), "");
    assert_eq!(raw(get_email_fmt(&email, GetFormat::Html)), "");
    email.html_body = Some("<p>a<b>b</b> &amp; c</p>".to_string());
    assert_eq!(raw(get_email_fmt(&email, GetFormat::Text)), "ab & c");
    assert_eq!(raw(get_email_fmt(&email, GetFormat::Html)), "<p>a<b>b</b> &amp; c</p>");
    email.text_body = Some("plain".to_string());
    assert_eq!(raw(get_email_fmt(&email, GetFormat::Text)), "plain");
}

fn attachment(name: &str) -> Attachment {
    Attachment {
        filename: name.to_string(),
        content_type: "text/plain".to_string(),
        data: vec![1, 2, 3],
    }
}

#[test]
fn address_lists() {
    let list = parse_addresses(" a@x.com , ,b@y.com,");
    assert_eq!(list.len(), 2);
    assert_eq!(list[0].email, "a@x.com");
    assert_eq!(list[1].email, "b@y.com");
    assert!(list[0].name.is_none());
    assert!(parse_addresses("").is_empty());
}

#[test]
fn the_first_failed_attachment_is_reported() {
    let loads = vec![
        Ok(attachment("a")),
        Err("first".to_string()),
        Ok(attachment("b")),
        Err("second".to_string()),
    ];
    assert_eq!(collect_attachments(loads).unwrap_err(), "first");
    let loaded = collect_attachments(vec![Ok(attachment("a")), Ok(attachment("b"))]).unwrap();
    assert_eq!(loaded[0].filename, "a");
    assert_eq!(loaded[1].filename, "b");
}

#[test]
fn composing() {
    let params = build_compose_params(
        Some("a@x.com"),
        None,
        Some("me@x.com"),
        true,
        Ok(Some("<p>hi</p>".to_string())),
        vec![Ok(attachment("a"))],
    )
    .unwrap();
    assert_eq!(params.cc[0].email, "a@x.com");
    assert!(params.bcc.is_empty());
    assert_eq!(params.from, Some("me@x.com"));
    assert!(params.draft);
    assert_eq!(params.html_body.as_deref(), Some("<p>hi</p>"));
    assert_eq!(params.attachments.len(), 1);
    let failed = build_compose_params(
        None,
        None,
        None,
        false,
        Err("no html".to_string()),
        vec![Err("no file".to_string())],
    );
    assert_eq!(failed.unwrap_err(), "no html");
    let failed =
        build_compose_params(None, None, None, false, Ok(None), vec![Err("no file".to_string())]);
    assert_eq!(failed.unwrap_err(), "no file");
}

#[test]
fn silence_is_allowed_for_two_pings() {
    assert_eq!(idle_seconds(300), 630);
    assert_eq!(idle_seconds(0), 30);
    assert_eq!(idle_seconds(u32::MAX), 8_589_934_620);
}

fn wait(watch: &mut Watch) -> u64 {
    match watch.watch(Signal::Failed("lost")) {
        Response::Reconnect { notice, delay } => {
            assert_eq!(notice, format!("watch: lost; reconnecting in {delay}s"));
            delay
        }
        _ => panic!("a lost connection is made anew"),
    }
}

#[test]
fn waits_double_up_to_the_longest() {
    let mut watch = Watch::new(false);
    let waits: Vec<u64> = (0..9).map(|_| wait(&mut watch)).collect();
    assert_eq!(waits, vec![1, 2, 4, 8, 16, 32, 60, 60, 60]);
    assert_eq!(MAX_BACKOFF, 60);
}

#[test]
fn a_change_of_state_starts_the_waits_again() {
    let mut watch = Watch::new(false);
    assert_eq!(wait(&mut watch), 1);
    assert_eq!(wait(&mut watch), 2);
    match watch.watch(Signal::Event { kind: "state", data: "{}" }) {
        Response::Print { data, stop } => {
            assert_eq!(data, "{}");
            assert!(!stop);
        }
        _ => panic!("a change of state is printed"),
    }
    assert_eq!(wait(&mut watch), 1);
    assert_eq!(wait(&mut watch), 2);
    assert!(matches!(
        watch.watch(Signal::Event { kind: "ping", data: "" }),
        Response::Ignore
    ));
    assert_eq!(wait(&mut watch), 4);
}

#[test]
fn a_watch_can_stop_at_the_first_change() {
    let mut watch = Watch::new(true);
    assert!(matches!(
        watch.watch(Signal::Event { kind: "state", data: "x" }),
        Response::Print { stop: true, .. }
    ));
    assert!(matches!(watch.watch(Signal::Stopped), Response::Finish));
}

#[test]
fn lists_of_fields() {
    assert_eq!(split_list("id, subject ,,from"), vec!["id", "subject", "from"]);
    assert!(split_list(" , ").is_empty());
}

#[test]
fn events_are_put_together_from_lines() {
    let mut reader = EventReader::new();
    for line in [": comment", "event: state", "data: one", "id: 7", "data:  two"] {
        assert!(reader.line(line).is_none());
    }
    let event = reader.line("").unwrap();
    assert_eq!(event.kind, "state");
    assert_eq!(event.data, "one\ntwo");
    assert!(reader.line("event: ping").is_none());
    assert!(reader.line("").is_none());
    assert!(reader.line("data:x").is_none());
    let event = reader.line("").unwrap();
    assert_eq!((event.kind.as_str(), event.data.as_str()), ("", "x"));
}
