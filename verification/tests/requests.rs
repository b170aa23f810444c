//! CalDAV requests and replies.

use fastmail_cli::caldav::{
    calendars_in, parse_calendars_response, CalDavClient, Calendar, CALDAV_BASE, PROPFIND_BODY,
};
use fastmail_cli::error::Error;
use fastmail_cli::event::EventFields;
use fastmail_cli::http::Reply;
use fastmail_cli::percent::encode_path_segment;
use fastmail_cli::xml::{find_tag, find_text, XmlNode};
use percent_encoding::{utf8_percent_encode, AsciiSet, CONTROLS};

const PATH_SEGMENT: &AsciiSet = &CONTROLS
    .add(b' ')
    .add(b'"')
    .add(b'<')
    .add(b'>')
    .add(b'`')
    .add(b'#')
    .add(b'?')
    .add(b'{')
    .add(b'}')
    .add(b'/')
    .add(b'%');

#[test]
fn path_segments_are_encoded_like_the_set_says() {
    let mut all = String::new();
    for code in 0..0x300u32 {
        all.push(char::from_u32(code).unwrap());
    }
    all.push_str("\u{20ac}\u{1f600}");
    assert_eq!(encode_path_segment(&all), utf8_percent_encode(&all, PATH_SEGMENT).to_string());
    assert_eq!(encode_path_segment("me@example.com"), "me@example.com");
    assert_eq!(encode_path_segment("a b/c?\u{e9}"), "a%20b%2Fc%3F%C3%A9");
}

#[test]
fn every_byte_is_encoded_in_upper_case() {
    assert_eq!(percent_encoding::percent_encode_byte(0xaf), "%AF");
    assert_eq!(encode_path_segment("\u{7f}\n"), "%7F%0A");
}

fn client() -> CalDavClient {
    CalDavClient::new("me@example.com".to_string(), "SECRET-REDACTED".to_string())
}

fn reply(status: u16, status_line: &str, body: &str) -> Reply {
    Reply { status, status_line: status_line.to_string(), body: body.to_string() }
}

fn message(error: Error) -> String {
    match error {
        Error::Server(message) => message,
        Error::Config(message) => panic!("the server failed, not the request: {message}"),
    }
}

#[test]
fn the_query_for_calendars() {
    let request = client().calendar_query();
    assert_eq!(request.method, "PROPFIND");
    assert_eq!(request.url, "https://caldav.fastmail.com/dav/calendars/user/me@example.com/");
    assert_eq!(request.username, "me@example.com");
    assert_eq!(request.password, "SECRET-REDACTED");
    let headers: Vec<(&str, &str)> =
        request.headers.iter().map(|h| (h.name.as_str(), h.value.as_str())).collect();
    assert_eq!(headers, vec![("Content-Type", "application/xml"), ("Depth", "1")]);
    assert_eq!(request.body, PROPFIND_BODY);
    assert!(PROPFIND_BODY.starts_with("<?xml version=\"1.0\" encoding=\"utf-8\"?>\n<d:propfind "));
    assert!(PROPFIND_BODY.ends_with("    <d:resourcetype/>\n  </d:prop>\n</d:propfind>"));
}

const TWO_CALENDARS: &str = "<m xmlns='DAV:' xmlns:c='urn:ietf:params:xml:ns:caldav'>\
<response><href>/dav/calendars/user/me@example.com/</href><c:calendar/></response>\
<response><href>/u/x/Home/</href><c:calendar/></response>\
<response><href/><c:calendar/></response>\
<response><href>/u/y/</href></response>\
<response><href>//</href><displayname/><c:calendar/></response>\
<response><href>/u/z/</href><displayname>Z</displayname><c:calendar/></response>\
</m>";

#[test]
fn calendars_are_read_from_a_reply() {
    let calendars = client().list_calendars(&reply(207, "207 Multi-Status", TWO_CALENDARS)).unwrap();
    let found: Vec<(&str, &str)> =
        calendars.iter().map(|c| (c.href.as_str(), c.name.as_str())).collect();
    assert_eq!(found, vec![("/u/x/Home/", "Home"), ("//", "Unknown"), ("/u/z/", "Z")]);
}

#[test]
fn a_refused_query_is_reported() {
    let error = client().list_calendars(&reply(401, "401 Unauthorized", "no")).unwrap_err();
    assert_eq!(error.message(), "CalDAV PROPFIND failed: 401 Unauthorized - no");
    assert_eq!(message(error), "CalDAV PROPFIND failed: 401 Unauthorized - no");
    assert!(client().list_calendars(&reply(199, "199", "<a/>")).is_err());
    assert!(client().list_calendars(&reply(300, "300", "<a/>")).is_err());
    assert!(client().list_calendars(&reply(299, "299", "<a/>")).unwrap().is_empty());
}

#[test]
fn a_broken_document_is_reported() {
    let error = parse_calendars_response("<a>", "me").unwrap_err();
    let expected = roxmltree::Document::parse("<a>").unwrap_err().to_string();
    assert_eq!(message(error), format!("Failed to parse XML: {expected}"));
}

fn element(name: &str, text: Option<&str>, size: usize) -> XmlNode {
    XmlNode {
        namespace: Some("DAV:".to_string()),
        name: name.to_string(),
        text: text.map(|t| t.to_string()),
        size,
    }
}

#[test]
fn calendars_of_given_nodes() {
    let nodes = vec![
        element("multistatus", None, 4),
        element("response", None, 3),
        element("href", Some("/a/b"), 1),
        XmlNode {
            namespace: Some("urn:ietf:params:xml:ns:caldav".to_string()),
            name: "calendar".to_string(),
            text: None,
            size: 1,
        },
    ];
    let calendars = calendars_in(&nodes, "me");
    assert_eq!(calendars.len(), 1);
    assert_eq!((calendars[0].href.as_str(), calendars[0].name.as_str()), ("/a/b", "b"));
    assert_eq!(find_text(&nodes, 1, 4, "DAV:", "href"), Some("/a/b"));
    assert_eq!(find_text(&nodes, 3, 4, "DAV:", "href"), None);
    assert!(find_tag(&nodes, 0, 4, "DAV:", "response"));
    assert!(!find_tag(&nodes, 2, 4, "DAV:", "response"));
}

fn calendar(href: &str, name: &str) -> Calendar {
    Calendar { href: href.to_string(), name: name.to_string() }
}

#[test]
fn a_calendar_is_found_by_name() {
    let calendars = vec![calendar("/a/", "Home"), calendar("/b/", "home"), calendar("/c/", "Work")];
    assert_eq!(client().find_calendar(&calendars, "HOME").unwrap().href, "/a/");
    assert_eq!(
        message(client().find_calendar(&calendars, "Play").unwrap_err()),
        "Calendar not found: Play (available: Home, home, Work)"
    );
}

fn fields() -> EventFields<'static> {
    EventFields { title: "Dentist", start: "2026-06-20T14:00", ..Default::default() }
}

#[test]
fn an_event_is_uploaded_under_its_identifier() {
    let upload = client()
        .upload_for("U1".to_string(), "20260601T000000Z", &calendar("/cal/", "Home"), &fields())
        .unwrap();
    assert_eq!(upload.uid, "U1");
    assert_eq!(upload.request.method, "PUT");
    assert_eq!(upload.request.url, format!("{CALDAV_BASE}/cal/U1.ics"));
    let headers: Vec<(&str, &str)> =
        upload.request.headers.iter().map(|h| (h.name.as_str(), h.value.as_str())).collect();
    assert_eq!(
        headers,
        vec![("Content-Type", "text/calendar; charset=utf-8"), ("If-None-Match", "*")]
    );
    assert!(upload.request.body.contains("UID:U1\r\n"));
}

#[test]
fn fresh_identifiers_are_random_uuids() {
    let home = calendar("/cal/", "Home");
    let first = client().event_upload(&home, &fields()).unwrap();
    let second = client().event_upload(&home, &fields()).unwrap();
    assert_ne!(first.uid, second.uid);
    let parsed = uuid::Uuid::parse_str(&first.uid).unwrap();
    assert_eq!(parsed.get_version_num(), 4);
    assert_eq!(parsed.to_string(), first.uid);
    assert!(first.request.body.contains(&format!("UID:{}\r\n", first.uid)));
}

#[test]
fn a_bad_event_is_not_uploaded() {
    let bad = EventFields { title: " ", ..fields() };
    let error = client().event_upload(&calendar("/cal/", "Home"), &bad).unwrap_err();
    assert!(matches!(error, Error::Config(m) if m == "Event title must not be empty"));
}

#[test]
fn what_is_reported_of_a_created_event() {
    let home = calendar("/cal/", "Home");
    let upload =
        client().upload_for("U1".to_string(), "20260601T000000Z", &home, &fields()).unwrap();
    let created =
        client().create_event(&home, &fields(), &upload, &reply(201, "201 Created", "")).unwrap();
    assert_eq!(created.uid, "U1");
    assert_eq!(created.href, "/cal/U1.ics");
    assert_eq!(format!("{CALDAV_BASE}{}", created.href), upload.request.url);
    assert_eq!(created.calendar, "Home");
    assert_eq!(created.title, "Dentist");
    assert_eq!(created.start, "2026-06-20T14:00");
    assert!(!created.all_day);
    let error = client()
        .create_event(&home, &fields(), &upload, &reply(412, "412 Precondition Failed", "x"))
        .unwrap_err();
    assert_eq!(message(error), "CalDAV PUT failed: 412 Precondition Failed - x");
}

#[test]
fn path_segments_can_be_read_back() {
    for s in ["", "me@example.com", "a/b c%20\u{e9}\u{1f600}?#"] {
        let written = encode_path_segment(s);
        assert_eq!(percent_encoding::percent_decode_str(&written).decode_utf8().unwrap(), s);
        assert!(!written.contains(['/', '?', '#', ' ']));
    }
}

fn reply_for(href: &str) -> String {
    format!(
        "<d:multistatus xmlns:d='DAV:' xmlns:c='urn:ietf:params:xml:ns:caldav'><d:response>\
         <d:href>{href}</d:href><d:prop><d:displayname>Team</d:displayname>\
         <d:resourcetype><c:calendar/></d:resourcetype></d:prop></d:response></d:multistatus>"
    )
}

#[test]
fn only_the_collection_of_the_user_is_passed_over() {
    for href in ["/dav/calendars/user/bob/team-bob/", "/dav/calendars/user/bob/bob/"] {
        let calendars = parse_calendars_response(&reply_for(href), "bob").unwrap();
        assert_eq!(calendars.len(), 1);
        assert_eq!(calendars[0].href, href);
        assert_eq!(calendars[0].name, "Team");
    }
    let own = reply_for("/dav/calendars/user/bob/");
    assert!(parse_calendars_response(&own, "bob").unwrap().is_empty());
    for href in ["/dav/calendars/user/a b/", "/dav/calendars/user/a%20b/"] {
        assert!(parse_calendars_response(&reply_for(href), "a b").unwrap().is_empty());
    }
}

#[test]
fn the_collection_of_the_user_may_be_a_full_url() {
    for href in [
        "https://caldav.fastmail.com/dav/calendars/user/bob/",
        "HTTPS://CalDAV.fastmail.com:443/dav/calendars/user/bob/",
        "http://localhost:8080/dav/calendars/user/bob/",
    ] {
        assert!(parse_calendars_response(&reply_for(href), "bob").unwrap().is_empty());
    }
    for href in [
        "https://caldav.fastmail.com/dav/calendars/user/a b/",
        "https://caldav.fastmail.com/dav/calendars/user/a%20b/",
    ] {
        assert!(parse_calendars_response(&reply_for(href), "a b").unwrap().is_empty());
    }
    for href in [
        "https://caldav.fastmail.com/dav/calendars/user/bob/team-bob/",
        "https://caldav.fastmail.com/dav/calendars/user/bob/bob/",
        "https://caldav.fastmail.com",
    ] {
        let calendars = parse_calendars_response(&reply_for(href), "bob").unwrap();
        assert_eq!(calendars.len(), 1);
        assert_eq!(calendars[0].href, href);
    }
}
