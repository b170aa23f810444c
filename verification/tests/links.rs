//! Hyperlinks in emails.

use fastmail_cli::html::Element;
use fastmail_cli::links::{
    extract_email_links, extract_links, extract_links_from_text, find_redirect_target, links_of,
    looks_like_http_url, normalize_ws, untrack, unwrap_once, Link, Parameter,
};
use fastmail_cli::models::Email;

#[test]
fn test_untrack_plain_url_passthrough() {
    let url = "https://example.com/article?id=42&ref=home";
    assert_eq!(untrack(url), url);
}

#[test]
fn test_untrack_generic_url_param_encoded() {
    let wrapped =
        "https://r.example.com/redirect?url=https%3A%2F%2Freal.example.org%2Fpost%2F1";
    assert_eq!(untrack(wrapped), "https://real.example.org/post/1");
}

#[test]
fn test_untrack_generic_url_param_plain() {
    let wrapped = "https://r.example.com/redirect?url=https://real.example.org/x";
    assert_eq!(untrack(wrapped), "https://real.example.org/x");
}

#[test]
fn test_untrack_short_u_param() {
    let wrapped = "https://t.co/go?u=https%3A%2F%2Fdest.example.com%2Fpage";
    assert_eq!(untrack(wrapped), "https://dest.example.com/page");
}

#[test]
fn test_untrack_mailchimp_list_manage() {
    // Mailchimp wraps the destination in a tracking host; opaque-named param.
    let wrapped = "https://example.us1.list-manage.com/track/click?e=abc&id=def&u=https%3A%2F%2Fwww.target.com%2Fblog";
    assert_eq!(untrack(wrapped), "https://www.target.com/blog");
}

#[test]
fn test_untrack_sendgrid_tracker_host_opaque_param() {
    // SendGrid often uses opaque param names but a recognizable host.
    let wrapped = "https://u123.ct.sendgrid.net/wf/click?upn=https%3A%2F%2Fnews.site.com%2Fa";
    assert_eq!(untrack(wrapped), "https://news.site.com/a");
}

#[test]
fn test_untrack_redirect_param_name() {
    let wrapped = "https://click.foo.com/c?redirect=https%3A%2F%2Fbar.com%2Fz";
    assert_eq!(untrack(wrapped), "https://bar.com/z");
}

#[test]
fn test_untrack_target_param_name() {
    let wrapped = "https://links.foo.com/c?target=https%3A%2F%2Fbar.com%2Ft";
    assert_eq!(untrack(wrapped), "https://bar.com/t");
}

#[test]
fn test_untrack_no_inner_url_passthrough() {
    // Tracker host but no embedded URL: leave it alone.
    let url = "https://click.foo.com/c?e=abc&id=123";
    assert_eq!(untrack(url), url);
}

#[test]
fn test_untrack_non_url_input_passthrough() {
    assert_eq!(untrack("not a url"), "not a url");
    assert_eq!(untrack("/relative/path"), "/relative/path");
}

#[test]
fn test_untrack_nested_redirect() {
    // Outer wraps an inner wrapper; unwrap both layers.
    let inner = "https://r.example.com/redirect?url=https%3A%2F%2Ffinal.example.org%2Fp";
    let encoded_inner = "https%3A%2F%2Fr.example.com%2Fredirect%3Furl%3Dhttps%253A%252F%252Ffinal.example.org%252Fp";
    let outer = format!("https://click.foo.com/c?url={encoded_inner}");
    assert_eq!(untrack(&outer), "https://final.example.org/p");
    // sanity: the inner alone unwraps to the final too
    assert_eq!(untrack(inner), "https://final.example.org/p");
}

#[test]
fn test_extract_links_basic() {
    let html = r#"<html><body>
            <a href="https://example.com/a">First</a>
            <a href="https://example.com/b">Second</a>
        </body></html>"#;
    let links = extract_links(html);
    assert_eq!(links.len(), 2);
    assert_eq!(links[0].text, "First");
    assert_eq!(links[0].url, "https://example.com/a");
    assert_eq!(links[1].text, "Second");
}

#[test]
fn test_extract_links_untracks() {
    let html = r#"<a href="https://example.us1.list-manage.com/track/click?u=https%3A%2F%2Fwww.target.com%2Fblog">Read more</a>"#;
    let links = extract_links(html);
    assert_eq!(links.len(), 1);
    assert_eq!(links[0].text, "Read more");
    assert_eq!(links[0].url, "https://www.target.com/blog");
}

#[test]
fn test_extract_links_dedupes() {
    let html = r#"
            <a href="https://example.com/x">Same</a>
            <a href="https://example.com/x">Same</a>
        "#;
    let links = extract_links(html);
    assert_eq!(links.len(), 1);
}

#[test]
fn test_extract_links_skips_anchors_and_mailto() {
    let html = r##"
            <a href="#section">Jump</a>
            <a href="mailto:foo@example.com">Email</a>
            <a href="https://example.com/real">Real</a>
        "##;
    let links = extract_links(html);
    assert_eq!(links.len(), 1);
    assert_eq!(links[0].url, "https://example.com/real");
}

#[test]
fn test_extract_links_normalizes_whitespace() {
    let html = "<a href=\"https://example.com\">  Click\n   here  </a>";
    let links = extract_links(html);
    assert_eq!(links[0].text, "Click here");
}

#[test]
fn test_extract_links_empty_html() {
    assert!(extract_links("<p>no links here</p>").is_empty());
}

#[test]
fn test_extract_links_from_text() {
    let text = "Check https://example.com/a and also https://example.com/b.";
    let links = extract_links_from_text(text);
    assert_eq!(links.len(), 2);
    assert_eq!(links[0].url, "https://example.com/a");
    assert_eq!(links[1].url, "https://example.com/b");
}

#[test]
fn test_extract_links_from_text_untracks() {
    let text = "Visit https://click.foo.com/c?url=https%3A%2F%2Freal.com%2Fx now";
    let links = extract_links_from_text(text);
    assert_eq!(links.len(), 1);
    assert_eq!(links[0].url, "https://real.com/x");
}

#[test]
fn test_extract_links_from_text_dedupes() {
    let text = "https://example.com/x https://example.com/x";
    let links = extract_links_from_text(text);
    assert_eq!(links.len(), 1);
}

fn parameter(name: &str, value: &str) -> Parameter {
    Parameter { name: name.to_string(), value: value.to_string() }
}

fn link(text: &str, url: &str) -> Link {
    Link { text: text.to_string(), url: url.to_string() }
}

#[test]
fn web_urls_are_told_by_their_scheme() {
    assert!(looks_like_http_url("http://a.example"));
    assert!(looks_like_http_url("  HTTPS://A.example"));
    assert!(!looks_like_http_url("ftp://a.example"));
    assert!(!looks_like_http_url("https:/a.example"));
    assert!(!looks_like_http_url(""));
}

#[test]
fn a_redirect_parameter_wins_over_others() {
    let query = vec![
        parameter("upn", "https://first.example"),
        parameter("url", "https://second.example"),
    ];
    assert_eq!(
        find_redirect_target("click.example.com", &query).as_deref(),
        Some("https://second.example")
    );
}

#[test]
fn any_parameter_counts_on_a_tracker_only() {
    let query = vec![parameter("upn", "https://first.example")];
    assert_eq!(
        find_redirect_target("mail.mailgun.org", &query).as_deref(),
        Some("https://first.example")
    );
    assert_eq!(find_redirect_target("www.example.org", &query), None);
}

#[test]
fn every_redirect_name_is_known() {
    for name in ["url", "u", "redirect", "target", "destination", "dest", "link", "out", "to"] {
        let query = vec![parameter(name, "http://x.example")];
        assert_eq!(find_redirect_target("a.example", &query).as_deref(), Some("http://x.example"));
    }
    let query = vec![parameter("goto", "http://x.example")];
    assert_eq!(find_redirect_target("a.example", &query), None);
}

#[test]
fn every_tracker_hint_is_known() {
    for host in [
        "click.a.example",
        "email.a.example",
        "links.a.example",
        "link.a.example",
        "a.list-manage.com",
        "a.sendgrid.net",
        "mailchimp.example",
        "e.customeriomail.com",
        "sparkpostmail.com",
        "mandrillapp.com",
        "mailgun.example",
        "cmail20.com",
        "d.hubspotlinks.com",
        "clicks.a.example",
    ] {
        let query = vec![parameter("x", "http://x.example")];
        assert_eq!(find_redirect_target(host, &query).as_deref(), Some("http://x.example"));
    }
}

#[test]
fn names_and_hosts_count_without_regard_to_case() {
    assert_eq!(
        unwrap_once("https://a.example/?URL=https%3A%2F%2Fb.example").as_deref(),
        Some("https://b.example")
    );
    assert_eq!(
        unwrap_once("https://CLICK.a.example/?q=https%3A%2F%2Fb.example").as_deref(),
        Some("https://b.example")
    );
    assert_eq!(unwrap_once("mailto:a@b.example"), None);
}

#[test]
fn at_most_three_layers_are_stripped() {
    let url = "https://a.example/?u=https%3A%2F%2Fb.example%2F%3Fu%3Dhttps%253A%252F%252Fc.example%252F%253Fu%253Dhttps%25253A%25252F%25252Fd.example%25252F%25253Fu%25253Dhttps%2525253A%2525252F%2525252Fe.example";
    assert_eq!(untrack(url), "https://d.example/?u=https%3A%2F%2Fe.example");
}

#[test]
fn a_url_that_wraps_itself_stays() {
    let url = "https://a.example/";
    assert_eq!(untrack(url), url);
}

#[test]
fn links_of_given_anchors() {
    let anchor = |value: Option<&str>, text: &str| Element {
        value: value.map(|v| v.to_string()),
        text: text.to_string(),
    };
    let anchors = vec![
        anchor(Some("  https://a.example/x "), " one\n two "),
        anchor(Some("https://a.example/x"), "one two"),
        anchor(Some("https://a.example/x"), "other"),
        anchor(Some("   "), "empty"),
        anchor(Some("#top"), "top"),
        anchor(Some("mailto:a@b"), "mail"),
        anchor(Some("tel:123"), "call"),
        anchor(Some("javascript:void(0)"), "run"),
        anchor(None, "nothing"),
        anchor(Some("/relative"), "here"),
    ];
    assert_eq!(
        links_of(&anchors),
        vec![
            link("one two", "https://a.example/x"),
            link("other", "https://a.example/x"),
            link("here", "/relative"),
        ]
    );
}

#[test]
fn white_space_is_collapsed() {
    assert_eq!(normalize_ws("  a \t\n b\u{a0}c "), "a b c");
    assert_eq!(normalize_ws("   "), "");
}

#[test]
fn bare_links_end_before_punctuation() {
    let links = extract_links_from_text("(see <https://a.example/x>), \"http://b.example\"!; done");
    assert_eq!(
        links,
        vec![link("https://a.example/x", "https://a.example/x"), link("http://b.example", "http://b.example")]
    );
}

#[test]
fn html_wins_over_text() {
    let mut email = Email::new("e".to_string());
    assert_eq!(extract_email_links(&email), vec![]);
    email.text_body = Some("https://text.example".to_string());
    assert_eq!(
        extract_email_links(&email),
        vec![link("https://text.example", "https://text.example")]
    );
    email.html_body = Some("<a href='https://html.example/'>x</a>".to_string());
    assert_eq!(extract_email_links(&email), vec![link("x", "https://html.example/")]);
}

#[test]
fn layers_can_be_stripped_one_by_one() {
    let url = "https://click.a.example/?x=https%3A%2F%2Fb.example%2F%3Fu%3Dhttp%253A%252F%252Fc.example";
    let inner = unwrap_once(url).unwrap();
    assert_eq!(inner, "https://b.example/?u=http%3A%2F%2Fc.example");
    assert_eq!(unwrap_once(&inner).as_deref(), Some("http://c.example"));
    assert_eq!(unwrap_once("http://c.example"), None);
    assert_eq!(untrack(url), "http://c.example");
}
