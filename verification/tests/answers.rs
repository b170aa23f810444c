//! Whether a thread was answered.

use fastmail_cli::models::{Email, EmailAddress};
use fastmail_cli::replied::{is_from_me, replied};

fn email_from(from: Option<&str>) -> Email {
    let mut email = Email::new("e1".to_string());
    email.from = from.map(|f| vec![EmailAddress { name: None, email: f.to_string() }]);
    email
}

#[test]
fn test_is_from_me_match() {
    let e = email_from(Some("me@example.com"));
    let mine = vec!["me@example.com".to_string()];
    assert!(is_from_me(Some(&e), &mine));
}

#[test]
fn test_is_from_me_case_insensitive() {
    let e = email_from(Some("Me@Example.COM"));
    let mine = vec!["me@example.com".to_string()];
    assert!(is_from_me(Some(&e), &mine));
}

#[test]
fn test_is_from_me_no_from() {
    let e = email_from(None);
    let mine = vec!["me@example.com".to_string()];
    assert!(!is_from_me(Some(&e), &mine));
}

#[test]
fn test_is_from_me_not_me() {
    let e = email_from(Some("other@example.com"));
    let mine = vec!["me@example.com".to_string()];
    assert!(!is_from_me(Some(&e), &mine));
}

#[test]
fn test_is_from_me_empty_identities() {
    let e = email_from(Some("me@example.com"));
    let mine: Vec<String> = vec![];
    assert!(!is_from_me(Some(&e), &mine));
}

#[test]
fn test_is_from_me_none_latest() {
    let mine = vec!["me@example.com".to_string()];
    assert!(!is_from_me(None, &mine));
}

#[test]
fn addresses_are_trimmed_and_lowered() {
    let email = email_from(Some("  \u{c4}nne@Example.com"));
    assert!(is_from_me(Some(&email), &["\u{e4}nne@example.COM  ".to_string()]));
    assert!(!is_from_me(Some(&email), &["anne@example.com".to_string()]));
}

#[test]
fn the_latest_message_decides() {
    let mut mine = email_from(Some("me@example.com"));
    mine.received_at = Some("2024-01-02".to_string());
    let mut theirs = email_from(Some("you@example.com"));
    theirs.received_at = Some("2024-01-01".to_string());
    let report = replied(&[theirs, mine], vec!["ME@example.com".to_string()]);
    assert!(report.replied);
    assert_eq!(report.last_sender.unwrap().email, "me@example.com");
    assert_eq!(report.my_identities, vec!["ME@example.com".to_string()]);
    let none = replied(&[], vec![]);
    assert!(!none.replied && none.last_sender.is_none());
}
