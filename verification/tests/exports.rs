//! Saving raw messages as files.

use fastmail_cli::export::{
    eml_filename, export_email, raw_blob, resolve_output_path, sanitize_filename, ExportFormat,
};
use fastmail_cli::models::Email;
use std::path::PathBuf;

fn email(id: &str, received_at: Option<&str>, subject: Option<&str>) -> Email {
    let mut email = Email::new(id.to_string());
    email.received_at = received_at.map(|r| r.to_string());
    email.subject = subject.map(|s| s.to_string());
    email
}

#[test]
fn test_eml_filename_full() {
    let e = email(
        "M123",
        Some("2026-01-15T10:30:00Z"),
        Some("Quarterly report"),
    );
    assert_eq!(eml_filename(&e), "2026-01-15-Quarterly report-M123.eml");
}

#[test]
fn test_eml_filename_subject_with_separators_kept_whole() {
    let e = email(
        "M1",
        Some("2026-01-15T10:30:00Z"),
        Some("Report: alpha/beta"),
    );
    // Without folding, sanitize_filename would keep only "beta".
    assert_eq!(eml_filename(&e), "2026-01-15-Report: alpha-beta-M1.eml");
}

#[test]
fn test_eml_filename_no_subject() {
    let e = email("M9", Some("2025-12-31T23:59:59Z"), None);
    assert_eq!(eml_filename(&e), "2025-12-31-M9.eml");
}

#[test]
fn test_eml_filename_no_date_no_subject() {
    let e = email("Mxyz", None, None);
    assert_eq!(eml_filename(&e), "Mxyz.eml");
}

#[test]
fn test_eml_filename_control_chars_stripped() {
    let e = email("M2", Some("2026-02-02T00:00:00Z"), Some("bad\u{0}name"));
    assert_eq!(eml_filename(&e), "2026-02-02-badname-M2.eml");
}

#[test]
fn test_resolve_output_path_default_cwd() {
    assert_eq!(PathBuf::from(resolve_output_path(None, false, "a.eml")), PathBuf::from("a.eml"));
}

#[test]
fn test_resolve_output_path_trailing_slash_is_dir() {
    assert_eq!(
        PathBuf::from(resolve_output_path(Some("archive/"), false, "a.eml")),
        PathBuf::from("archive/a.eml")
    );
}

#[test]
fn test_resolve_output_path_existing_dir_is_dir() {
    let dir = PathBuf::from("/tmp/archive");
    let p = dir.to_str().unwrap().to_string();
    assert_eq!(
        PathBuf::from(resolve_output_path(Some(&p), true, "a.eml")),
        dir.join("a.eml")
    );
}

#[test]
fn test_resolve_output_path_explicit_file() {
    assert_eq!(
        PathBuf::from(resolve_output_path(Some("out/message.eml"), false, "ignored.eml")),
        PathBuf::from("out/message.eml")
    );
}

#[test]
fn names_are_reduced_to_one_component() {
    assert_eq!(sanitize_filename("a/b\\c", "x"), "c");
    assert_eq!(sanitize_filename("a\u{1}b\u{7f}c\u{85}d", "x"), "abcd");
    assert_eq!(sanitize_filename("dir/", "x"), "x");
    assert_eq!(sanitize_filename("", "x"), "x");
    assert_eq!(sanitize_filename("a/..", "x"), "x");
    assert_eq!(sanitize_filename(".", "x"), "x");
    assert_eq!(sanitize_filename("...", "x"), "...");
}

#[test]
fn the_subject_is_trimmed_and_left_out_when_empty() {
    assert_eq!(eml_filename(&email("M1", Some("2026-01-15"), Some("   "))), "2026-01-15-M1.eml");
    assert_eq!(eml_filename(&email("M1", None, Some(" a\\b "))), "a-b-M1.eml");
}

#[test]
fn a_file_name_is_safe() {
    let name = eml_filename(&email("M/1", Some("2026/01/15T"), Some("..\u{0}/\\x")));
    assert_eq!(name, "1.eml");
    assert!(!name.contains(['/', '\\', '\u{0}']));
}

#[test]
fn paths_below_a_directory() {
    assert_eq!(resolve_output_path(Some("dir"), true, "a"), "dir/a");
    assert_eq!(resolve_output_path(Some("dir/"), true, "a"), "dir/a");
    assert_eq!(resolve_output_path(Some("dir"), true, "/a"), "/a");
    assert_eq!(resolve_output_path(Some(""), false, "a"), "");
    for (dir, name) in [("dir", "a"), ("dir/", "a"), ("dir", "/a"), ("/", "a")] {
        assert_eq!(
            PathBuf::from(resolve_output_path(Some(dir), true, name)),
            PathBuf::from(dir).join(name)
        );
    }
}

#[test]
fn an_email_without_a_blob_is_not_exported() {
    let mut exported = email("M1", None, None);
    assert_eq!(
        raw_blob("M1", &exported).unwrap_err(),
        "email M1 has no blobId; cannot export the raw message"
    );
    exported.blob_id = Some("B1".to_string());
    assert_eq!(raw_blob("M1", &exported).unwrap(), "B1");
}

#[test]
fn what_is_reported_of_an_export() {
    assert_eq!(ExportFormat::default(), ExportFormat::Eml);
    let exported = email("M1", Some("2026-01-15T10:30:00Z"), Some("Hi"));
    let report = export_email(&exported, 7, Some("out/"), false, ExportFormat::Eml);
    assert_eq!(report.path, "out/2026-01-15-Hi-M1.eml");
    assert_eq!(report.bytes, 7);
    assert_eq!(report.id, "M1");
    assert_eq!(report.subject.as_deref(), Some("Hi"));
}

#[test]
fn a_sanitized_name_stays() {
    for name in ["a/b", "x\u{7}y", "plain.txt", "C:\\dir\\file"] {
        let once = sanitize_filename(name, "f");
        assert_eq!(sanitize_filename(&once, "g"), once);
    }
}
