//! Filters, keywords and bulk actions.

use fastmail_cli::bulk::{
    check_keywords, delete_bulk, delete_refusal, dry_run_report, flag_bulk, move_bulk,
    removal_refusal, resolve_destination, resolve_targets, spam_bulk, spam_refusal, Destination,
    Mutation, Plan, Selection,
};
use fastmail_cli::keywords::{compute_keyword_update, find_keyword, same_keywords};
use fastmail_cli::mailbox::{find_mailbox, Mailbox};
use fastmail_cli::models::{sender_domain_matches, Email, EmailAddress, Keyword};
use fastmail_cli::search::{
    conditions, list_emails, query_report, report_lines, resolve_filter_ids, search,
    BaseFilterArgs, EmailChanges, FilterArgs, KeywordSelectArgs, QueryResult, SearchFilter,
    SearchReport, Source, Wanted,
};

fn email(id: &str) -> Email {
    let mut email = Email::new(id.to_string());
    email.received_at = Some("2026-01-01T00:00:00Z".to_string());
    email.subject = Some("hi".to_string());
    email
}

fn email_from(id: &str, from: &str) -> Email {
    let mut email = email(id);
    email.from = Some(vec![EmailAddress { name: None, email: from.to_string() }]);
    email
}

fn keyword(name: &str, set: bool) -> Keyword {
    Keyword { name: name.to_string(), set }
}

fn strings(list: &[&str]) -> Vec<String> {
    list.iter().map(|s| s.to_string()).collect()
}

#[test]
fn test_dry_run_report_shape() {
    let targets = [email("a"), email("b")];
    let report = dry_run_report(&targets, "test".to_string());
    let emails = report.emails;
    assert_eq!(emails.len(), 2);
    assert_eq!(emails[0].id, "a");
    assert_eq!(emails[0].subject, Some("hi"));
    assert_eq!(emails[1].received_at, Some("2026-01-01T00:00:00Z"));
    assert!(emails[1].from.is_none());
    assert_eq!(report.action, "test");
    assert_eq!(report.count, 2);
}

#[test]
fn the_default_filter_is_empty() {
    assert!(SearchFilter::default().is_empty());
}

#[test]
fn every_condition_makes_a_filter() {
    let text = || Some("x".to_string());
    let filters = vec![
        SearchFilter { text: text(), ..Default::default() },
        SearchFilter { from: text(), ..Default::default() },
        SearchFilter { to: text(), ..Default::default() },
        SearchFilter { cc: text(), ..Default::default() },
        SearchFilter { bcc: text(), ..Default::default() },
        SearchFilter { subject: text(), ..Default::default() },
        SearchFilter { body: text(), ..Default::default() },
        SearchFilter { mailbox: text(), ..Default::default() },
        SearchFilter { has_attachment: true, ..Default::default() },
        SearchFilter { min_size: Some(0), ..Default::default() },
        SearchFilter { max_size: Some(0), ..Default::default() },
        SearchFilter { before: text(), ..Default::default() },
        SearchFilter { after: text(), ..Default::default() },
        SearchFilter { unread: true, ..Default::default() },
        SearchFilter { flagged: true, ..Default::default() },
        SearchFilter { from_domain: text(), ..Default::default() },
        SearchFilter { keyword: strings(&["k"]), ..Default::default() },
        SearchFilter { not_keyword: strings(&["k"]), ..Default::default() },
    ];
    for filter in filters {
        assert!(!filter.is_empty());
        assert!(!filter.clone().is_empty());
    }
}

#[test]
fn flags_become_a_filter() {
    let base = BaseFilterArgs {
        text: Some("text".to_string()),
        from: Some("from".to_string()),
        from_domain: Some("domain".to_string()),
        to: Some("to".to_string()),
        cc: Some("cc".to_string()),
        bcc: Some("bcc".to_string()),
        subject: Some("subject".to_string()),
        body: Some("body".to_string()),
        mailbox: Some("mailbox".to_string()),
        has_attachment: true,
        min_size: Some(1),
        max_size: Some(2),
        before: Some("before".to_string()),
        after: Some("after".to_string()),
        unread: true,
        flagged: false,
    };
    let keywords = KeywordSelectArgs { keyword: strings(&["k"]), not_keyword: strings(&["n"]) };
    let filter = SearchFilter::from(FilterArgs { base, keywords });
    assert_eq!(filter.text.as_deref(), Some("text"));
    assert_eq!(filter.from.as_deref(), Some("from"));
    assert_eq!(filter.from_domain.as_deref(), Some("domain"));
    assert_eq!(filter.to.as_deref(), Some("to"));
    assert_eq!(filter.cc.as_deref(), Some("cc"));
    assert_eq!(filter.bcc.as_deref(), Some("bcc"));
    assert_eq!(filter.subject.as_deref(), Some("subject"));
    assert_eq!(filter.body.as_deref(), Some("body"));
    assert_eq!(filter.mailbox.as_deref(), Some("mailbox"));
    assert!(filter.has_attachment && filter.unread && !filter.flagged);
    assert_eq!((filter.min_size, filter.max_size), (Some(1), Some(2)));
    assert_eq!(filter.before.as_deref(), Some("before"));
    assert_eq!(filter.after.as_deref(), Some("after"));
    assert_eq!(filter.keyword, strings(&["k"]));
    assert_eq!(filter.not_keyword, strings(&["n"]));
    let none = KeywordSelectArgs::default();
    assert!(none.keyword.is_empty() && none.not_keyword.is_empty());
}

#[test]
fn a_subdomain_is_another_domain() {
    assert!(sender_domain_matches(&email_from("a", "x@Example.com"), "example.COM"));
    assert!(!sender_domain_matches(&email_from("a", "x@mail.example.com"), "example.com"));
    assert!(!sender_domain_matches(&email_from("a", "example.com"), "example.com"));
    assert!(sender_domain_matches(&email_from("a", "\"odd@name\"@example.com"), "example.com"));
    assert!(!sender_domain_matches(&email("a"), "example.com"));
}

#[test]
fn answers_are_filtered_by_domain() {
    let all = || {
        vec![
            email_from("1", "a@x.com"),
            email_from("2", "a@y.com"),
            email_from("3", "b@x.com"),
            email_from("4", "b@sub.x.com"),
        ]
    };
    let filter = SearchFilter { from_domain: Some("x.com".to_string()), ..Default::default() };
    let ids = |emails: &Vec<Email>| emails.iter().map(|e| e.id.clone()).collect::<Vec<_>>();
    let kept = resolve_filter_ids(all(), &filter);
    assert_eq!(ids(&kept), strings(&["1", "3"]));
    let again = resolve_filter_ids(kept, &filter);
    assert_eq!(ids(&again), strings(&["1", "3"]));
    let unfiltered = resolve_filter_ids(all(), &SearchFilter::default());
    assert_eq!(ids(&unfiltered), strings(&["1", "2", "3", "4"]));
}

#[test]
fn how_a_search_goes() {
    let filter = SearchFilter { mailbox: Some("Inbox".to_string()), ..Default::default() };
    let plan = search(&filter, 5, 10, None);
    assert_eq!(plan.mailbox, Some("Inbox"));
    assert!(matches!(plan.source, Source::Query { limit: 5, offset: 10 }));
    let open = SearchFilter::default();
    let plan = search(&open, 5, 10, Some("s1"));
    assert_eq!(plan.mailbox, None);
    assert!(matches!(plan.source, Source::Changes("s1")));
}

#[test]
fn what_a_search_reports() {
    let result = || QueryResult {
        emails: vec![email_from("1", "a@x.com"), email_from("2", "a@y.com")],
        state: "q1".to_string(),
        total: Some(9),
        position: 3,
    };
    let filter = SearchFilter { from_domain: Some("y.com".to_string()), ..Default::default() };
    let report = query_report(result(), &filter, "s1".to_string());
    assert_eq!(report_lines(&report).len(), 1);
    match report {
        SearchReport::Matches { state, result } => {
            assert_eq!(state, "s1");
            assert_eq!(result.state, "q1");
            assert_eq!((result.total, result.position), (Some(9), 3));
            assert_eq!(result.emails[0].id, "2");
        }
        SearchReport::Changes(_) => panic!("a query finds matches"),
    }
    assert_eq!(report_lines(&list_emails(result(), "s1".to_string())).len(), 2);
    let changes = SearchReport::Changes(EmailChanges {
        new_state: "s2".to_string(),
        created: vec![email("c1"), email("c2")],
        updated: vec![email("u1")],
        destroyed: strings(&["d1"]),
    });
    let ids: Vec<&str> = report_lines(&changes).iter().map(|e| e.id.as_str()).collect();
    assert_eq!(ids, vec!["c1", "c2", "u1"]);
}

#[test]
fn identifiers_win_over_a_filter() {
    let filter = SearchFilter { unread: true, ..Default::default() };
    match resolve_targets(strings(&["a", "b"]), &filter, 50).unwrap() {
        Selection::Ids(ids) => assert_eq!(ids, strings(&["a", "b"])),
        Selection::Filter { .. } => panic!("identifiers were given"),
    }
    assert!(matches!(
        resolve_targets(vec![], &filter, 50).unwrap(),
        Selection::Filter { limit: 50 }
    ));
    assert_eq!(
        resolve_targets(vec![], &SearchFilter::default(), 50).unwrap_err(),
        "Provide either email id(s) or a search filter to select targets"
    );
}

fn preview(plan: Plan<'_>) -> (String, usize) {
    match plan {
        Plan::Preview(report) => (report.action, report.count),
        Plan::Apply { .. } => panic!("a dry run changes nothing"),
    }
}

fn apply(plan: Plan<'_>) -> (Mutation, String) {
    match plan {
        Plan::Preview(_) => panic!("this is no dry run"),
        Plan::Apply { mutation, message } => (mutation, message),
    }
}

#[test]
fn deleting() {
    let targets = [email("a"), email("b")];
    assert_eq!(preview(delete_bulk(&targets, true, true)), ("permanently destroy".to_string(), 2));
    assert_eq!(preview(delete_bulk(&targets, false, true)), ("move to Trash".to_string(), 2));
    let (mutation, message) = apply(delete_bulk(&targets, true, false));
    assert!(matches!(mutation, Mutation::Destroy(ids) if ids == strings(&["a", "b"])));
    assert_eq!(message, "Permanently destroyed 2 email(s)");
    let (mutation, message) = apply(delete_bulk(&targets, false, false));
    assert!(matches!(mutation, Mutation::Trash(ids) if ids == strings(&["a", "b"])));
    assert_eq!(message, "Moved 2 email(s) to Trash");
}

#[test]
fn marking_as_spam() {
    let targets = [email("a")];
    assert_eq!(preview(spam_bulk(&targets, true)), ("mark as spam (move to Junk)".to_string(), 1));
    let (mutation, message) = apply(spam_bulk(&targets, false));
    assert!(matches!(mutation, Mutation::Junk(ids) if ids == strings(&["a"])));
    assert_eq!(message, "Marked 1 email(s) as spam");
}

#[test]
fn moving() {
    let targets = [email("a"), email("b")];
    assert_eq!(preview(move_bulk(&targets, "M9", true)), ("move to mailbox M9".to_string(), 2));
    let (mutation, message) = apply(move_bulk(&targets, "M9", false));
    assert!(matches!(
        mutation,
        Mutation::Move { ids, to } if ids == strings(&["a", "b"]) && to == "M9"
    ));
    assert_eq!(message, "Moved 2 email(s) to M9");
}

#[test]
fn destinations() {
    let name = || Some("Archive".to_string());
    let id = || Some("M1".to_string());
    assert!(matches!(resolve_destination(name(), id()), Ok(Destination::Id(i)) if i == "M1"));
    assert!(matches!(resolve_destination(None, id()), Ok(Destination::Id(i)) if i == "M1"));
    assert!(matches!(resolve_destination(name(), None), Ok(Destination::Name(n)) if n == "Archive"));
    assert_eq!(
        resolve_destination(None, None).unwrap_err(),
        "Specify a destination with --to <name> or --to-id <id>"
    );
}

#[test]
fn keywords_are_added_and_removed() {
    let current = vec![keyword("$seen", true), keyword("work", true)];
    let added = compute_keyword_update(&current, &strings(&["$flagged", "$seen"]), false);
    assert_eq!(find_keyword(&added, "$flagged"), Some(true));
    assert_eq!(find_keyword(&added, "$seen"), Some(true));
    assert_eq!(find_keyword(&added, "work"), Some(true));
    let removed = compute_keyword_update(&added, &strings(&["$flagged"]), true);
    assert_eq!(find_keyword(&removed, "$flagged"), None);
    assert!(same_keywords(&removed, &current));
    assert!(!same_keywords(&added, &current));
}

#[test]
fn a_keyword_that_is_off_is_set() {
    let current = vec![keyword("$seen", false)];
    let added = compute_keyword_update(&current, &strings(&["$seen"]), false);
    assert_eq!(find_keyword(&added, "$seen"), Some(true));
    assert!(!same_keywords(&added, &current));
    assert!(!same_keywords(&current, &vec![]));
}

#[test]
fn flagging_twice_changes_nothing() {
    let mut flagged = email("a");
    flagged.keywords = vec![keyword("work", true)];
    let targets = [email("b"), flagged];
    let names = strings(&["work"]);
    let (mutation, message) = apply(flag_bulk(&targets, &names, false, false).unwrap());
    assert_eq!(message, "Added keyword(s) on 1 email(s) (1 unchanged)");
    match mutation {
        Mutation::Keywords(updates) => {
            assert_eq!(updates.len(), 1);
            assert_eq!(updates[0].id, "b");
            assert_eq!(find_keyword(&updates[0].keywords, "work"), Some(true));
            let mut after = email("b");
            after.keywords = compute_keyword_update(&vec![], &names, false);
            let targets = [after];
            let (_, message) = apply(flag_bulk(&targets, &names, false, false).unwrap());
            assert_eq!(message, "Added keyword(s) on 0 email(s) (1 unchanged)");
        }
        _ => panic!("flagging sets keywords"),
    }
    let (_, message) = apply(flag_bulk(&targets, &names, true, false).unwrap());
    assert_eq!(message, "Removed keyword(s) on 1 email(s) (1 unchanged)");
}

#[test]
fn a_dry_run_of_flagging() {
    let targets = [email("a")];
    let names = strings(&["x", "y"]);
    assert_eq!(
        preview(flag_bulk(&targets, &names, false, true).unwrap()),
        ("add keyword(s): x, y".to_string(), 1)
    );
    assert_eq!(
        preview(flag_bulk(&targets, &names, true, true).unwrap()),
        ("remove keyword(s): x, y".to_string(), 1)
    );
    assert_eq!(
        flag_bulk(&targets, &vec![], true, true).unwrap_err(),
        "Specify at least one --keyword to add or remove"
    );
    assert!(check_keywords(&vec![]).is_err());
    assert!(check_keywords(&names).is_ok());
}

#[test]
fn confirmation() {
    assert_eq!(
        spam_refusal(false, false).as_deref(),
        Some("Mark email(s) as spam? Use -y to confirm (or --dry-run to preview).")
    );
    assert_eq!(spam_refusal(true, false), None);
    assert_eq!(spam_refusal(false, true), None);
    assert_eq!(
        delete_refusal(false, false, false).as_deref(),
        Some("Delete email(s)? Use -y to confirm (or --dry-run to preview).")
    );
    assert_eq!(
        delete_refusal(true, false, false).as_deref(),
        Some(
            "Delete email(s)? Use -y to confirm (or --dry-run to preview). (--hard is irreversible)"
        )
    );
    assert_eq!(delete_refusal(true, true, false), None);
    assert_eq!(
        removal_refusal("mailbox", "M1", false).as_deref(),
        Some("Delete mailbox M1? Use -y to confirm.")
    );
    assert_eq!(removal_refusal("mailbox", "M1", true), None);
}

fn asked(filter: &SearchFilter, mailbox: Option<&str>) -> Vec<String> {
    conditions(filter, mailbox)
        .iter()
        .map(|c| match c.wanted {
            Wanted::Text(text) => format!("{}={text}", c.name),
            Wanted::Number(n) => format!("{}={n}", c.name),
            Wanted::Yes => c.name.to_string(),
        })
        .collect()
}

#[test]
fn conditions_of_a_query() {
    assert!(asked(&SearchFilter::default(), None).is_empty());
    let text = |s: &str| Some(s.to_string());
    let filter = SearchFilter {
        text: text("1"),
        from: text("2"),
        to: text("3"),
        cc: text("4"),
        bcc: text("5"),
        subject: text("6"),
        body: text("7"),
        mailbox: text("Inbox"),
        has_attachment: true,
        min_size: Some(8),
        max_size: Some(9),
        before: text("10"),
        after: text("11"),
        unread: true,
        flagged: true,
        from_domain: text("x.com"),
        keyword: strings(&["a", "b"]),
        not_keyword: strings(&["c"]),
    };
    assert_eq!(
        asked(&filter, Some("M1")),
        strings(&[
            "text=1",
            "from=2",
            "to=3",
            "cc=4",
            "bcc=5",
            "subject=6",
            "body=7",
            "inMailbox=M1",
            "hasAttachment",
            "minSize=8",
            "maxSize=9",
            "before=10",
            "after=11",
            "notKeyword=$seen",
            "hasKeyword=$flagged",
            "hasKeyword=a",
            "hasKeyword=b",
            "notKeyword=c",
        ])
    );
}

#[test]
fn mailboxes_are_found_by_name_or_role() {
    let mailbox = |id: &str, name: &str, role: Option<&str>| Mailbox {
        id: id.to_string(),
        name: name.to_string(),
        role: role.map(|r| r.to_string()),
    };
    let mailboxes = [
        mailbox("1", "Spam", Some("junk")),
        mailbox("2", "Junk", None),
        mailbox("3", "Bin", Some("trash")),
        mailbox("4", "Other", Some("TRASH")),
    ];
    assert_eq!(find_mailbox(&mailboxes, "junk").unwrap().id, "2");
    assert_eq!(find_mailbox(&mailboxes, "Trash").unwrap().id, "3");
    assert_eq!(find_mailbox(&mailboxes, "other").unwrap().id, "4");
    assert!(find_mailbox(&mailboxes, "inbox").is_none());
}

#[test]
fn no_keyword_is_listed_twice() {
    let count = |keywords: &Vec<Keyword>, name: &str| {
        keywords.iter().filter(|k| k.name == name).count()
    };
    let current = vec![keyword("a", true), keyword("b", false), keyword("b", true)];
    let added = compute_keyword_update(&current, &strings(&["c", "a", "c"]), false);
    assert_eq!((count(&added, "a"), count(&added, "b"), count(&added, "c")), (1, 1, 1));
    assert_eq!(find_keyword(&added, "b"), Some(false));
    let removed = compute_keyword_update(&current, &strings(&["a"]), true);
    assert_eq!((count(&removed, "a"), count(&removed, "b")), (0, 1));
}
