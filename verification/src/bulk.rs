//! Bulk actions: what they act on, what they would do and what they do.
//!
//! Every bulk action takes explicit identifiers or a filter that resolves them.
//! A dry run shows the emails and the action, and changes nothing.

use crate::decimal;
use crate::keywords;
use crate::keywords::{compute_keyword_update, same_keywords};
use crate::models::{borrow_text, Email, EmailAddress, Keyword};
use crate::search;
use crate::search::SearchFilter;
use crate::text;
use vstd::prelude::*;
use vstd::string::*;

verus! {

/// What a bulk action acts on.
#[derive(Debug)]
pub enum Selection {
    /// The emails of these identifiers, in this order.
    Ids(Vec<String>),
    /// The emails that the filter finds, up to a limit.
    Filter {
        /// The most emails to act on.
        limit: u32,
    },
}

/// What a bulk action acts on. Explicit identifiers win over a filter; with
/// neither there is nothing to act on.
pub fn resolve_targets(ids: Vec<String>, filter: &SearchFilter, limit: u32) -> (r: Result<
    Selection,
    String,
>)
    ensures
        ids@.len() > 0 ==> r == Ok::<Selection, String>(Selection::Ids(ids)),
        ids@.len() == 0 && !search::unconditional(*filter) ==> r == Ok::<Selection, String>(
            Selection::Filter { limit },
        ),
        ids@.len() == 0 && search::unconditional(*filter) ==> (r matches Err(message) && message@
            == "Provide either email id(s) or a search filter to select targets"@),
{
    if ids.len() > 0 {
        Ok(Selection::Ids(ids))
    } else if !filter.is_empty() {
        Ok(Selection::Filter { limit })
    } else {
        Err("Provide either email id(s) or a search filter to select targets".to_owned())
    }
}

/// What a dry run shows of an email.
#[derive(Debug)]
pub struct DryRunEmail<'a> {
    /// Its identifier.
    pub id: &'a str,
    /// Its subject.
    pub subject: Option<&'a str>,
    /// The addresses of its From header.
    pub from: &'a Option<Vec<EmailAddress>>,
    /// When it was received.
    pub received_at: Option<&'a str>,
}

/// Whether that is what a dry run shows of the email.
pub open spec fn shows(shown: DryRunEmail, email: Email) -> bool {
    &&& shown.id@ == email.id@
    &&& text::opt_str(shown.subject) == text::opt_text(email.subject)
    &&& *shown.from == email.from
    &&& text::opt_str(shown.received_at) == text::opt_text(email.received_at)
}

/// What a dry run shows.
#[derive(Debug)]
pub struct DryRun<'a> {
    /// What would be done.
    pub action: String,
    /// To how many emails.
    pub count: usize,
    /// To which.
    pub emails: Vec<DryRunEmail<'a>>,
}

/// Whether that is what a dry run of the action on the emails shows.
pub open spec fn is_preview(report: DryRun, targets: Seq<Email>, action: Seq<char>) -> bool {
    &&& report.action@ == action
    &&& report.count == targets.len()
    &&& report.emails@.len() == targets.len()
    &&& forall|i: int|
        0 <= i < targets.len() ==> shows(#[trigger] report.emails@[i], targets[i])
}

/// What a dry run of the action on the emails shows: the emails that would be
/// affected, each with identifier, subject, sender and date.
pub fn dry_run_report<'a>(targets: &'a [Email], action: String) -> (r: DryRun<'a>)
    ensures
        is_preview(r, targets@, action@),
{
    let mut emails: Vec<DryRunEmail<'a>> = Vec::new();
    let mut i: usize = 0;
    while i < targets.len()
        invariant
            i <= targets@.len(),
            emails@.len() == i,
            forall|j: int| 0 <= j < i ==> shows(#[trigger] emails@[j], targets@[j]),
        decreases targets@.len() - i,
    {
        let email = &targets[i];
        emails.push(
            DryRunEmail {
                id: email.id.as_str(),
                subject: borrow_text(&email.subject),
                from: &email.from,
                received_at: borrow_text(&email.received_at),
            },
        );
        i = i + 1;
    }
    DryRun { action, count: targets.len(), emails }
}

/// The keywords that an email is to have.
#[derive(Debug)]
pub struct KeywordUpdate {
    /// The email's identifier.
    pub id: String,
    /// All its keywords.
    pub keywords: Vec<Keyword>,
}

/// A change to emails on the server.
#[derive(Debug)]
pub enum Mutation {
    /// Destroys the emails for good.
    Destroy(Vec<String>),
    /// Moves the emails to the trash.
    Trash(Vec<String>),
    /// Moves the emails to the mailbox for junk.
    Junk(Vec<String>),
    /// Moves the emails to a mailbox.
    Move {
        /// The emails.
        ids: Vec<String>,
        /// The mailbox's identifier.
        to: String,
    },
    /// Replaces the keywords of the emails.
    Keywords(Vec<KeywordUpdate>),
}

/// What a bulk action does.
#[derive(Debug)]
pub enum Plan<'a> {
    /// It shows what it would do, and changes nothing.
    Preview(DryRun<'a>),
    /// It makes a change and then says so.
    Apply {
        /// The change.
        mutation: Mutation,
        /// What it says.
        message: String,
    },
}

/// Whether a plan shows the action on the emails and changes nothing.
pub open spec fn previews(plan: Plan, targets: Seq<Email>, action: Seq<char>) -> bool {
    plan matches Plan::Preview(report) && is_preview(report, targets, action)
}

/// Whether a plan says that when it has made its change.
pub open spec fn says(plan: Plan, text: Seq<char>) -> bool {
    plan matches Plan::Apply { mutation, message } && message@ == text
}

/// The identifiers of the emails.
pub open spec fn ids_of(emails: Seq<Email>) -> Seq<Seq<char>> {
    emails.map_values(|email: Email| email.id@)
}

/// The identifiers of the emails.
pub fn target_ids(targets: &[Email]) -> (r: Vec<String>)
    ensures
        text::texts(r@) == ids_of(targets@),
{
    let mut ids: Vec<String> = Vec::new();
    let mut i: usize = 0;
    assert(text::texts(ids@) =~= ids_of(targets@.take(0)));
    while i < targets.len()
        invariant
            i <= targets@.len(),
            text::texts(ids@) == ids_of(targets@.take(i as int)),
        decreases targets@.len() - i,
    {
        let ghost before = ids@;
        ids.push(targets[i].id.clone());
        assert(text::texts(ids@) =~= text::texts(before).push(targets@[i as int].id@));
        i = i + 1;
        assert(text::texts(ids@) =~= ids_of(targets@.take(i as int)));
    }
    assert(targets@.take(targets@.len() as int) =~= targets@);
    ids
}

/// A text with a number in it.
fn with_number(before: &str, n: usize, after: &str) -> (r: String)
    ensures
        r@ == before@ + decimal::numeral(n as nat) + after@,
{
    let number = text::from_chars(decimal::write_number(n as u64).as_slice());
    text::concat3(before, number.as_str(), after)
}

/// What deleting the emails does: it moves them to the trash or, if `hard`,
/// destroys them.
pub fn delete_bulk<'a>(targets: &'a [Email], hard: bool, dry_run: bool) -> (r: Plan<'a>)
    ensures
        dry_run ==> previews(
            r,
            targets@,
            if hard {
                "permanently destroy"@
            } else {
                "move to Trash"@
            },
        ),
        !dry_run && hard ==> says(
            r,
            "Permanently destroyed "@ + decimal::numeral(targets@.len()) + " email(s)"@,
        ) && (r->mutation matches Mutation::Destroy(ids) && text::texts(ids@) == ids_of(targets@)),
        !dry_run && !hard ==> says(
            r,
            "Moved "@ + decimal::numeral(targets@.len()) + " email(s) to Trash"@,
        ) && (r->mutation matches Mutation::Trash(ids) && text::texts(ids@) == ids_of(targets@)),
{
    if dry_run {
        let action = if hard {
            "permanently destroy"
        } else {
            "move to Trash"
        };
        return Plan::Preview(dry_run_report(targets, action.to_owned()));
    }
    let ids = target_ids(targets);
    if hard {
        Plan::Apply {
            mutation: Mutation::Destroy(ids),
            message: with_number("Permanently destroyed ", targets.len(), " email(s)"),
        }
    } else {
        Plan::Apply {
            mutation: Mutation::Trash(ids),
            message: with_number("Moved ", targets.len(), " email(s) to Trash"),
        }
    }
}

/// What marking the emails as spam does: it moves them to the mailbox for junk.
pub fn spam_bulk<'a>(targets: &'a [Email], dry_run: bool) -> (r: Plan<'a>)
    ensures
        dry_run ==> previews(r, targets@, "mark as spam (move to Junk)"@),
        !dry_run ==> says(
            r,
            "Marked "@ + decimal::numeral(targets@.len()) + " email(s) as spam"@,
        ) && (r->mutation matches Mutation::Junk(ids) && text::texts(ids@) == ids_of(targets@)),
{
    if dry_run {
        return Plan::Preview(dry_run_report(targets, "mark as spam (move to Junk)".to_owned()));
    }
    Plan::Apply {
        mutation: Mutation::Junk(target_ids(targets)),
        message: with_number("Marked ", targets.len(), " email(s) as spam"),
    }
}

/// Where emails are moved.
#[derive(Debug)]
pub enum Destination {
    /// To the mailbox of that identifier.
    Id(String),
    /// To the mailbox of that name, which is yet to be found.
    Name(String),
}

/// Where emails are moved. An identifier wins over a name.
pub fn resolve_destination(to_name: Option<String>, to_id: Option<String>) -> (r: Result<
    Destination,
    String,
>)
    ensures
        match (to_name, to_id) {
            (_, Some(id)) => r == Ok::<Destination, String>(Destination::Id(id)),
            (Some(name), None) => r == Ok::<Destination, String>(Destination::Name(name)),
            (None, None) => r matches Err(message) && message@
                == "Specify a destination with --to <name> or --to-id <id>"@,
        },
{
    match (to_name, to_id) {
        (_, Some(id)) => Ok(Destination::Id(id)),
        (Some(name), None) => Ok(Destination::Name(name)),
        (None, None) => Err(
            "Specify a destination with --to <name> or --to-id <id>".to_owned(),
        ),
    }
}

/// What moving the emails to a mailbox does.
pub fn move_bulk<'a>(targets: &'a [Email], dest_id: &str, dry_run: bool) -> (r: Plan<'a>)
    ensures
        dry_run ==> previews(r, targets@, "move to mailbox "@ + dest_id@),
        !dry_run ==> says(
            r,
            "Moved "@ + decimal::numeral(targets@.len()) + " email(s) to "@ + dest_id@,
        ) && (r->mutation matches Mutation::Move { ids, to } && text::texts(ids@) == ids_of(
            targets@,
        ) && to@ == dest_id@),
{
    if dry_run {
        return Plan::Preview(
            dry_run_report(targets, text::concat2("move to mailbox ", dest_id)),
        );
    }
    let mut message = with_number("Moved ", targets.len(), " email(s) to ");
    message.append(dest_id);
    Plan::Apply {
        mutation: Mutation::Move { ids: target_ids(targets), to: dest_id.to_owned() },
        message,
    }
}

/// Whether setting the keywords or, if `remove`, taking them out changes
/// anything about the email.
pub open spec fn changes(email: Email, names: Seq<Seq<char>>, remove: bool) -> bool {
    keywords::updated(keywords::keyword_map(email.keywords@), names, remove)
        != keywords::keyword_map(email.keywords@)
}

/// The emails about which something changes, in order.
pub open spec fn changed(targets: Seq<Email>, names: Seq<Seq<char>>, remove: bool) -> Seq<Email> {
    targets.filter(|email: Email| changes(email, names, remove))
}

/// Whether an update gives the email its keywords with those set or, if
/// `remove`, taken out, each name once.
pub open spec fn is_update(
    update: KeywordUpdate,
    email: Email,
    names: Seq<Seq<char>>,
    remove: bool,
) -> bool {
    &&& update.id@ == email.id@
    &&& keywords::keyword_map(update.keywords@) == keywords::updated(
        keywords::keyword_map(email.keywords@),
        names,
        remove,
    )
    &&& keywords::distinct_names(update.keywords@)
}

/// Whether the updates are those of the emails about which something changes.
pub open spec fn are_updates(
    updates: Seq<KeywordUpdate>,
    targets: Seq<Email>,
    names: Seq<Seq<char>>,
    remove: bool,
) -> bool {
    &&& updates.len() == changed(targets, names, remove).len()
    &&& forall|i: int|
        0 <= i < updates.len() ==> is_update(
            #[trigger] updates[i],
            changed(targets, names, remove)[i],
            names,
            remove,
        )
}

/// Rejects a command that names no keyword.
pub fn check_keywords(keywords: &Vec<String>) -> (r: Result<(), String>)
    ensures
        r is Ok <==> keywords@.len() > 0,
        r matches Err(message) ==> message@ == "Specify at least one --keyword to add or remove"@,
{
    if keywords.len() == 0 {
        Err("Specify at least one --keyword to add or remove".to_owned())
    } else {
        Ok(())
    }
}

/// The updates of the emails about which something changes.
fn keyword_updates(targets: &[Email], names: &Vec<String>, remove: bool) -> (r: Vec<KeywordUpdate>)
    ensures
        are_updates(r@, targets@, text::texts(names@), remove),
        r@.len() <= targets@.len(),
{
    let ghost wanted = text::texts(names@);
    let mut updates: Vec<KeywordUpdate> = Vec::new();
    let mut i: usize = 0;
    proof {
        reveal(Seq::filter);
        assert(changed(targets@.take(0), wanted, remove) =~= Seq::<Email>::empty());
    }
    while i < targets.len()
        invariant
            i <= targets@.len(),
            wanted == text::texts(names@),
            updates@.len() <= i,
            are_updates(updates@, targets@.take(i as int), wanted, remove),
        decreases targets@.len() - i,
    {
        let email = &targets[i];
        let ghost before = updates@;
        let ghost had = changed(targets@.take(i as int), wanted, remove);
        proof {
            reveal(Seq::filter);
            assert(targets@.take(i + 1).drop_last() =~= targets@.take(i as int));
            assert(targets@.take(i + 1).last() == *email);
        }
        let new = compute_keyword_update(&email.keywords, names.as_slice(), remove);
        if !same_keywords(&new, &email.keywords) {
            updates.push(KeywordUpdate { id: email.id.clone(), keywords: new });
            assert(changed(targets@.take(i + 1), wanted, remove) =~= had.push(*email));
        } else {
            assert(changed(targets@.take(i + 1), wanted, remove) =~= had);
        }
        i = i + 1;
        proof {
            let has = changed(targets@.take(i as int), wanted, remove);
            assert forall|j: int| 0 <= j < updates@.len() implies is_update(
                #[trigger] updates@[j],
                has[j],
                wanted,
                remove,
            ) by {
                if j < before.len() {
                    assert(is_update(before[j], had[j], wanted, remove));
                }
            }
        }
    }
    assert(targets@.take(targets@.len() as int) =~= targets@);
    updates
}

/// What setting the keywords of the emails or, if `remove`, taking them out
/// does. Each email starts from the keywords that it has, so that no other
/// keyword is touched; an email that already is as it should be is left alone.
pub fn flag_bulk<'a>(
    targets: &'a [Email],
    keywords: &Vec<String>,
    remove: bool,
    dry_run: bool,
) -> (r: Result<Plan<'a>, String>)
    ensures
        keywords@.len() == 0 ==> (r matches Err(message) && message@
            == "Specify at least one --keyword to add or remove"@),
        keywords@.len() > 0 && dry_run ==> (r matches Ok(plan) && previews(
            plan,
            targets@,
            (if remove {
                "remove"@
            } else {
                "add"@
            }) + " keyword(s): "@ + text::joined(text::texts(keywords@), ", "@),
        )),
        keywords@.len() > 0 && !dry_run ==> (r matches Ok(plan) && ({
            let names = text::texts(keywords@);
            let count = changed(targets@, names, remove).len();
            &&& plan->mutation matches Mutation::Keywords(updates)
            &&& are_updates(updates@, targets@, names, remove)
            &&& says(
                plan,
                (if remove {
                    "Removed"@
                } else {
                    "Added"@
                }) + " keyword(s) on "@ + decimal::numeral(count) + " email(s) ("@
                    + decimal::numeral((targets@.len() - count) as nat) + " unchanged)"@,
            )
        })),
{
    match check_keywords(keywords) {
        Ok(()) => {},
        Err(message) => {
            return Err(message);
        },
    }
    if dry_run {
        let verb = if remove {
            "remove"
        } else {
            "add"
        };
        let list = text::join_strings(keywords, ", ");
        let action = text::concat3(verb, " keyword(s): ", list.as_str());
        return Ok(Plan::Preview(dry_run_report(targets, action)));
    }
    let updates = keyword_updates(targets, keywords, remove);
    let verb = if remove {
        "Removed"
    } else {
        "Added"
    };
    let count: usize = updates.len();
    let mut message = verb.to_owned();
    message.append(" keyword(s) on ");
    message.append(text::from_chars(decimal::write_number(count as u64).as_slice()).as_str());
    message.append(" email(s) (");
    let unchanged: usize = targets.len() - count;
    message.append(text::from_chars(decimal::write_number(unchanged as u64).as_slice()).as_str());
    message.append(" unchanged)");
    Ok(Plan::Apply { mutation: Mutation::Keywords(updates), message })
}

/// Law: once the keywords are set or taken out nothing is left to change, so that
/// the same action changes nothing the second time.
pub proof fn law_flag_settles(
    update: KeywordUpdate,
    email: Email,
    after: Email,
    names: Seq<Seq<char>>,
    remove: bool,
)
    requires
        is_update(update, email, names, remove),
        after.keywords@ == update.keywords@,
    ensures
        !changes(after, names, remove),
{
    keywords::law_update_idempotent(keywords::keyword_map(email.keywords@), names, remove);
}

/// Why spam is not marked without confirmation.
pub fn spam_refusal(dry_run: bool, yes: bool) -> (r: Option<String>)
    ensures
        r is Some <==> !dry_run && !yes,
        r matches Some(message) ==> message@
            == "Mark email(s) as spam? Use -y to confirm (or --dry-run to preview)."@,
{
    if !dry_run && !yes {
        Some("Mark email(s) as spam? Use -y to confirm (or --dry-run to preview).".to_owned())
    } else {
        None
    }
}

/// Why emails are not deleted without confirmation.
pub fn delete_refusal(hard: bool, dry_run: bool, yes: bool) -> (r: Option<String>)
    ensures
        r is Some <==> !dry_run && !yes,
        r matches Some(message) ==> message@
            == "Delete email(s)? Use -y to confirm (or --dry-run to preview)."@ + if hard {
            " (--hard is irreversible)"@
        } else {
            ""@
        },
{
    if !dry_run && !yes {
        let warning = if hard {
            " (--hard is irreversible)"
        } else {
            ""
        };
        Some(
            text::concat2(
                "Delete email(s)? Use -y to confirm (or --dry-run to preview).",
                warning,
            ),
        )
    } else {
        None
    }
}

/// Why something is not deleted without confirmation.
pub fn removal_refusal(what: &str, id: &str, yes: bool) -> (r: Option<String>)
    ensures
        r is Some <==> !yes,
        r matches Some(message) ==> message@ == "Delete "@ + what@ + " "@ + id@
            + "? Use -y to confirm."@,
{
    if yes {
        None
    } else {
        let mut message = text::concat3("Delete ", what, " ");
        message.append(id);
        message.append("? Use -y to confirm.");
        Some(message)
    }
}

/// Law: adding keywords changes an email exactly if one of them is not set on it, and
/// removing them exactly if one of them is there.
pub proof fn law_changes(email: Email, names: Seq<Seq<char>>, remove: bool)
    ensures
        changes(email, names, remove) <==> exists|i: int|
            0 <= i < names.len() && ({
                let map = keywords::keyword_map(email.keywords@);
                let there = map.contains_key(#[trigger] names[i]);
                if remove {
                    there
                } else {
                    !(there && map[names[i]])
                }
            }),
{
    let map = keywords::keyword_map(email.keywords@);
    let new = keywords::updated(map, names, remove);
    if exists|i: int|
        0 <= i < names.len() && ({
            let there = map.contains_key(#[trigger] names[i]);
            if remove {
                there
            } else {
                !(there && map[names[i]])
            }
        }) {
        let i = choose|i: int|
            0 <= i < names.len() && ({
                let there = map.contains_key(#[trigger] names[i]);
                if remove {
                    there
                } else {
                    !(there && map[names[i]])
                }
            });
        keywords::law_update_exact(map, names, remove, names[i]);
        assert(names.contains(names[i]));
    } else {
        assert forall|name: Seq<char>| #[trigger]
            new.contains_key(name) == map.contains_key(name) by {
            if names.contains(name) {
                let i = choose|i: int| 0 <= i < names.len() && names[i] == name;
                assert(map.contains_key(names[i]) == map.contains_key(name));
            }
        }
        assert forall|name: Seq<char>| new.contains_key(name) implies #[trigger] new[name]
            == map[name] by {
            if names.contains(name) {
                let i = choose|i: int| 0 <= i < names.len() && names[i] == name;
                assert(map.contains_key(names[i]));
            }
        }
        assert(new =~= map);
    }
}

/// Law: the emails to update are those about which something changes, all of them and in
/// order.
pub proof fn law_changed(targets: Seq<Email>, names: Seq<Seq<char>>, remove: bool)
    ensures
        changed(targets, names, remove) == targets.filter(
            |email: Email| changes(email, names, remove),
        ),
        forall|i: int|
            0 <= i < targets.len() && changes(#[trigger] targets[i], names, remove) ==> changed(
                targets,
                names,
                remove,
            ).contains(targets[i]),
{
    let keep = |email: Email| changes(email, names, remove);
    assert forall|i: int|
        0 <= i < targets.len() && changes(#[trigger] targets[i], names, remove) implies changed(
        targets,
        names,
        remove,
    ).contains(targets[i]) by {
        targets.lemma_filter_contains(keep, i);
    }
}

/// Law: there is one update for each email about which something changes, for it and in
/// order. It leaves every keyword alone that is not named; the named ones are set after
/// adding and gone after removing.
pub proof fn law_updates(
    updates: Seq<KeywordUpdate>,
    targets: Seq<Email>,
    names: Seq<Seq<char>>,
    remove: bool,
    i: int,
    name: Seq<char>,
)
    requires
        are_updates(updates, targets, names, remove),
        0 <= i < updates.len(),
    ensures
        ({
            let changing = targets.filter(|email: Email| changes(email, names, remove));
            let new = keywords::keyword_map(updates[i].keywords@);
            let old = keywords::keyword_map(changing[i].keywords@);
            &&& updates.len() == changing.len()
            &&& updates[i].id@ == changing[i].id@
            &&& !names.contains(name) ==> new.contains_key(name) == old.contains_key(name)
            &&& !names.contains(name) && old.contains_key(name) ==> new[name] == old[name]
            &&& names.contains(name) && remove ==> !new.contains_key(name)
            &&& names.contains(name) && !remove ==> new.contains_key(name) && new[name]
            &&& keywords::distinct_names(updates[i].keywords@)
        }),
{
    law_changed(targets, names, remove);
    let email = changed(targets, names, remove)[i];
    assert(is_update(updates[i], email, names, remove));
    keywords::law_update_exact(keywords::keyword_map(email.keywords@), names, remove, name);
}

/// Law: a dry run changes nothing. It shows the action, how many emails there are, and of
/// each, in order, the identifier, the subject, the senders and the date.
pub proof fn law_preview(plan: Plan, targets: Seq<Email>, action: Seq<char>, i: int)
    requires
        previews(plan, targets, action),
        0 <= i < targets.len(),
    ensures
        plan is Preview,
        ({
            let report = plan->Preview_0;
            let shown = report.emails@[i];
            &&& report.action@ == action
            &&& report.count == targets.len()
            &&& report.emails@.len() == targets.len()
            &&& shown.id@ == targets[i].id@
            &&& shown.subject is Some == targets[i].subject is Some
            &&& shown.subject is Some ==> shown.subject->0@ == targets[i].subject->0@
            &&& *shown.from == targets[i].from
            &&& shown.received_at is Some == targets[i].received_at is Some
            &&& shown.received_at is Some ==> shown.received_at->0@ == targets[i].received_at->0@
        }),
{
    let report = plan->Preview_0;
    assert(shows(report.emails@[i], targets[i]));
}

/// Law: a dry run of nothing shows the action and no emails.
pub proof fn law_empty_preview(plan: Plan, action: Seq<char>)
    requires
        previews(plan, Seq::<Email>::empty(), action),
    ensures
        plan is Preview,
        plan->Preview_0.action@ == action,
        plan->Preview_0.count == 0,
        plan->Preview_0.emails@.len() == 0,
{
}

/// Law: what is said after a change is said by a plan that makes it, and by no dry run.
pub proof fn law_says(plan: Plan, text: Seq<char>)
    requires
        says(plan, text),
    ensures
        plan is Apply,
        plan->message@ == text,
{
}

/// Law: the identifiers are those of the emails, each in its place.
pub proof fn law_ids(emails: Seq<Email>)
    ensures
        ids_of(emails).len() == emails.len(),
        forall|i: int| 0 <= i < emails.len() ==> #[trigger] ids_of(emails)[i] == emails[i].id@,
{
}

} // verus!
