//! A whole thread as one compact plain-text summary.

use crate::decimal;
use crate::models;
use crate::models::Email;
use crate::text;
use crate::thread;
use crate::thread::{in_order, snippet, Rendering, ThreadFormat};
use vstd::prelude::*;
use vstd::slice::slice_subrange;
use vstd::string::*;

verus! {

/// The first `n` characters of a text, or all of it where it has fewer.
pub open spec fn first_chars(s: Seq<char>, n: int) -> Seq<char> {
    if s.len() <= n {
        s
    } else {
        s.take(n)
    }
}

/// The first `n` characters of a text, or all of it where it has fewer.
pub fn take_chars(s: &str, n: usize) -> (r: Vec<char>)
    ensures
        r@ == first_chars(s@, n as int),
{
    let chars = text::to_chars(s);
    if chars.len() <= n {
        chars
    } else {
        let mut out: Vec<char> = Vec::new();
        text::extend(&mut out, slice_subrange(chars.as_slice(), 0, n));
        assert(out@ =~= s@.take(n as int));
        out
    }
}

/// The first subject among the emails.
pub open spec fn first_subject(emails: Seq<Email>) -> Seq<char>
    decreases emails.len(),
{
    if emails.len() == 0 {
        "(no subject)"@
    } else {
        match emails[0].subject {
            Some(subject) => subject@,
            None => first_subject(emails.drop_first()),
        }
    }
}

/// The senders of the emails, each once, in the order in which they first
/// appear.
pub open spec fn participants(emails: Seq<Email>) -> Seq<Seq<char>>
    decreases emails.len(),
{
    if emails.len() == 0 {
        Seq::<Seq<char>>::empty()
    } else {
        let before = participants(emails.drop_last());
        match models::sender(emails.last()) {
            Some(address) => if before.contains(models::address_text(address)) {
                before
            } else {
                before.push(models::address_text(address))
            },
            None => before,
        }
    }
}

/// The day on which an email was received.
pub open spec fn day_text(email: Email) -> Seq<char> {
    match email.received_at {
        Some(date) => first_chars(date@, 10),
        None => "?"@,
    }
}

/// The days of the first and of the last email.
pub open spec fn day_range(emails: Seq<Email>) -> (Seq<char>, Seq<char>) {
    if emails.len() == 0 {
        ("?"@, "?"@)
    } else {
        (day_text(emails[0]), day_text(emails.last()))
    }
}

/// `c`, or a space in place of the `T` of a date.
pub open spec fn spaced(c: char) -> char {
    if c == 'T' {
        ' '
    } else {
        c
    }
}

/// The minute in which an email was received.
pub open spec fn stamp_text(email: Email) -> Seq<char> {
    match email.received_at {
        Some(date) => first_chars(date@, 16).map_values(|c: char| spaced(c)),
        None => "(no date)"@,
    }
}

/// Who an email is from.
pub open spec fn sender_text(email: Email) -> Seq<char> {
    match models::sender(email) {
        Some(address) => models::address_text(address),
        None => "(unknown sender)"@,
    }
}

/// The line with the excerpt, where there is anything to show.
pub open spec fn excerpt_line(excerpt: Seq<char>) -> Seq<char> {
    if excerpt.len() > 0 {
        "    "@ + excerpt + "\n"@
    } else {
        Seq::<char>::empty()
    }
}

/// The entry of the `n`th email, behind an empty line.
pub open spec fn entry(n: nat, email: Email, excerpt: Seq<char>) -> Seq<char> {
    "\n["@ + decimal::numeral(n) + "] "@ + stamp_text(email) + " \u{2014} "@ + sender_text(email)
        + "\n"@ + excerpt_line(excerpt)
}

/// The entries of the emails, numbered from 1.
pub open spec fn entries(emails: Seq<Email>) -> Seq<char>
    decreases emails.len(),
{
    if emails.len() == 0 {
        Seq::<char>::empty()
    } else {
        entries(emails.drop_last()) + entry(
            emails.len(),
            emails.last(),
            thread::excerpt(thread::body_text(emails.last())),
        )
    }
}

/// The digest's header: subject, number of messages, dates and participants.
pub open spec fn header(emails: Seq<Email>) -> Seq<char> {
    "Subject: "@ + first_subject(emails) + "\nMessages: "@ + decimal::numeral(emails.len())
        + " | "@ + day_range(emails).0 + " \u{2192} "@ + day_range(emails).1
        + "\nParticipants: "@ + text::joined(participants(emails), ", "@) + "\n"@
}

/// A thread as a digest: its header, then its emails from the oldest to the
/// newest.
pub open spec fn digest(emails: Seq<Email>) -> Seq<char> {
    header(thread::chronological(emails)) + entries(thread::chronological(emails))
}

fn find_subject(emails: &Vec<&Email>) -> (r: String)
    ensures
        r@ == first_subject(thread::pointees(emails@)),
{
    let ghost all = thread::pointees(emails@);
    let mut i: usize = 0;
    assert(all.skip(0) =~= all);
    while i < emails.len()
        invariant
            i <= emails@.len(),
            all == thread::pointees(emails@),
            first_subject(all) == first_subject(all.skip(i as int)),
        decreases emails@.len() - i,
    {
        assert(all.skip(i as int)[0] == *emails@[i as int]);
        assert(all.skip(i as int).drop_first() =~= all.skip(i + 1));
        match &emails[i].subject {
            Some(subject) => {
                return subject.clone();
            },
            None => {},
        }
        i = i + 1;
    }
    "(no subject)".to_owned()
}

fn find_participants(emails: &Vec<&Email>) -> (r: Vec<String>)
    ensures
        text::texts(r@) == participants(thread::pointees(emails@)),
{
    let ghost all = thread::pointees(emails@);
    let mut out: Vec<String> = Vec::new();
    let mut i: usize = 0;
    assert(all.take(0) =~= Seq::<Email>::empty());
    assert(text::texts(out@) =~= Seq::<Seq<char>>::empty());
    while i < emails.len()
        invariant
            i <= emails@.len(),
            all == thread::pointees(emails@),
            text::texts(out@) == participants(all.take(i as int)),
        decreases emails@.len() - i,
    {
        assert(all.take(i + 1).drop_last() =~= all.take(i as int));
        assert(all.take(i + 1).last() == *emails@[i as int]);
        match emails[i].sent_by() {
            Some(address) => {
                let shown = address.to_text();
                if !text::has_text(out.as_slice(), shown.as_str()) {
                    let ghost before = out@;
                    let ghost new = shown@;
                    out.push(shown);
                    assert(text::texts(out@) =~= text::texts(before).push(new));
                }
            },
            None => {},
        }
        i = i + 1;
    }
    assert(all.take(all.len() as int) =~= all);
    out
}

fn write_day(email: &Email) -> (r: String)
    ensures
        r@ == day_text(*email),
{
    match &email.received_at {
        Some(date) => text::from_chars(take_chars(date.as_str(), 10).as_slice()),
        None => "?".to_owned(),
    }
}

fn write_stamp(email: &Email) -> (r: String)
    ensures
        r@ == stamp_text(*email),
{
    match &email.received_at {
        Some(date) => {
            let chars = take_chars(date.as_str(), 16);
            let mut out = String::new();
            let mut i: usize = 0;
            while i < chars.len()
                invariant
                    i <= chars@.len(),
                    out@ == chars@.take(i as int).map_values(|c: char| spaced(c)),
                decreases chars@.len() - i,
            {
                out.push(
                    if chars[i] == 'T' {
                        ' '
                    } else {
                        chars[i]
                    },
                );
                i = i + 1;
                assert(out@ =~= chars@.take(i as int).map_values(|c: char| spaced(c)));
            }
            assert(chars@.take(chars@.len() as int) =~= chars@);
            out
        },
        None => "(no date)".to_owned(),
    }
}

fn write_sender(email: &Email) -> (r: String)
    ensures
        r@ == sender_text(*email),
{
    match email.sent_by() {
        Some(address) => address.to_text(),
        None => "(unknown sender)".to_owned(),
    }
}

/// Writes the entry of the `n`th email, given its excerpt.
pub fn write_entry(n: u64, email: &Email, excerpt: &str) -> (r: String)
    ensures
        r@ == entry(n as nat, *email, excerpt@),
{
    let mut out = "\n[".to_owned();
    out.append(text::from_chars(decimal::write_number(n).as_slice()).as_str());
    out.append("] ");
    out.append(write_stamp(email).as_str());
    out.append(" \u{2014} ");
    out.append(write_sender(email).as_str());
    out.append("\n");
    if text::to_chars(excerpt).len() > 0 {
        let ghost head = out@;
        out.append("    ");
        out.append(excerpt);
        out.append("\n");
        assert(out@ =~= head + excerpt_line(excerpt@));
    } else {
        assert(out@ + Seq::<char>::empty() =~= out@);
    }
    out
}

fn write_header(emails: &Vec<&Email>) -> (r: String)
    ensures
        r@ == header(thread::pointees(emails@)),
{
    let ghost all = thread::pointees(emails@);
    let first_day;
    let last_day;
    if emails.len() > 0 {
        first_day = write_day(emails[0]);
        last_day = write_day(emails[emails.len() - 1]);
        assert(all[0] == *emails@[0]);
        assert(all.last() == *emails@.last());
    } else {
        first_day = "?".to_owned();
        last_day = "?".to_owned();
    }
    let names = find_participants(emails);
    let mut out = "Subject: ".to_owned();
    out.append(find_subject(emails).as_str());
    out.append("\nMessages: ");
    out.append(text::from_chars(decimal::write_number(emails.len() as u64).as_slice()).as_str());
    out.append(" | ");
    out.append(first_day.as_str());
    out.append(" \u{2192} ");
    out.append(last_day.as_str());
    out.append("\nParticipants: ");
    out.append(text::join_strings(&names, ", ").as_str());
    out.append("\n");
    out
}

/// Renders a whole thread as one compact plain-text summary: a header (subject,
/// message count, dates, participants), then one short entry per message in
/// chronological order.
pub fn render_digest(emails: &[Email]) -> (r: String)
    ensures
        r@ == digest(emails@),
{
    let sorted = in_order(emails);
    let ghost all = thread::pointees(sorted@);
    let mut out = write_header(&sorted);
    let mut i: usize = 0;
    proof {
        assert(all.take(0) =~= Seq::<Email>::empty());
        assert(header(all) + Seq::<char>::empty() =~= header(all));
    }
    while i < sorted.len()
        invariant
            i <= sorted@.len(),
            all == thread::pointees(sorted@),
            out@ == header(all) + entries(all.take(i as int)),
        decreases sorted@.len() - i,
    {
        proof {
            assert(all.take(i + 1).drop_last() =~= all.take(i as int));
            assert(all.take(i + 1).last() == *sorted@[i as int]);
        }
        let ghost before = out@;
        let excerpt = snippet(sorted[i]);
        let entry = write_entry(i as u64 + 1, sorted[i], excerpt.as_str());
        out.append(entry.as_str());
        i = i + 1;
        assert(out@ =~= header(all) + entries(all.take(i as int)));
    }
    assert(all.take(all.len() as int) =~= all);
    out
}

/// What the `thread` command prints.
pub fn get_thread_fmt(emails: &[Email], format: ThreadFormat) -> (r: Rendering)
    ensures
        r@ == match format {
            ThreadFormat::Json => None,
            ThreadFormat::Digest => Some(digest(emails@)),
        },
{
    match format {
        ThreadFormat::Json => Rendering::Json,
        ThreadFormat::Digest => Rendering::Raw(render_digest(emails)),
    }
}

/// Law: no participant is listed twice.
pub proof fn law_participants_distinct(emails: Seq<Email>)
    ensures
        participants(emails).no_duplicates(),
    decreases emails.len(),
{
    if emails.len() > 0 {
        law_participants_distinct(emails.drop_last());
    }
}

/// Law: whoever sent an email of the thread is listed, and nobody else is.
pub proof fn law_participants_complete(emails: Seq<Email>, name: Seq<char>)
    ensures
        participants(emails).contains(name) <==> exists|i: int|
            0 <= i < emails.len() && (models::sender(#[trigger] emails[i]) matches Some(address)
                && models::address_text(address) == name),
    decreases emails.len(),
{
    if emails.len() > 0 {
        let front = emails.drop_last();
        let last = emails.last();
        let before = participants(front);
        let all = participants(emails);
        law_participants_complete(front, name);
        if all.contains(name) {
            if before.contains(name) {
                let i = choose|i: int|
                    0 <= i < front.len() && (models::sender(#[trigger] front[i]) matches Some(
                        address,
                    ) && models::address_text(address) == name);
                assert(emails[i] == front[i]);
            } else {
                let k = choose|k: int| 0 <= k < all.len() && all[k] == name;
                if k < before.len() {
                    assert(before[k] == name);
                }
                assert(emails[emails.len() - 1] == last);
            }
        }
        if exists|i: int|
            0 <= i < emails.len() && (models::sender(#[trigger] emails[i]) matches Some(address)
                && models::address_text(address) == name) {
            let i = choose|i: int|
                0 <= i < emails.len() && (models::sender(#[trigger] emails[i]) matches Some(address)
                    && models::address_text(address) == name);
            if i < front.len() {
                assert(front[i] == emails[i]);
                let k = choose|k: int| 0 <= k < before.len() && before[k] == name;
                assert(all[k] == name);
            } else if !before.contains(name) {
                assert(all[all.len() - 1] == name);
            } else {
                let k = choose|k: int| 0 <= k < before.len() && before[k] == name;
                assert(all[k] == name);
            }
        }
    }
}

/// Law: the first characters of a text are as many as asked for, or all there are,
/// and the text goes on from them.
pub proof fn law_first_chars(s: Seq<char>, n: int)
    requires
        n >= 0,
    ensures
        first_chars(s, n).len() == if s.len() < n {
            s.len() as int
        } else {
            n
        },
        exists|rest: Seq<char>| s == #[trigger] (first_chars(s, n) + rest),
{
    let head = first_chars(s, n);
    assert(s =~= head + s.skip(head.len() as int));
}

/// Law: a thread goes by the subject of its first email that has one.
pub proof fn law_first_subject(emails: Seq<Email>)
    ensures
        (forall|i: int| 0 <= i < emails.len() ==> (#[trigger] emails[i]).subject is None)
            ==> first_subject(emails) == "(no subject)"@,
        forall|k: int|
            0 <= k < emails.len() && (#[trigger] emails[k]).subject is Some && (forall|i: int|
                0 <= i < k ==> (#[trigger] emails[i]).subject is None) ==> first_subject(emails)
                == emails[k].subject->0@,
    decreases emails.len(),
{
    if emails.len() > 0 && emails[0].subject is None {
        let rest = emails.drop_first();
        law_first_subject(rest);
        if forall|i: int| 0 <= i < emails.len() ==> (#[trigger] emails[i]).subject is None {
            assert forall|i: int| 0 <= i < rest.len() implies (
            #[trigger] rest[i]).subject is None by {
                assert(rest[i] == emails[i + 1]);
            }
        }
        assert forall|k: int|
            0 <= k < emails.len() && (#[trigger] emails[k]).subject is Some && (forall|i: int|
                0 <= i < k ==> (#[trigger] emails[i]).subject is None) implies first_subject(emails)
            == emails[k].subject->0@ by {
            assert(rest[k - 1] == emails[k]);
            assert forall|i: int| 0 <= i < k - 1 implies (#[trigger] rest[i]).subject is None by {
                assert(rest[i] == emails[i + 1]);
            }
        }
    } else if emails.len() > 0 {
        assert forall|k: int|
            0 <= k < emails.len() && (#[trigger] emails[k]).subject is Some && (forall|i: int|
                0 <= i < k ==> (#[trigger] emails[i]).subject is None) implies first_subject(emails)
            == emails[k].subject->0@ by {
            if k > 0 {
                assert(emails[0].subject is None);
            }
        }
    }
}

/// Law: the participants are listed in the order in which they first appear.
pub proof fn law_participants_in_order(a: Seq<Email>, b: Seq<Email>)
    ensures
        participants(a).is_prefix_of(participants(a + b)),
    decreases b.len(),
{
    let n = participants(a).len() as int;
    if b.len() == 0 {
        assert(a + b =~= a);
        assert(participants(a).subrange(0, n) =~= participants(a));
    } else {
        assert((a + b).drop_last() =~= a + b.drop_last());
        law_participants_in_order(a, b.drop_last());
        let before = participants(a + b.drop_last());
        let all = participants(a + b);
        assert(all.subrange(0, before.len() as int) =~= before);
        assert(all.subrange(0, n) =~= before.subrange(0, n));
    }
}

/// Law: the digest of a thread is its subject, the number of its emails, the days
/// of the oldest and the newest, the participants, and then the entries of the
/// emails from the oldest to the newest.
pub proof fn law_digest_layout(emails: Seq<Email>)
    ensures
        ({
            let sorted = thread::chronological(emails);
            let day = |email: Email|
                match email.received_at {
                    Some(date) => if date@.len() > 10 {
                        date@.take(10)
                    } else {
                        date@
                    },
                    None => "?"@,
                };
            let first = if emails.len() > 0 {
                day(sorted[0])
            } else {
                "?"@
            };
            let last = if emails.len() > 0 {
                day(sorted[emails.len() - 1])
            } else {
                "?"@
            };
            digest(emails) == "Subject: "@ + first_subject(sorted) + "\nMessages: "@
                + decimal::numeral(emails.len()) + " | "@ + first + " \u{2192} "@ + last
                + "\nParticipants: "@ + text::joined(participants(sorted), ", "@) + "\n"@ + entries(
                sorted,
            )
        }),
{
    broadcast use vstd::seq_lib::group_to_multiset_ensures;

    thread::law_chronological_order(emails);
    let sorted = thread::chronological(emails);
    assert(sorted.len() == sorted.to_multiset().len());
    assert(emails.len() == emails.to_multiset().len());
}

/// Law: in the digest of a thread each email, from the oldest to the newest, has an
/// entry of its own behind those before it: an empty line, its number, when it was
/// received, who it is from and, indented, its excerpt if it has one.
pub proof fn law_digest_entry(emails: Seq<Email>, email: Email)
    ensures
        ({
            let stamp = match email.received_at {
                Some(date) => (if date@.len() > 16 {
                    date@.take(16)
                } else {
                    date@
                }).map_values(
                    |c: char|
                        if c == 'T' {
                            ' '
                        } else {
                            c
                        },
                ),
                None => "(no date)"@,
            };
            let from = match models::sender(email) {
                Some(address) => models::address_text(address),
                None => "(unknown sender)"@,
            };
            let excerpt = thread::excerpt(thread::body_text(email));
            entries(emails.push(email)) == entries(emails) + "\n["@ + decimal::numeral(
                emails.len() + 1,
            ) + "] "@ + stamp + " \u{2014} "@ + from + "\n"@ + (if excerpt.len() > 0 {
                "    "@ + excerpt + "\n"@
            } else {
                Seq::<char>::empty()
            })
        }),
        entries(Seq::<Email>::empty()).len() == 0,
{
    let all = emails.push(email);
    assert(all.drop_last() =~= emails);
    if let Some(date) = email.received_at {
        let cut = if date@.len() > 16 {
            date@.take(16)
        } else {
            date@
        };
        assert(cut.map_values(|c: char| spaced(c)) =~= cut.map_values(
            |c: char|
                if c == 'T' {
                    ' '
                } else {
                    c
                },
        ));
    }
    let excerpt = thread::excerpt(thread::body_text(email));
    let number = decimal::numeral(emails.len() + 1);
    let tail = excerpt_line(excerpt);
    assert(entries(all) =~= entries(emails) + "\n["@ + number + "] "@ + stamp_text(email)
        + " \u{2014} "@ + sender_text(email) + "\n"@ + tail);
}

} // verus!
