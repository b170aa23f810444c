//! Threads: their latest message, and a digest of the whole.

use crate::html;
use crate::html::html_to_text;
use crate::models;
use crate::models::{borrow_text, clone_text, Email, EmailAddress};
use crate::text;
use vstd::prelude::*;
use vstd::slice::slice_subrange;
use vstd::string::*;

verus! {

/// How the `thread` command prints a thread.
#[derive(Debug, Clone, Copy, PartialEq, Eq, Structural)]
pub enum ThreadFormat {
    /// The full thread as JSON.
    Json,
    /// A compact plain-text summary.
    Digest,
}

impl Default for ThreadFormat {
    fn default() -> (r: Self)
        ensures
            r == ThreadFormat::Json,
    {
        ThreadFormat::Json
    }
}

/// The most characters of a message that a digest shows.
pub const SNIPPET_LEN: usize = 280;

/// Whether an email was received before another. ISO 8601 dates are in the
/// order of their characters; an email without a date is older than any other.
pub open spec fn older(a: Email, b: Email) -> bool {
    match (a.received_at, b.received_at) {
        (Some(x), Some(y)) => text::precedes(x@, y@),
        (None, Some(_)) => true,
        _ => false,
    }
}

/// Whether an email was received before another.
pub fn is_older(a: &Email, b: &Email) -> (r: bool)
    ensures
        r == older(*a, *b),
{
    match (&a.received_at, &b.received_at) {
        (Some(x), Some(y)) => {
            let x = text::to_chars(x.as_str());
            let y = text::to_chars(y.as_str());
            text::comes_before(x.as_slice(), y.as_slice())
        },
        (None, Some(_)) => true,
        _ => false,
    }
}

/// Law: of two emails at most one is older, and two emails neither of which is
/// older have the same date or both none.
pub proof fn law_older_total(a: Email, b: Email)
    ensures
        !(older(a, b) && older(b, a)),
        !older(a, b) && !older(b, a) ==> text::opt_text(a.received_at) == text::opt_text(
            b.received_at,
        ),
{
    match (a.received_at, b.received_at) {
        (Some(x), Some(y)) => {
            text::law_order_total(x@, y@);
        },
        _ => {},
    }
}

/// Law: an email that is not older than one that is not older than a third is
/// not older than the third.
pub proof fn law_older_chains(a: Email, b: Email, c: Email)
    requires
        !older(b, a),
        !older(c, b),
    ensures
        !older(c, a),
{
    match (a.received_at, b.received_at, c.received_at) {
        (Some(x), Some(y), Some(z)) => {
            text::law_order_total(x@, y@);
            text::law_order_total(y@, z@);
            text::law_order_total(x@, z@);
            if text::precedes(z@, x@) {
                if x@ != y@ {
                    text::law_order_transitive(z@, x@, y@);
                }
            }
        },
        _ => {},
    }
}

/// Whether the email at `i` is the latest: none is later, and none before it is
/// as late.
pub open spec fn is_latest(emails: Seq<Email>, i: int) -> bool {
    &&& 0 <= i < emails.len()
    &&& forall|j: int| 0 <= j < emails.len() ==> !older(emails[i], #[trigger] emails[j])
    &&& forall|j: int| 0 <= j < i ==> older(#[trigger] emails[j], emails[i])
}

/// The most recent message of a thread; the first of them where there are
/// several. An email without a date is the oldest.
pub fn latest_message<'a>(emails: &'a [Email]) -> (r: Option<&'a Email>)
    ensures
        emails@.len() == 0 ==> r is None,
        emails@.len() > 0 ==> (r matches Some(latest) && exists|i: int|
            #[trigger] is_latest(emails@, i) && *latest == emails@[i]),
{
    if emails.len() == 0 {
        return None;
    }
    let mut best: usize = 0;
    let mut i: usize = 1;
    proof {
        law_older_total(emails@[0], emails@[0]);
    }
    while i < emails.len()
        invariant
            best < i <= emails@.len(),
            is_latest(emails@.take(i as int), best as int),
        decreases emails@.len() - i,
    {
        let ghost seen = emails@.take(i as int);
        let ghost more = emails@.take(i + 1);
        proof {
            law_older_total(emails@[best as int], emails@[i as int]);
            assert forall|j: int| 0 <= j < i implies #[trigger] more[j] == seen[j] by {}
        }
        if is_older(&emails[best], &emails[i]) {
            proof {
                assert forall|j: int| 0 <= j < i implies older(
                    #[trigger] more[j],
                    more[i as int],
                ) by {
                    law_older_total(seen[j], more[i as int]);
                    law_older_total(seen[best as int], seen[j]);
                    assert(!older(seen[best as int], seen[j]));
                    if !older(seen[j], more[i as int]) {
                        law_older_chains(more[i as int], seen[j], seen[best as int]);
                    }
                }
                assert forall|j: int| 0 <= j < i + 1 implies !older(
                    more[i as int],
                    #[trigger] more[j],
                ) by {
                    law_older_total(more[i as int], more[j]);
                }
            }
            best = i;
        }
        i = i + 1;
    }
    assert(emails@.take(emails@.len() as int) =~= emails@);
    Some(&emails[best])
}

/// Whether a line is quoted from an earlier message: it begins with `>`, behind
/// white space.
pub open spec fn is_quoted(line: Seq<char>) -> bool {
    let rest = text::trimmed_start(line);
    rest.len() > 0 && rest[0] == '>'
}

/// The lines that are not quoted, in order.
pub open spec fn unquoted(lines: Seq<Seq<char>>) -> Seq<Seq<char>>
    decreases lines.len(),
{
    if lines.len() == 0 {
        lines
    } else {
        let before = unquoted(lines.drop_last());
        if is_quoted(lines.last()) {
            before
        } else {
            before.push(lines.last())
        }
    }
}

/// A text cut after [`SNIPPET_LEN`] characters, with an ellipsis where something
/// was cut off.
pub open spec fn shortened(s: Seq<char>) -> Seq<char> {
    if s.len() > SNIPPET_LEN {
        s.take(SNIPPET_LEN as int).push('\u{2026}')
    } else {
        s
    }
}

/// The excerpt of a body: its lines that are not quoted, on one line, with
/// white space collapsed, and shortened.
pub open spec fn excerpt(raw: Seq<char>) -> Seq<char> {
    let lines = text::pieces(raw, text::Separator::Char('\n'));
    shortened(text::collapsed(text::joined(unquoted(lines), seq![' '])))
}

/// What an email says: its plain-text body, else the text of its HTML body,
/// else the server's excerpt.
pub open spec fn body_text(email: Email) -> Seq<char> {
    match (email.text_body, email.html_body, email.preview) {
        (Some(text), _, _) => text@,
        (None, Some(html), _) => html::html_text(html@),
        (None, None, Some(preview)) => preview@,
        (None, None, None) => Seq::<char>::empty(),
    }
}

/// The excerpt of a body.
pub fn excerpt_of(raw: &str) -> (r: String)
    ensures
        r@ == excerpt(raw@),
{
    let chars = text::to_chars(raw);
    let lines = text::split(chars.as_slice(), text::Separator::Char('\n'));
    let ghost all = text::rows(lines@);
    let mut kept: Vec<Vec<char>> = Vec::new();
    let mut i: usize = 0;
    assert(all.take(0) =~= Seq::<Seq<char>>::empty());
    assert(text::rows(kept@) =~= Seq::<Seq<char>>::empty());
    while i < lines.len()
        invariant
            i <= lines@.len(),
            all == text::rows(lines@),
            text::rows(kept@) == unquoted(all.take(i as int)),
        decreases lines@.len() - i,
    {
        assert(all.take(i + 1).drop_last() =~= all.take(i as int));
        let rest = text::trim_start(lines[i].as_slice());
        if !(rest.len() > 0 && rest[0] == '>') {
            let ghost done = kept@;
            let mut line: Vec<char> = Vec::new();
            text::extend(&mut line, lines[i].as_slice());
            assert(line@ =~= all[i as int]);
            kept.push(line);
            assert(text::rows(kept@) =~= text::rows(done).push(all[i as int]));
        }
        i = i + 1;
    }
    assert(all.take(all.len() as int) =~= all);
    let gap: Vec<char> = vec![' '];
    assert(gap@ =~= seq![' ']);
    let flat = text::join(&kept, gap.as_slice());
    let line = text::collapse(flat.as_slice());
    if line.len() > SNIPPET_LEN {
        let mut out = text::from_chars(slice_subrange(line.as_slice(), 0, SNIPPET_LEN));
        assert(out@ =~= line@.take(SNIPPET_LEN as int));
        out.push('\u{2026}');
        out
    } else {
        text::from_chars(line.as_slice())
    }
}

/// A one-line excerpt of an email: of its plain-text body, else of the text of
/// its HTML body, else of the server's excerpt. Quoted lines are dropped, white
/// space is collapsed, and no more than [`SNIPPET_LEN`] characters are kept.
pub fn snippet(email: &Email) -> (r: String)
    ensures
        r@ == excerpt(body_text(*email)),
{
    proof {
        reveal_strlit("");
        assert(""@ =~= Seq::<char>::empty());
    }
    match email.text_content() {
        Some(text) => excerpt_of(text),
        None => match email.html_content() {
            Some(html) => excerpt_of(html_to_text(html).as_str()),
            None => match borrow_text(&email.preview) {
                Some(preview) => excerpt_of(preview),
                None => excerpt_of(""),
            },
        },
    }
}

/// The emails behind references to them.
pub open spec fn pointees(emails: Seq<&Email>) -> Seq<Email> {
    emails.map_values(|email: &Email| *email)
}

/// Emails in order of age with one more put in its place: behind all that are
/// not later.
pub open spec fn inserted(sorted: Seq<Email>, email: Email) -> Seq<Email>
    decreases sorted.len(),
{
    if sorted.len() == 0 || !older(email, sorted.last()) {
        sorted.push(email)
    } else {
        inserted(sorted.drop_last(), email).push(sorted.last())
    }
}

/// The emails from the oldest to the newest, those of one date as they were.
pub open spec fn chronological(emails: Seq<Email>) -> Seq<Email>
    decreases emails.len(),
{
    if emails.len() == 0 {
        emails
    } else {
        inserted(chronological(emails.drop_last()), emails.last())
    }
}

proof fn lemma_inserted_at(sorted: Seq<Email>, email: Email, pos: int)
    requires
        0 <= pos <= sorted.len(),
        pos == 0 || !older(email, sorted[pos - 1]),
        forall|k: int| pos <= k < sorted.len() ==> older(email, #[trigger] sorted[k]),
    ensures
        inserted(sorted, email) == sorted.insert(pos, email),
    decreases sorted.len(),
{
    if pos == sorted.len() {
        assert(sorted.insert(pos, email) =~= sorted.push(email));
    } else {
        lemma_inserted_at(sorted.drop_last(), email, pos);
        assert(sorted.drop_last().insert(pos, email).push(sorted.last()) =~= sorted.insert(
            pos,
            email,
        ));
    }
}

/// The emails from the oldest to the newest, those of one date as they were.
pub fn in_order<'a>(emails: &'a [Email]) -> (r: Vec<&'a Email>)
    ensures
        pointees(r@) == chronological(emails@),
{
    let mut sorted: Vec<&'a Email> = Vec::new();
    let mut i: usize = 0;
    assert(emails@.take(0) =~= Seq::<Email>::empty());
    assert(pointees(sorted@) =~= Seq::<Email>::empty());
    while i < emails.len()
        invariant
            i <= emails@.len(),
            pointees(sorted@) == chronological(emails@.take(i as int)),
        decreases emails@.len() - i,
    {
        let email = &emails[i];
        let ghost before = pointees(sorted@);
        let mut pos: usize = sorted.len();
        while pos > 0 && is_older(email, sorted[pos - 1])
            invariant
                pos <= sorted@.len(),
                before == pointees(sorted@),
                forall|k: int| pos <= k < before.len() ==> older(*email, #[trigger] before[k]),
            decreases pos,
        {
            assert(before[pos - 1] == *sorted@[pos - 1]);
            pos = pos - 1;
        }
        proof {
            if pos > 0 {
                assert(before[pos - 1] == *sorted@[pos - 1]);
            }
            lemma_inserted_at(before, *email, pos as int);
            assert(emails@.take(i + 1).drop_last() =~= emails@.take(i as int));
        }
        sorted.insert(pos, email);
        assert(pointees(sorted@) =~= before.insert(pos as int, *email));
        i = i + 1;
    }
    assert(emails@.take(emails@.len() as int) =~= emails@);
    sorted
}

/// Whether no email is older than one before it.
pub open spec fn is_chronological(emails: Seq<Email>) -> bool {
    forall|i: int, j: int|
        0 <= i < j < emails.len() ==> !older(#[trigger] emails[j], #[trigger] emails[i])
}

proof fn lemma_inserted_sorted(sorted: Seq<Email>, email: Email)
    requires
        is_chronological(sorted),
    ensures
        is_chronological(inserted(sorted, email)),
        inserted(sorted, email).to_multiset() == sorted.to_multiset().insert(email),
    decreases sorted.len(),
{
    broadcast use vstd::seq_lib::group_to_multiset_ensures;

    if sorted.len() == 0 || !older(email, sorted.last()) {
        let all = sorted.push(email);
        assert forall|i: int, j: int| 0 <= i < j < all.len() implies !older(
            #[trigger] all[j],
            #[trigger] all[i],
        ) by {
            if j == sorted.len() && i < sorted.len() - 1 {
                law_older_chains(sorted[i], sorted.last(), email);
            }
        }
    } else {
        let front = sorted.drop_last();
        lemma_inserted_sorted(front, email);
        let head = inserted(front, email);
        let all = head.push(sorted.last());
        assert forall|i: int, j: int| 0 <= i < j < all.len() implies !older(
            #[trigger] all[j],
            #[trigger] all[i],
        ) by {
            if j == head.len() {
                law_older_total(email, sorted.last());
                assert(head.to_multiset().count(head[i]) > 0) by {
                    assert(head.contains(head[i]));
                }
                if head[i] != email {
                    assert(front.to_multiset().count(head[i]) > 0);
                    assert(front.contains(head[i]));
                    let k = choose|k: int| 0 <= k < front.len() && front[k] == head[i];
                    assert(sorted[k] == head[i]);
                }
            }
        }
        assert(sorted =~= front.push(sorted.last()));
        assert(sorted.to_multiset() =~= front.to_multiset().insert(sorted.last()));
        assert(all.to_multiset() =~= sorted.to_multiset().insert(email));
    }
}

/// Law: putting emails in order of age gives the same emails, and none behind a
/// newer one.
pub proof fn law_chronological_order(emails: Seq<Email>)
    ensures
        is_chronological(chronological(emails)),
        chronological(emails).to_multiset() == emails.to_multiset(),
    decreases emails.len(),
{
    broadcast use vstd::seq_lib::group_to_multiset_ensures;

    if emails.len() > 0 {
        law_chronological_order(emails.drop_last());
        lemma_inserted_sorted(chronological(emails.drop_last()), emails.last());
        assert(emails =~= emails.drop_last().push(emails.last()));
    }
}

/// The emails of one date, or of none.
pub open spec fn of_date(emails: Seq<Email>, date: Option<Seq<char>>) -> Seq<Email> {
    emails.filter(|email: Email| text::opt_text(email.received_at) == date)
}

proof fn lemma_of_date_push(emails: Seq<Email>, email: Email, date: Option<Seq<char>>)
    ensures
        of_date(emails.push(email), date) == if text::opt_text(email.received_at) == date {
            of_date(emails, date).push(email)
        } else {
            of_date(emails, date)
        },
{
    reveal(Seq::filter);
    assert(emails.push(email).drop_last() =~= emails);
}

proof fn lemma_inserted_stable(sorted: Seq<Email>, email: Email, date: Option<Seq<char>>)
    ensures
        of_date(inserted(sorted, email), date) == of_date(sorted.push(email), date),
    decreases sorted.len(),
{
    if sorted.len() > 0 && older(email, sorted.last()) {
        let front = sorted.drop_last();
        let last = sorted.last();
        lemma_inserted_stable(front, email, date);
        lemma_of_date_push(inserted(front, email), last, date);
        lemma_of_date_push(front, email, date);
        lemma_of_date_push(front, last, date);
        lemma_of_date_push(sorted, email, date);
        assert(sorted =~= front.push(last));
        match (email.received_at, last.received_at) {
            (Some(x), Some(y)) => {
                text::law_order_total(x@, y@);
            },
            _ => {},
        }
    }
}

/// Law: putting emails in order of age leaves those of one date in the order in
/// which they came.
pub proof fn law_chronological_stable(emails: Seq<Email>, date: Option<Seq<char>>)
    ensures
        of_date(chronological(emails), date) == of_date(emails, date),
    decreases emails.len(),
{
    if emails.len() > 0 {
        let front = emails.drop_last();
        law_chronological_stable(front, date);
        lemma_inserted_stable(chronological(front), emails.last(), date);
        lemma_of_date_push(chronological(front), emails.last(), date);
        lemma_of_date_push(front, emails.last(), date);
        assert(emails =~= front.push(emails.last()));
    }
}

/// What a command prints.
#[derive(Debug)]
pub enum Rendering {
    /// What was fetched, as JSON.
    Json,
    /// This text, as it stands.
    Raw(String),
}

impl View for Rendering {
    type V = Option<Seq<char>>;

    /// The text, where it is not JSON that is printed.
    open spec fn view(&self) -> Option<Seq<char>> {
        match *self {
            Rendering::Json => None,
            Rendering::Raw(text) => Some(text@),
        }
    }
}

/// What is reported of the latest message of a thread.
#[derive(Debug)]
pub struct LastSender {
    /// Who it is from.
    pub last_sender: Option<EmailAddress>,
    /// When it was received.
    pub received_at: Option<String>,
    /// Its subject.
    pub subject: Option<String>,
}

/// Who the latest message of a thread is from, when it was received and what
/// its subject is.
pub fn thread_last_sender(emails: &[Email]) -> (r: LastSender)
    ensures
        emails@.len() == 0 ==> r.last_sender is None && r.received_at is None && r.subject is None,
        emails@.len() > 0 ==> exists|i: int|
            #[trigger] is_latest(emails@, i) && r.last_sender == models::sender(emails@[i])
                && r.received_at == emails@[i].received_at && r.subject == emails@[i].subject,
{
    match latest_message(emails) {
        Some(latest) => {
            let last_sender = match latest.sent_by() {
                Some(address) => Some(address.clone()),
                None => None,
            };
            LastSender {
                last_sender,
                received_at: clone_text(&latest.received_at),
                subject: clone_text(&latest.subject),
            }
        },
        None => LastSender { last_sender: None, received_at: None, subject: None },
    }
}

/// Law: an excerpt is one line of no more than [`SNIPPET_LEN`] characters and an
/// ellipsis, in which the only white space is single spaces behind words.
pub proof fn law_excerpt_compact(raw: Seq<char>)
    ensures
        excerpt(raw).len() <= SNIPPET_LEN + 1,
        forall|i: int|
            0 <= i < excerpt(raw).len() && text::is_space(#[trigger] excerpt(raw)[i]) ==> excerpt(
                raw,
            )[i] == ' ' && i > 0 && !text::is_space(excerpt(raw)[i - 1]),
{
    let lines = text::pieces(raw, text::Separator::Char('\n'));
    let flat = text::joined(unquoted(lines), seq![' ']);
    text::law_collapsed(flat);
    let line = text::collapsed(flat);
    let short = excerpt(raw);
    assert forall|i: int| 0 <= i < short.len() && text::is_space(#[trigger] short[i]) implies
        short[i] == ' ' && i > 0 && !text::is_space(short[i - 1]) by {
        assert(short[i] == line[i]);
        assert(i > 0 ==> short[i - 1] == line[i - 1]);
    }
}

/// Law: a quoted line at the end of a body does not change its excerpt.
pub proof fn law_quoted_line_dropped(raw: Seq<char>, line: Seq<char>)
    requires
        !line.contains('\n'),
        is_quoted(line),
    ensures
        excerpt(raw + seq!['\n'] + line) == excerpt(raw),
{
    let cut = text::Separator::Char('\n');
    assert forall|i: int| 0 <= i < line.len() implies !cut.cuts(#[trigger] line[i]) by {
        assert(line.contains(line[i]));
    }
    text::lemma_piece_appended(raw, '\n', line, cut);
    assert(raw + seq!['\n'] + line =~= raw.push('\n') + line);
    let lines = text::pieces(raw, text::Separator::Char('\n'));
    assert(lines.push(line).drop_last() =~= lines);
}

/// Law: there is only one latest message.
pub proof fn law_latest_unique(emails: Seq<Email>, i: int, j: int)
    requires
        is_latest(emails, i),
        is_latest(emails, j),
    ensures
        i == j,
{
    if i < j {
        assert(older(emails[i], emails[j]));
    } else if j < i {
        assert(older(emails[j], emails[i]));
    }
}

/// Law: the latest message has the date of the last one in chronological order.
pub proof fn law_latest_comes_last(emails: Seq<Email>, i: int)
    requires
        is_latest(emails, i),
    ensures
        chronological(emails).len() == emails.len(),
        text::opt_text(chronological(emails).last().received_at) == text::opt_text(
            emails[i].received_at,
        ),
{
    broadcast use vstd::seq_lib::group_to_multiset_ensures;

    law_chronological_order(emails);
    let sorted = chronological(emails);
    let last = sorted.last();
    assert(sorted.to_multiset().len() == sorted.len());
    assert(emails.to_multiset().len() == emails.len());
    assert(sorted.contains(last));
    assert(emails.to_multiset().count(last) > 0);
    assert(emails.contains(last));
    let k = choose|k: int| 0 <= k < emails.len() && emails[k] == last;
    assert(!older(emails[i], emails[k]));
    assert(emails.contains(emails[i]));
    assert(sorted.to_multiset().count(emails[i]) > 0);
    assert(sorted.contains(emails[i]));
    let p = choose|p: int| 0 <= p < sorted.len() && sorted[p] == emails[i];
    law_older_total(last, emails[i]);
    if p < sorted.len() - 1 {
        assert(!older(sorted[sorted.len() - 1], sorted[p]));
    }
}

proof fn lemma_quoted(line: Seq<char>)
    ensures
        is_quoted(line) <==> exists|k: int|
            0 <= k < line.len() && #[trigger] line[k] == '>' && forall|j: int|
                0 <= j < k ==> text::is_space(#[trigger] line[j]),
{
    text::law_trimmed(line);
    let rest = text::trimmed_start(line);
    let a = choose|a: Seq<char>|
        line == #[trigger] (a + rest) && (forall|i: int|
            0 <= i < a.len() ==> text::is_space(#[trigger] a[i]));
    let n = a.len() as int;
    assert forall|j: int| 0 <= j < n implies text::is_space(#[trigger] line[j]) by {
        assert(line[j] == a[j]);
    }
    if is_quoted(line) {
        assert(line[n] == rest[0]);
    }
    if exists|k: int|
        0 <= k < line.len() && #[trigger] line[k] == '>' && forall|j: int|
            0 <= j < k ==> text::is_space(#[trigger] line[j]) {
        let k = choose|k: int|
            0 <= k < line.len() && #[trigger] line[k] == '>' && forall|j: int|
                0 <= j < k ==> text::is_space(#[trigger] line[j]);
        assert(k >= n);
        assert(line[n] == rest[0]);
        if k > n {
            assert(text::is_space(line[n]));
        }
    }
}

/// Law: of the lines of a body those stay that do not begin with `>` behind white
/// space, all of them and in order.
pub proof fn law_unquoted_lines(lines: Seq<Seq<char>>)
    ensures
        unquoted(lines) == lines.filter(
            |line: Seq<char>|
                !(exists|k: int|
                    0 <= k < line.len() && #[trigger] line[k] == '>' && forall|j: int|
                        0 <= j < k ==> text::is_space(#[trigger] line[j])),
        ),
    decreases lines.len(),
{
    reveal(Seq::filter);
    if lines.len() > 0 {
        law_unquoted_lines(lines.drop_last());
        lemma_quoted(lines.last());
    }
}

/// Law: the excerpt of a body is made of its lines that do not begin with `>`
/// behind white space, put one behind the other with white space collapsed. It is
/// cut after 280 characters, with an ellipsis where something was cut off.
pub proof fn law_excerpt_of_lines(lines: Seq<Seq<char>>)
    requires
        lines.len() > 0,
        forall|k: int| 0 <= k < lines.len() ==> !(#[trigger] lines[k]).contains('\n'),
    ensures
        ({
            let kept = lines.filter(
                |line: Seq<char>|
                    !(exists|k: int|
                        0 <= k < line.len() && #[trigger] line[k] == '>' && forall|j: int|
                            0 <= j < k ==> text::is_space(#[trigger] line[j])),
            );
            let whole = text::collapsed(text::joined(kept, seq![' ']));
            excerpt(text::joined(lines, seq!['\n'])) == if whole.len() <= 280 {
                whole
            } else {
                whole.take(280) + seq!['\u{2026}']
            }
        }),
{
    text::lemma_pieces_of_joined(lines, '\n');
    law_unquoted_lines(lines);
    let whole = text::collapsed(text::joined(unquoted(lines), seq![' ']));
    assert(whole.len() > 280 ==> whole.take(280).push('\u{2026}') =~= whole.take(280)
        + seq!['\u{2026}']);
}

/// Law: a line that is not quoted, put behind a body, adds its words to the
/// excerpt, whatever lines came before, as long as nothing has to be cut off.
pub proof fn law_unquoted_line_added(raw: Seq<char>, line: Seq<char>)
    requires
        !line.contains('\n'),
        !(exists|k: int|
            0 <= k < line.len() && #[trigger] line[k] == '>' && forall|j: int|
                0 <= j < k ==> text::is_space(#[trigger] line[j])),
        excerpt(raw).len() <= 280,
        excerpt(raw + seq!['\n'] + line).len() <= 280,
    ensures
        text::words(excerpt(raw + seq!['\n'] + line)) == text::words(excerpt(raw)) + text::words(
            line,
        ),
{
    let cut = text::Separator::Char('\n');
    lemma_quoted(line);
    text::law_pieces(raw, '\n', line, cut);
    assert forall|i: int| 0 <= i < line.len() implies !cut.cuts(#[trigger] line[i]) by {
        assert(line.contains(line[i]));
    }
    text::law_pieces(line, '\n', raw, cut);
    let lines = text::pieces(raw, cut);
    let more = lines + seq![line];
    assert(more.drop_last() =~= lines);
    let kept = unquoted(lines);
    assert(unquoted(more) == kept.push(line));
    assert(kept.push(line).drop_last() =~= kept);
    let flat = text::joined(kept, seq![' ']);
    let longer = text::joined(kept.push(line), seq![' ']);
    text::law_collapse_keeps_words(flat);
    text::law_collapse_keeps_words(longer);
    text::law_words(flat, ' ', line);
    if kept.len() == 0 {
        assert(flat =~= Seq::<char>::empty());
        assert(longer =~= line);
        assert(text::words(flat) + text::words(line) =~= text::words(line));
    } else {
        assert(longer =~= flat + seq![' '] + line);
    }
}

/// Law: what an email says is its plain-text body if it has one, else the text of
/// its HTML body, else the server's excerpt, else nothing.
pub proof fn law_body_text(email: Email)
    ensures
        email.text_body matches Some(text) ==> body_text(email) == text@,
        email.text_body is None ==> (email.html_body matches Some(html) ==> body_text(email)
            == html::html_text(html@)),
        email.text_body is None && email.html_body is None ==> (email.preview matches Some(preview)
            ==> body_text(email) == preview@),
        email.text_body is None && email.html_body is None && email.preview is None ==> body_text(
            email,
        ).len() == 0,
{
}

/// Law: an email is older than another exactly if the other has a date and it has
/// none or an earlier one.
pub proof fn law_older(a: Email, b: Email)
    ensures
        older(a, b) <==> b.received_at is Some && (a.received_at is None || text::precedes(
            a.received_at->0@,
            b.received_at->0@,
        )),
{
}

/// Law: the latest message is the first of those with its date, and no message has
/// a later one.
pub proof fn law_latest_is_first(emails: Seq<Email>, i: int, j: int)
    requires
        is_latest(emails, i),
        0 <= j < emails.len(),
    ensures
        0 <= i < emails.len(),
        !older(emails[i], emails[j]),
        text::opt_text(emails[j].received_at) == text::opt_text(emails[i].received_at) ==> i <= j,
{
    law_older_total(emails[i], emails[j]);
    if j < i && text::opt_text(emails[j].received_at) == text::opt_text(emails[i].received_at) {
        assert(older(emails[j], emails[i]));
        match (emails[i].received_at, emails[j].received_at) {
            (Some(x), Some(y)) => {
                text::law_order_total(x@, y@);
            },
            _ => {},
        }
    }
}

/// Law: references stand for the emails behind them, each in its place.
pub proof fn law_pointees(emails: Seq<&Email>)
    ensures
        pointees(emails).len() == emails.len(),
        forall|i: int| 0 <= i < emails.len() ==> #[trigger] pointees(emails)[i] == *emails[i],
{
}

/// Law: what is printed is a text as it stands, or else JSON.
pub proof fn law_rendering(rendering: Rendering)
    ensures
        rendering is Json ==> rendering@ is None,
        rendering matches Rendering::Raw(text) ==> rendering@ == Some(text@),
{
}

/// Law: in order of age there are as many emails as before, each as often as before, none
/// behind one that is newer, and those of one date in the order in which they came.
pub proof fn law_oldest_first(emails: Seq<Email>, i: int, j: int, date: Option<Seq<char>>)
    requires
        0 <= i < j < emails.len(),
    ensures
        chronological(emails).len() == emails.len(),
        chronological(emails).to_multiset() == emails.to_multiset(),
        !older(chronological(emails)[j], chronological(emails)[i]),
        chronological(emails).filter(|email: Email| text::opt_text(email.received_at) == date)
            == emails.filter(|email: Email| text::opt_text(email.received_at) == date),
{
    broadcast use vstd::seq_lib::group_to_multiset_ensures;

    law_chronological_order(emails);
    law_chronological_stable(emails, date);
    let sorted = chronological(emails);
    assert(sorted.len() == sorted.to_multiset().len());
    assert(emails.len() == emails.to_multiset().len());
}

} // verus!
