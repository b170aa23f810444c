//! Search filters, and how a search goes.

use crate::models;
use crate::models::{borrow_text, clone_text, clone_texts, sender_domain_matches, Email};
use crate::text;
use crate::thread;
use vstd::prelude::*;
use vstd::std_specs::convert::FromSpecImpl;

verus! {

/// What emails a search is for: all conditions must hold.
#[derive(Debug)]
pub struct SearchFilter {
    /// Full text.
    pub text: Option<String>,
    /// Part of the From header.
    pub from: Option<String>,
    /// Part of the To header.
    pub to: Option<String>,
    /// Part of the Cc header.
    pub cc: Option<String>,
    /// Part of the Bcc header.
    pub bcc: Option<String>,
    /// Part of the subject.
    pub subject: Option<String>,
    /// Part of the body.
    pub body: Option<String>,
    /// The name of the mailbox.
    pub mailbox: Option<String>,
    /// Only emails with attachments.
    pub has_attachment: bool,
    /// The least size in bytes.
    pub min_size: Option<u32>,
    /// The greatest size in bytes.
    pub max_size: Option<u32>,
    /// Received before that date.
    pub before: Option<String>,
    /// Received on that date or after it.
    pub after: Option<String>,
    /// Only unread emails.
    pub unread: bool,
    /// Only flagged emails.
    pub flagged: bool,
    /// The exact domain of the sender, subdomains excluded. The server cannot
    /// ask for it, so its answer is filtered once more.
    pub from_domain: Option<String>,
    /// Keywords that must be present.
    pub keyword: Vec<String>,
    /// Keywords that must be absent.
    pub not_keyword: Vec<String>,
}

/// Whether a filter holds no condition.
pub open spec fn unconditional(filter: SearchFilter) -> bool {
    &&& filter.text is None
    &&& filter.from is None
    &&& filter.to is None
    &&& filter.cc is None
    &&& filter.bcc is None
    &&& filter.subject is None
    &&& filter.body is None
    &&& filter.mailbox is None
    &&& !filter.has_attachment
    &&& filter.min_size is None
    &&& filter.max_size is None
    &&& filter.before is None
    &&& filter.after is None
    &&& !filter.unread
    &&& !filter.flagged
    &&& filter.from_domain is None
    &&& filter.keyword@.len() == 0
    &&& filter.not_keyword@.len() == 0
}

impl Default for SearchFilter {
    fn default() -> (r: Self)
        ensures
            unconditional(r),
    {
        SearchFilter {
            text: None,
            from: None,
            to: None,
            cc: None,
            bcc: None,
            subject: None,
            body: None,
            mailbox: None,
            has_attachment: false,
            min_size: None,
            max_size: None,
            before: None,
            after: None,
            unread: false,
            flagged: false,
            from_domain: None,
            keyword: Vec::new(),
            not_keyword: Vec::new(),
        }
    }
}

impl Clone for SearchFilter {
    fn clone(&self) -> (r: Self)
        ensures
            r.keyword@ == self.keyword@,
            r.not_keyword@ == self.not_keyword@,
            r == (SearchFilter { keyword: r.keyword, not_keyword: r.not_keyword, ..*self }),
    {
        SearchFilter {
            text: clone_text(&self.text),
            from: clone_text(&self.from),
            to: clone_text(&self.to),
            cc: clone_text(&self.cc),
            bcc: clone_text(&self.bcc),
            subject: clone_text(&self.subject),
            body: clone_text(&self.body),
            mailbox: clone_text(&self.mailbox),
            has_attachment: self.has_attachment,
            min_size: self.min_size,
            max_size: self.max_size,
            before: clone_text(&self.before),
            after: clone_text(&self.after),
            unread: self.unread,
            flagged: self.flagged,
            from_domain: clone_text(&self.from_domain),
            keyword: clone_texts(&self.keyword),
            not_keyword: clone_texts(&self.not_keyword),
        }
    }
}

impl SearchFilter {
    /// Whether no condition is set. Bulk commands tell by it whether they were
    /// given a filter or explicit identifiers.
    pub fn is_empty(&self) -> (r: bool)
        ensures
            r == unconditional(*self),
    {
        self.text.is_none() && self.from.is_none() && self.to.is_none() && self.cc.is_none()
            && self.bcc.is_none() && self.subject.is_none() && self.body.is_none()
            && self.mailbox.is_none() && !self.has_attachment && self.min_size.is_none()
            && self.max_size.is_none() && self.before.is_none() && self.after.is_none()
            && !self.unread && !self.flagged && self.from_domain.is_none() && self.keyword.len()
            == 0 && self.not_keyword.len() == 0
    }
}

/// The filter flags of every command that takes a filter.
#[derive(Debug)]
pub struct BaseFilterArgs {
    /// See [`SearchFilter::text`].
    pub text: Option<String>,
    /// See [`SearchFilter::from`].
    pub from: Option<String>,
    /// See [`SearchFilter::from_domain`].
    pub from_domain: Option<String>,
    /// See [`SearchFilter::to`].
    pub to: Option<String>,
    /// See [`SearchFilter::cc`].
    pub cc: Option<String>,
    /// See [`SearchFilter::bcc`].
    pub bcc: Option<String>,
    /// See [`SearchFilter::subject`].
    pub subject: Option<String>,
    /// See [`SearchFilter::body`].
    pub body: Option<String>,
    /// See [`SearchFilter::mailbox`].
    pub mailbox: Option<String>,
    /// See [`SearchFilter::has_attachment`].
    pub has_attachment: bool,
    /// See [`SearchFilter::min_size`].
    pub min_size: Option<u32>,
    /// See [`SearchFilter::max_size`].
    pub max_size: Option<u32>,
    /// See [`SearchFilter::before`].
    pub before: Option<String>,
    /// See [`SearchFilter::after`].
    pub after: Option<String>,
    /// See [`SearchFilter::unread`].
    pub unread: bool,
    /// See [`SearchFilter::flagged`].
    pub flagged: bool,
}

/// The filter flags on keywords. The `flag` command has none of them: there
/// `--keyword` names what to set.
#[derive(Debug)]
pub struct KeywordSelectArgs {
    /// See [`SearchFilter::keyword`].
    pub keyword: Vec<String>,
    /// See [`SearchFilter::not_keyword`].
    pub not_keyword: Vec<String>,
}

impl Default for KeywordSelectArgs {
    fn default() -> (r: Self)
        ensures
            r.keyword@.len() == 0,
            r.not_keyword@.len() == 0,
    {
        KeywordSelectArgs { keyword: Vec::new(), not_keyword: Vec::new() }
    }
}

/// All filter flags.
#[derive(Debug)]
pub struct FilterArgs {
    /// The flags that every command has.
    pub base: BaseFilterArgs,
    /// The flags on keywords.
    pub keywords: KeywordSelectArgs,
}

/// The filter that flags ask for.
pub open spec fn filter_of(base: BaseFilterArgs, keywords: KeywordSelectArgs) -> SearchFilter {
    SearchFilter {
        text: base.text,
        from: base.from,
        to: base.to,
        cc: base.cc,
        bcc: base.bcc,
        subject: base.subject,
        body: base.body,
        mailbox: base.mailbox,
        has_attachment: base.has_attachment,
        min_size: base.min_size,
        max_size: base.max_size,
        before: base.before,
        after: base.after,
        unread: base.unread,
        flagged: base.flagged,
        from_domain: base.from_domain,
        keyword: keywords.keyword,
        not_keyword: keywords.not_keyword,
    }
}

impl BaseFilterArgs {
    /// The filter that these flags and those on keywords ask for.
    pub fn into_filter(self, keywords: KeywordSelectArgs) -> (r: SearchFilter)
        ensures
            r == filter_of(self, keywords),
    {
        SearchFilter {
            text: self.text,
            from: self.from,
            to: self.to,
            cc: self.cc,
            bcc: self.bcc,
            subject: self.subject,
            body: self.body,
            mailbox: self.mailbox,
            has_attachment: self.has_attachment,
            min_size: self.min_size,
            max_size: self.max_size,
            before: self.before,
            after: self.after,
            unread: self.unread,
            flagged: self.flagged,
            from_domain: self.from_domain,
            keyword: keywords.keyword,
            not_keyword: keywords.not_keyword,
        }
    }
}

impl From<FilterArgs> for SearchFilter {
    fn from(a: FilterArgs) -> (r: Self) {
        a.base.into_filter(a.keywords)
    }
}

impl FromSpecImpl<FilterArgs> for SearchFilter {
    open spec fn obeys_from_spec() -> bool {
        true
    }

    open spec fn from_spec(a: FilterArgs) -> SearchFilter {
        filter_of(a.base, a.keywords)
    }
}

/// Whether an email passes the condition that only a look at its sender can
/// decide.
pub open spec fn passes(email: Email, filter: SearchFilter) -> bool {
    match filter.from_domain {
        Some(domain) => models::is_from_domain(email, domain@),
        None => true,
    }
}

proof fn lemma_filter_step(emails: Seq<Email>, k: int, keep: spec_fn(Email) -> bool)
    requires
        0 <= k < emails.len(),
    ensures
        emails.take(k + 1).filter(keep) == if keep(emails[k]) {
            emails.take(k).filter(keep).push(emails[k])
        } else {
            emails.take(k).filter(keep)
        },
{
    reveal(Seq::filter);
    assert(emails.take(k + 1).drop_last() =~= emails.take(k));
}

/// Keeps of a server's answer the emails that the filter is for, in order: those
/// from the filter's sender domain where it names one, else all.
pub fn resolve_filter_ids(emails: Vec<Email>, filter: &SearchFilter) -> (r: Vec<Email>)
    ensures
        r@ == emails@.filter(|email: Email| passes(email, *filter)),
{
    let ghost keep = |email: Email| passes(email, *filter);
    let ghost all = emails@;
    let ghost mut seen: int = 0;
    let mut kept = emails;
    let mut i: usize = 0;
    proof {
        reveal(Seq::filter);
        assert(all.take(0).filter(keep) =~= Seq::<Email>::empty());
        assert(all.skip(0) =~= all);
    }
    while i < kept.len()
        invariant
            keep == (|email: Email| passes(email, *filter)),
            0 <= seen <= all.len(),
            i == all.take(seen).filter(keep).len(),
            kept@ == all.take(seen).filter(keep) + all.skip(seen),
        decreases all.len() - seen,
    {
        let ghost head = all.take(seen).filter(keep);
        proof {
            lemma_filter_step(all, seen, keep);
            assert(kept@[i as int] == all[seen]);
        }
        let wanted = match &filter.from_domain {
            Some(domain) => sender_domain_matches(&kept[i], domain.as_str()),
            None => true,
        };
        if wanted {
            i = i + 1;
            assert(kept@ =~= head.push(all[seen]) + all.skip(seen + 1));
        } else {
            kept.remove(i);
            assert(kept@ =~= head + all.skip(seen + 1));
        }
        proof {
            seen = seen + 1;
        }
    }
    proof {
        assert(seen == all.len());
        assert(all.take(seen) =~= all);
        assert(kept@ =~= all.filter(keep));
    }
    kept
}

/// What a condition of a query asks for.
#[derive(Debug)]
pub enum Wanted<'a> {
    /// A text.
    Text(&'a str),
    /// A number.
    Number(u32),
    /// That it holds.
    Yes,
}

/// A [`Wanted`] with its text as a sequence of characters.
pub enum WantedView {
    /// See [`Wanted::Text`].
    Text(Seq<char>),
    /// See [`Wanted::Number`].
    Number(u32),
    /// See [`Wanted::Yes`].
    Yes,
}

/// A condition of a query: what it is on, and what it asks for.
#[derive(Debug)]
pub struct Condition<'a> {
    /// What it is on.
    pub name: &'a str,
    /// What it asks for.
    pub wanted: Wanted<'a>,
}

impl<'a> View for Condition<'a> {
    type V = (Seq<char>, WantedView);

    open spec fn view(&self) -> (Seq<char>, WantedView) {
        (
            self.name@,
            match self.wanted {
                Wanted::Text(text) => WantedView::Text(text@),
                Wanted::Number(n) => WantedView::Number(n),
                Wanted::Yes => WantedView::Yes,
            },
        )
    }
}

/// The views of the conditions.
pub open spec fn condition_views(conditions: Seq<Condition>) -> Seq<(Seq<char>, WantedView)> {
    conditions.map_values(|condition: Condition| condition@)
}

/// The condition on a text, if one is asked for.
pub open spec fn text_condition(name: Seq<char>, text: Option<Seq<char>>) -> Seq<
    (Seq<char>, WantedView),
> {
    match text {
        Some(text) => seq![(name, WantedView::Text(text))],
        None => Seq::<(Seq<char>, WantedView)>::empty(),
    }
}

/// The condition on a number, if one is asked for.
pub open spec fn number_condition(name: Seq<char>, n: Option<u32>) -> Seq<
    (Seq<char>, WantedView),
> {
    match n {
        Some(n) => seq![(name, WantedView::Number(n))],
        None => Seq::<(Seq<char>, WantedView)>::empty(),
    }
}

/// A condition, if it is asked for.
pub open spec fn flag_condition(asked: bool, condition: (Seq<char>, WantedView)) -> Seq<
    (Seq<char>, WantedView),
> {
    if asked {
        seq![condition]
    } else {
        Seq::<(Seq<char>, WantedView)>::empty()
    }
}

/// A condition on each of the keywords.
pub open spec fn keyword_conditions(name: Seq<char>, keywords: Seq<String>) -> Seq<
    (Seq<char>, WantedView),
> {
    keywords.map_values(|keyword: String| (name, WantedView::Text(keyword@)))
}

/// The conditions that the server is asked for, given the identifier of the
/// filter's mailbox. All must hold. The sender's domain is not among them: the
/// server knows only parts of the From header.
pub open spec fn query_conditions(filter: SearchFilter, mailbox: Option<Seq<char>>) -> Seq<
    (Seq<char>, WantedView),
> {
    text_condition("text"@, text::opt_text(filter.text)) + text_condition(
        "from"@,
        text::opt_text(filter.from),
    ) + text_condition("to"@, text::opt_text(filter.to)) + text_condition(
        "cc"@,
        text::opt_text(filter.cc),
    ) + text_condition("bcc"@, text::opt_text(filter.bcc)) + text_condition(
        "subject"@,
        text::opt_text(filter.subject),
    ) + text_condition("body"@, text::opt_text(filter.body)) + text_condition(
        "inMailbox"@,
        mailbox,
    ) + flag_condition(filter.has_attachment, ("hasAttachment"@, WantedView::Yes))
        + number_condition("minSize"@, filter.min_size) + number_condition(
        "maxSize"@,
        filter.max_size,
    ) + text_condition("before"@, text::opt_text(filter.before)) + text_condition(
        "after"@,
        text::opt_text(filter.after),
    ) + flag_condition(filter.unread, ("notKeyword"@, WantedView::Text("$seen"@)))
        + flag_condition(filter.flagged, ("hasKeyword"@, WantedView::Text("$flagged"@)))
        + keyword_conditions("hasKeyword"@, filter.keyword@) + keyword_conditions(
        "notKeyword"@,
        filter.not_keyword@,
    )
}

fn push_condition<'a>(out: &mut Vec<Condition<'a>>, name: &'a str, wanted: Wanted<'a>)
    ensures
        condition_views(final(out)@) == condition_views(old(out)@).push(
            (Condition { name, wanted })@,
        ),
{
    let ghost before = out@;
    let ghost new = Condition { name, wanted };
    out.push(Condition { name, wanted });
    assert(condition_views(out@) =~= condition_views(before).push(new@));
}

fn push_text<'a>(out: &mut Vec<Condition<'a>>, name: &'a str, text: Option<&'a str>)
    ensures
        condition_views(final(out)@) == condition_views(old(out)@) + text_condition(
            name@,
            text::opt_str(text),
        ),
{
    match text {
        Some(text) => push_condition(out, name, Wanted::Text(text)),
        None => {},
    }
    assert(condition_views(out@) =~= condition_views(old(out)@) + text_condition(
        name@,
        text::opt_str(text),
    ));
}

fn push_number<'a>(out: &mut Vec<Condition<'a>>, name: &'a str, n: Option<u32>)
    ensures
        condition_views(final(out)@) == condition_views(old(out)@) + number_condition(name@, n),
{
    match n {
        Some(n) => push_condition(out, name, Wanted::Number(n)),
        None => {},
    }
    assert(condition_views(out@) =~= condition_views(old(out)@) + number_condition(name@, n));
}

fn push_flag<'a>(out: &mut Vec<Condition<'a>>, asked: bool, name: &'a str, wanted: Wanted<'a>)
    ensures
        condition_views(final(out)@) == condition_views(old(out)@) + flag_condition(
            asked,
            (Condition { name, wanted })@,
        ),
{
    let ghost new = Condition { name, wanted };
    if asked {
        push_condition(out, name, wanted);
    }
    assert(condition_views(out@) =~= condition_views(old(out)@) + flag_condition(asked, new@));
}

fn push_keywords<'a>(out: &mut Vec<Condition<'a>>, name: &'a str, keywords: &'a Vec<String>)
    ensures
        condition_views(final(out)@) == condition_views(old(out)@) + keyword_conditions(
            name@,
            keywords@,
        ),
{
    let ghost start = condition_views(out@);
    let ghost all = keyword_conditions(name@, keywords@);
    let mut i: usize = 0;
    assert(start + all.take(0) =~= start);
    while i < keywords.len()
        invariant
            i <= keywords@.len(),
            all == keyword_conditions(name@, keywords@),
            condition_views(out@) == start + all.take(i as int),
        decreases keywords@.len() - i,
    {
        push_condition(out, name, Wanted::Text(keywords[i].as_str()));
        i = i + 1;
        assert(condition_views(out@) =~= start + all.take(i as int));
    }
    assert(all.take(all.len() as int) =~= all);
}

/// The conditions that the server is asked for, given the identifier of the
/// filter's mailbox.
pub fn conditions<'a>(filter: &'a SearchFilter, mailbox: Option<&'a str>) -> (r: Vec<
    Condition<'a>,
>)
    ensures
        condition_views(r@) == query_conditions(*filter, text::opt_str(mailbox)),
{
    let mut out: Vec<Condition<'a>> = Vec::new();
    assert(condition_views(out@) =~= Seq::<(Seq<char>, WantedView)>::empty());
    push_text(&mut out, "text", borrow_text(&filter.text));
    assert(condition_views(out@) =~= text_condition("text"@, text::opt_text(filter.text)));
    push_text(&mut out, "from", borrow_text(&filter.from));
    push_text(&mut out, "to", borrow_text(&filter.to));
    push_text(&mut out, "cc", borrow_text(&filter.cc));
    push_text(&mut out, "bcc", borrow_text(&filter.bcc));
    push_text(&mut out, "subject", borrow_text(&filter.subject));
    push_text(&mut out, "body", borrow_text(&filter.body));
    push_text(&mut out, "inMailbox", mailbox);
    push_flag(&mut out, filter.has_attachment, "hasAttachment", Wanted::Yes);
    push_number(&mut out, "minSize", filter.min_size);
    push_number(&mut out, "maxSize", filter.max_size);
    push_text(&mut out, "before", borrow_text(&filter.before));
    push_text(&mut out, "after", borrow_text(&filter.after));
    push_flag(&mut out, filter.unread, "notKeyword", Wanted::Text("$seen"));
    push_flag(&mut out, filter.flagged, "hasKeyword", Wanted::Text("$flagged"));
    push_keywords(&mut out, "hasKeyword", &filter.keyword);
    push_keywords(&mut out, "notKeyword", &filter.not_keyword);
    out
}

/// Law: with a filter that names no mailbox and no sender's domain, the server is
/// asked for no condition exactly if the filter sets none and no mailbox is given.
pub proof fn law_open_query(filter: SearchFilter, mailbox: Option<Seq<char>>)
    requires
        filter.mailbox is None,
        filter.from_domain is None,
    ensures
        query_conditions(filter, mailbox).len() == 0 <==> unconditional(filter) && mailbox is None,
{
}

/// Where the emails of a search come from.
#[derive(Debug)]
pub enum Source<'a> {
    /// What has changed since a state.
    Changes(&'a str),
    /// A query.
    Query {
        /// How many emails to return at most.
        limit: u32,
        /// How many to pass over.
        offset: u32,
    },
}

/// How a search goes.
#[derive(Debug)]
pub struct SearchPlan<'a> {
    /// The mailbox to look up first, by its name.
    pub mailbox: Option<&'a str>,
    /// Where the emails come from.
    pub source: Source<'a>,
}

/// How a search goes: the mailbox that the filter names is looked up, and with a
/// state to start from the changes since are read in place of a query.
pub fn search<'a>(
    filter: &'a SearchFilter,
    limit: u32,
    offset: u32,
    since: Option<&'a str>,
) -> (r: SearchPlan<'a>)
    ensures
        text::opt_str(r.mailbox) == text::opt_text(filter.mailbox),
        match since {
            Some(state) => r.source == Source::Changes(state),
            None => r.source == (Source::Query { limit, offset }),
        },
{
    SearchPlan {
        mailbox: borrow_text(&filter.mailbox),
        source: match since {
            Some(state) => Source::Changes(state),
            None => Source::Query { limit, offset },
        },
    }
}

/// What has changed since a state.
#[derive(Debug)]
pub struct EmailChanges {
    /// The state after the changes.
    pub new_state: String,
    /// The emails that were created.
    pub created: Vec<Email>,
    /// The emails that were updated.
    pub updated: Vec<Email>,
    /// The identifiers of the emails that were destroyed.
    pub destroyed: Vec<String>,
}

/// A server's answer to a query.
#[derive(Debug)]
pub struct QueryResult {
    /// The emails.
    pub emails: Vec<Email>,
    /// The state of the query.
    pub state: String,
    /// How many emails there are in all.
    pub total: Option<u64>,
    /// The position of the first.
    pub position: u64,
}

/// What a search reports.
#[derive(Debug)]
pub enum SearchReport {
    /// What has changed, and the state to start from the next time.
    Changes(EmailChanges),
    /// What was found.
    Matches {
        /// The state to start from the next time. It is that of all emails, not
        /// that of the query.
        state: String,
        /// What was found, with the state of the query.
        result: QueryResult,
    },
}

/// The emails of a report, in the order in which they are printed.
pub open spec fn reported(report: SearchReport) -> Seq<Email> {
    match report {
        SearchReport::Changes(changes) => changes.created@ + changes.updated@,
        SearchReport::Matches { state, result } => result.emails@,
    }
}

/// The report of a query: the emails that the filter is for, with the state to
/// start from the next time.
pub fn query_report(result: QueryResult, filter: &SearchFilter, checkpoint: String) -> (r:
    SearchReport)
    ensures
        r matches SearchReport::Matches { state, result: shown } && state == checkpoint
            && shown.state == result.state && shown.total == result.total && shown.position
            == result.position && shown.emails@ == result.emails@.filter(
            |email: Email| passes(email, *filter),
        ),
{
    SearchReport::Matches {
        state: checkpoint,
        result: QueryResult {
            emails: resolve_filter_ids(result.emails, filter),
            state: result.state,
            total: result.total,
            position: result.position,
        },
    }
}

/// The report of a mailbox's emails: that of a query without a filter.
pub fn list_emails(result: QueryResult, checkpoint: String) -> (r: SearchReport)
    ensures
        r matches SearchReport::Matches { state, result: shown } && state == checkpoint
            && shown.state == result.state && shown.total == result.total && shown.position
            == result.position && shown.emails@ == result.emails@,
{
    let filter = SearchFilter::default();
    proof {
        law_domain_filter(result.emails@, filter);
    }
    query_report(result, &filter, checkpoint)
}

fn push_all<'a>(out: &mut Vec<&'a Email>, emails: &'a Vec<Email>)
    ensures
        thread::pointees(final(out)@) == thread::pointees(old(out)@) + emails@,
{
    let ghost start = thread::pointees(out@);
    let mut i: usize = 0;
    assert(start + emails@.take(0) =~= start);
    while i < emails.len()
        invariant
            i <= emails@.len(),
            thread::pointees(out@) == start + emails@.take(i as int),
        decreases emails@.len() - i,
    {
        let ghost before = out@;
        out.push(&emails[i]);
        assert(thread::pointees(out@) =~= thread::pointees(before).push(emails@[i as int]));
        i = i + 1;
        assert(thread::pointees(out@) =~= start + emails@.take(i as int));
    }
    assert(emails@.take(emails@.len() as int) =~= emails@);
}

/// The emails of a report, in the order in which they are printed one per line.
/// Created emails come before updated ones.
pub fn report_lines<'a>(report: &'a SearchReport) -> (r: Vec<&'a Email>)
    ensures
        thread::pointees(r@) == reported(*report),
{
    let mut out: Vec<&'a Email> = Vec::new();
    assert(thread::pointees(out@) =~= Seq::<Email>::empty());
    match report {
        SearchReport::Changes(changes) => {
            push_all(&mut out, &changes.created);
            push_all(&mut out, &changes.updated);
        },
        SearchReport::Matches { state, result } => {
            push_all(&mut out, &result.emails);
        },
    }
    assert(thread::pointees(out@) =~= reported(*report));
    out
}

/// Law: filtering by the sender's domain keeps only emails from it, and filtering
/// again changes nothing.
pub proof fn law_domain_filter(emails: Seq<Email>, filter: SearchFilter)
    ensures
        ({
            let kept = emails.filter(|email: Email| passes(email, filter));
            &&& forall|i: int| 0 <= i < kept.len() ==> passes(#[trigger] kept[i], filter)
            &&& kept.filter(|email: Email| passes(email, filter)) == kept
            &&& filter.from_domain is None ==> kept == emails
        }),
    decreases emails.len(),
{
    reveal(Seq::filter);
    let keep = |email: Email| passes(email, filter);
    let kept = emails.filter(keep);
    if emails.len() > 0 {
        let front = emails.drop_last();
        law_domain_filter(front, filter);
        if keep(emails.last()) {
            assert(kept.drop_last() =~= front.filter(keep));
            assert(emails =~= front.push(emails.last()));
        }
    }
}

/// What two lists hold together is what either holds.
proof fn lemma_concat_contains(
    a: Seq<(Seq<char>, WantedView)>,
    b: Seq<(Seq<char>, WantedView)>,
    x: (Seq<char>, WantedView),
)
    ensures
        (a + b).contains(x) <==> a.contains(x) || b.contains(x),
{
    let all = a + b;
    if all.contains(x) {
        let k = choose|k: int| 0 <= k < all.len() && all[k] == x;
        if k < a.len() {
            assert(a[k] == x);
        } else {
            assert(b[k - a.len()] == x);
        }
    }
    if a.contains(x) {
        let k = choose|k: int| 0 <= k < a.len() && a[k] == x;
        assert(all[k] == x);
    }
    if b.contains(x) {
        let k = choose|k: int| 0 <= k < b.len() && b[k] == x;
        assert(all[a.len() + k] == x);
    }
}

/// What the conditions of the parts of a query are.
proof fn lemma_part_contains(
    name: Seq<char>,
    text: Option<Seq<char>>,
    n: Option<u32>,
    asked: bool,
    condition: (Seq<char>, WantedView),
    keywords: Seq<String>,
    x: (Seq<char>, WantedView),
)
    ensures
        text_condition(name, text).contains(x) <==> x.0 == name && text is Some && x.1
            == WantedView::Text(text->0),
        number_condition(name, n).contains(x) <==> x.0 == name && n is Some && x.1
            == WantedView::Number(n->0),
        flag_condition(asked, condition).contains(x) <==> asked && x == condition,
        keyword_conditions(name, keywords).contains(x) <==> x.0 == name && exists|i: int|
            0 <= i < keywords.len() && x.1 == WantedView::Text((#[trigger] keywords[i])@),
{
    if text is Some {
        assert(text_condition(name, text)[0] == (name, WantedView::Text(text->0)));
    }
    if n is Some {
        assert(number_condition(name, n)[0] == (name, WantedView::Number(n->0)));
    }
    if asked {
        assert(flag_condition(asked, condition)[0] == condition);
    }
    let all = keyword_conditions(name, keywords);
    if all.contains(x) {
        let i = choose|i: int| 0 <= i < all.len() && all[i] == x;
        assert(x.1 == WantedView::Text(keywords[i]@));
    }
    if x.0 == name && exists|i: int|
        0 <= i < keywords.len() && x.1 == WantedView::Text((#[trigger] keywords[i])@) {
        let i = choose|i: int|
            0 <= i < keywords.len() && x.1 == WantedView::Text((#[trigger] keywords[i])@);
        assert(all[i] == x);
    }
}

/// What the lists of conditions hold together is what any of them holds.
proof fn lemma_all_contain(
    p0: Seq<(Seq<char>, WantedView)>,
    p1: Seq<(Seq<char>, WantedView)>,
    p2: Seq<(Seq<char>, WantedView)>,
    p3: Seq<(Seq<char>, WantedView)>,
    p4: Seq<(Seq<char>, WantedView)>,
    p5: Seq<(Seq<char>, WantedView)>,
    p6: Seq<(Seq<char>, WantedView)>,
    p7: Seq<(Seq<char>, WantedView)>,
    p8: Seq<(Seq<char>, WantedView)>,
    p9: Seq<(Seq<char>, WantedView)>,
    p10: Seq<(Seq<char>, WantedView)>,
    p11: Seq<(Seq<char>, WantedView)>,
    p12: Seq<(Seq<char>, WantedView)>,
    p13: Seq<(Seq<char>, WantedView)>,
    p14: Seq<(Seq<char>, WantedView)>,
    p15: Seq<(Seq<char>, WantedView)>,
    p16: Seq<(Seq<char>, WantedView)>,
    x: (Seq<char>, WantedView),
)
    ensures
        (p0 + p1 + p2 + p3 + p4 + p5 + p6 + p7 + p8 + p9 + p10 + p11 + p12 + p13 + p14 + p15
            + p16).contains(x) <==> {
            ||| p0.contains(x)
            ||| p1.contains(x)
            ||| p2.contains(x)
            ||| p3.contains(x)
            ||| p4.contains(x)
            ||| p5.contains(x)
            ||| p6.contains(x)
            ||| p7.contains(x)
            ||| p8.contains(x)
            ||| p9.contains(x)
            ||| p10.contains(x)
            ||| p11.contains(x)
            ||| p12.contains(x)
            ||| p13.contains(x)
            ||| p14.contains(x)
            ||| p15.contains(x)
            ||| p16.contains(x)
        },
{
    let s1 = p0 + p1;
    lemma_concat_contains(p0, p1, x);
    let s2 = s1 + p2;
    lemma_concat_contains(s1, p2, x);
    let s3 = s2 + p3;
    lemma_concat_contains(s2, p3, x);
    let s4 = s3 + p4;
    lemma_concat_contains(s3, p4, x);
    let s5 = s4 + p5;
    lemma_concat_contains(s4, p5, x);
    let s6 = s5 + p6;
    lemma_concat_contains(s5, p6, x);
    let s7 = s6 + p7;
    lemma_concat_contains(s6, p7, x);
    let s8 = s7 + p8;
    lemma_concat_contains(s7, p8, x);
    let s9 = s8 + p9;
    lemma_concat_contains(s8, p9, x);
    let s10 = s9 + p10;
    lemma_concat_contains(s9, p10, x);
    let s11 = s10 + p11;
    lemma_concat_contains(s10, p11, x);
    let s12 = s11 + p12;
    lemma_concat_contains(s11, p12, x);
    let s13 = s12 + p13;
    lemma_concat_contains(s12, p13, x);
    let s14 = s13 + p14;
    lemma_concat_contains(s13, p14, x);
    let s15 = s14 + p15;
    lemma_concat_contains(s14, p15, x);
    let s16 = s15 + p16;
    lemma_concat_contains(s15, p16, x);
}

/// Law: every condition that a filter sets is among those that the server is asked
/// for, each keyword with one of its own, and the server is asked for no other.
pub proof fn law_conditions_complete(
    filter: SearchFilter,
    mailbox: Option<Seq<char>>,
    name: Seq<char>,
    wanted: WantedView,
)
    ensures
        query_conditions(filter, mailbox).contains((name, wanted)) <==> {
            ||| name == "text"@ && filter.text is Some && wanted == WantedView::Text(
                filter.text->0@,
            )
            ||| name == "from"@ && filter.from is Some && wanted == WantedView::Text(
                filter.from->0@,
            )
            ||| name == "to"@ && filter.to is Some && wanted == WantedView::Text(filter.to->0@)
            ||| name == "cc"@ && filter.cc is Some && wanted == WantedView::Text(filter.cc->0@)
            ||| name == "bcc"@ && filter.bcc is Some && wanted == WantedView::Text(filter.bcc->0@)
            ||| name == "subject"@ && filter.subject is Some && wanted == WantedView::Text(
                filter.subject->0@,
            )
            ||| name == "body"@ && filter.body is Some && wanted == WantedView::Text(
                filter.body->0@,
            )
            ||| name == "inMailbox"@ && mailbox is Some && wanted == WantedView::Text(mailbox->0)
            ||| name == "hasAttachment"@ && filter.has_attachment && wanted == WantedView::Yes
            ||| name == "minSize"@ && filter.min_size is Some && wanted == WantedView::Number(
                filter.min_size->0,
            )
            ||| name == "maxSize"@ && filter.max_size is Some && wanted == WantedView::Number(
                filter.max_size->0,
            )
            ||| name == "before"@ && filter.before is Some && wanted == WantedView::Text(
                filter.before->0@,
            )
            ||| name == "after"@ && filter.after is Some && wanted == WantedView::Text(
                filter.after->0@,
            )
            ||| name == "notKeyword"@ && filter.unread && wanted == WantedView::Text("$seen"@)
            ||| name == "hasKeyword"@ && filter.flagged && wanted == WantedView::Text("$flagged"@)
            ||| name == "hasKeyword"@ && exists|i: int|
                0 <= i < filter.keyword@.len() && wanted == WantedView::Text(
                    (#[trigger] filter.keyword@[i])@,
                )
            ||| name == "notKeyword"@ && exists|i: int|
                0 <= i < filter.not_keyword@.len() && wanted == WantedView::Text(
                    (#[trigger] filter.not_keyword@[i])@,
                )
        },
{
    let x = (name, wanted);
    let yes = ("hasAttachment"@, WantedView::Yes);
    let unread = ("notKeyword"@, WantedView::Text("$seen"@));
    let flagged = ("hasKeyword"@, WantedView::Text("$flagged"@));
    let none = Seq::<String>::empty();
    lemma_part_contains("text"@, text::opt_text(filter.text), None, false, yes, none, x);
    lemma_part_contains("from"@, text::opt_text(filter.from), None, false, yes, none, x);
    lemma_part_contains("to"@, text::opt_text(filter.to), None, false, yes, none, x);
    lemma_part_contains("cc"@, text::opt_text(filter.cc), None, false, yes, none, x);
    lemma_part_contains("bcc"@, text::opt_text(filter.bcc), None, false, yes, none, x);
    lemma_part_contains("subject"@, text::opt_text(filter.subject), None, false, yes, none, x);
    lemma_part_contains("body"@, text::opt_text(filter.body), None, false, yes, none, x);
    lemma_part_contains("inMailbox"@, mailbox, None, false, yes, none, x);
    lemma_part_contains(name, None, None, filter.has_attachment, yes, none, x);
    lemma_part_contains("minSize"@, None, filter.min_size, false, yes, none, x);
    lemma_part_contains("maxSize"@, None, filter.max_size, false, yes, none, x);
    lemma_part_contains("before"@, text::opt_text(filter.before), None, false, yes, none, x);
    lemma_part_contains("after"@, text::opt_text(filter.after), None, false, yes, none, x);
    lemma_part_contains(name, None, None, filter.unread, unread, none, x);
    lemma_part_contains(name, None, None, filter.flagged, flagged, none, x);
    lemma_part_contains("hasKeyword"@, None, None, false, yes, filter.keyword@, x);
    lemma_part_contains("notKeyword"@, None, None, false, yes, filter.not_keyword@, x);
    lemma_all_contain(
        text_condition("text"@, text::opt_text(filter.text)),
        text_condition("from"@, text::opt_text(filter.from)),
        text_condition("to"@, text::opt_text(filter.to)),
        text_condition("cc"@, text::opt_text(filter.cc)),
        text_condition("bcc"@, text::opt_text(filter.bcc)),
        text_condition("subject"@, text::opt_text(filter.subject)),
        text_condition("body"@, text::opt_text(filter.body)),
        text_condition("inMailbox"@, mailbox),
        flag_condition(filter.has_attachment, yes),
        number_condition("minSize"@, filter.min_size),
        number_condition("maxSize"@, filter.max_size),
        text_condition("before"@, text::opt_text(filter.before)),
        text_condition("after"@, text::opt_text(filter.after)),
        flag_condition(filter.unread, unread),
        flag_condition(filter.flagged, flagged),
        keyword_conditions("hasKeyword"@, filter.keyword@),
        keyword_conditions("notKeyword"@, filter.not_keyword@),
        x,
    );
}

/// Law: a filter is empty exactly if it names no mailbox and no sender's domain and
/// sets no condition that the server could be asked for.
pub proof fn law_unconditional(filter: SearchFilter)
    ensures
        unconditional(filter) <==> filter.mailbox is None && filter.from_domain is None
            && query_conditions(filter, None).len() == 0,
{
}

/// Law: every flag of a command reaches the filter.
pub proof fn law_flags_reach_filter(base: BaseFilterArgs, keywords: KeywordSelectArgs)
    ensures
        ({
            let filter = filter_of(base, keywords);
            &&& filter.text == base.text
            &&& filter.from == base.from
            &&& filter.to == base.to
            &&& filter.cc == base.cc
            &&& filter.bcc == base.bcc
            &&& filter.subject == base.subject
            &&& filter.body == base.body
            &&& filter.mailbox == base.mailbox
            &&& filter.has_attachment == base.has_attachment
            &&& filter.min_size == base.min_size
            &&& filter.max_size == base.max_size
            &&& filter.before == base.before
            &&& filter.after == base.after
            &&& filter.unread == base.unread
            &&& filter.flagged == base.flagged
            &&& filter.from_domain == base.from_domain
            &&& filter.keyword == keywords.keyword
            &&& filter.not_keyword == keywords.not_keyword
        }),
{
}

/// Law: of a server's answer all emails pass where no sender's domain is asked for,
/// else those from that domain.
pub proof fn law_passes(email: Email, filter: SearchFilter)
    ensures
        filter.from_domain is None ==> passes(email, filter),
        filter.from_domain matches Some(domain) ==> passes(email, filter) == models::is_from_domain(
            email,
            domain@,
        ),
{
}

/// Law: a report prints what was created before what was updated, and all that was
/// found.
pub proof fn law_reported(report: SearchReport)
    ensures
        report matches SearchReport::Changes(changes) ==> reported(report) == changes.created@
            + changes.updated@,
        report matches SearchReport::Matches { state, result } ==> reported(report)
            == result.emails@,
{
}

/// Law: conditions are held as what they are on and what they ask for, each in its place.
pub proof fn law_condition_views(conditions: Seq<Condition>)
    ensures
        condition_views(conditions).len() == conditions.len(),
        forall|i: int|
            0 <= i < conditions.len() ==> {
                let view = #[trigger] condition_views(conditions)[i];
                &&& view.0 == conditions[i].name@
                &&& conditions[i].wanted matches Wanted::Text(text) ==> view.1 == WantedView::Text(
                    text@,
                )
                &&& conditions[i].wanted matches Wanted::Number(n) ==> view.1
                    == WantedView::Number(n)
                &&& conditions[i].wanted is Yes ==> view.1 == WantedView::Yes
            },
{
}

} // verus!
