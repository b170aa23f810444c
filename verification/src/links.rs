//! Hyperlinks in emails, with tracking redirects stripped.

use crate::html;
use crate::html::{select_elements, Element};
use crate::models::Email;
use crate::text;
use vstd::prelude::*;
use vstd::slice::slice_subrange;
use vstd::string::*;

verus! {

/// A hyperlink of an email.
#[derive(Debug, PartialEq, Eq, Hash)]
pub struct Link {
    /// The text that is shown.
    pub text: String,
    /// Where it leads.
    pub url: String,
}

impl View for Link {
    type V = (Seq<char>, Seq<char>);

    open spec fn view(&self) -> (Seq<char>, Seq<char>) {
        (self.text@, self.url@)
    }
}

impl Clone for Link {
    fn clone(&self) -> (r: Self)
        ensures
            r == *self,
    {
        Link { text: self.text.clone(), url: self.url.clone() }
    }
}

/// The texts and targets of the links.
pub open spec fn link_views(links: Seq<Link>) -> Seq<(Seq<char>, Seq<char>)> {
    links.map_values(|link: Link| link@)
}

/// A parameter of a query.
#[derive(Debug)]
pub struct Parameter {
    /// The parameter's name.
    pub name: String,
    /// Its value.
    pub value: String,
}

impl View for Parameter {
    type V = (Seq<char>, Seq<char>);

    open spec fn view(&self) -> (Seq<char>, Seq<char>) {
        (self.name@, self.value@)
    }
}

/// The names and values of the parameters.
pub open spec fn parameter_views(query: Seq<Parameter>) -> Seq<(Seq<char>, Seq<char>)> {
    query.map_values(|parameter: Parameter| parameter@)
}

/// The parts of a URL that are read.
#[derive(Debug)]
pub struct UrlParts {
    /// The host.
    pub host: Option<String>,
    /// The parameters of the query, percent-decoded.
    pub query: Vec<Parameter>,
}

/// The host of a URL and the parameters of its query, percent-decoded; nothing
/// for a text that is no absolute URL.
pub uninterp spec fn url_parts(url: Seq<char>) -> Option<
    (Option<Seq<char>>, Seq<(Seq<char>, Seq<char>)>),
>;

/// The parts of a URL by their views.
pub open spec fn parts_view(r: Option<UrlParts>) -> Option<
    (Option<Seq<char>>, Seq<(Seq<char>, Seq<char>)>),
> {
    match r {
        Some(parts) => Some((text::opt_text(parts.host), parameter_views(parts.query@))),
        None => None,
    }
}

/// `url::Url::parse`, with `Url::host_str` and the pairs of `Url::query_pairs`.
/// The result depends on the text alone and is named [`url_parts`].
#[verifier::external_body]
fn parse_url(url: &str) -> (r: Option<UrlParts>)
    ensures
        parts_view(r) == url_parts(url@),
{
    let url = url::Url::parse(url).ok()?;
    let query = url.query_pairs().map(|(name, value)| Parameter {
        name: name.into_owned(),
        value: value.into_owned(),
    });
    Some(UrlParts { host: url.host_str().map(str::to_string), query: query.collect() })
}

/// Whether a text looks like an absolute http or https URL.
pub open spec fn is_web_url(s: Seq<char>) -> bool {
    let lower = text::lowered(text::trimmed(s));
    "http://"@.is_prefix_of(lower) || "https://"@.is_prefix_of(lower)
}

/// Whether a query parameter of that name commonly holds the target of a
/// redirect.
pub open spec fn is_redirect_name(name: Seq<char>) -> bool {
    ||| name == "url"@
    ||| name == "u"@
    ||| name == "redirect"@
    ||| name == "target"@
    ||| name == "destination"@
    ||| name == "dest"@
    ||| name == "link"@
    ||| name == "out"@
    ||| name == "to"@
}

/// Whether the host's name suggests that it tracks clicks.
pub open spec fn is_tracker(host: Seq<char>) -> bool {
    ||| text::has_part(host, "click."@)
    ||| text::has_part(host, "email."@)
    ||| text::has_part(host, "links."@)
    ||| text::has_part(host, "link."@)
    ||| text::has_part(host, "list-manage.com"@)
    ||| text::has_part(host, "sendgrid.net"@)
    ||| text::has_part(host, "mailchimp"@)
    ||| text::has_part(host, "customeriomail"@)
    ||| text::has_part(host, "sparkpostmail"@)
    ||| text::has_part(host, "mandrillapp"@)
    ||| text::has_part(host, "mailgun"@)
    ||| text::has_part(host, "cmail"@)
    ||| text::has_part(host, "hubspotlinks"@)
    ||| text::has_part(host, "clicks."@)
}

/// The first value that is a web URL, of the parameters named like a redirect's
/// target or, if `any_name`, of all.
pub open spec fn first_target(query: Seq<(Seq<char>, Seq<char>)>, any_name: bool) -> Option<
    Seq<char>,
>
    decreases query.len(),
{
    if query.len() == 0 {
        None
    } else if (any_name || is_redirect_name(query[0].0)) && is_web_url(query[0].1) {
        Some(query[0].1)
    } else {
        first_target(query.drop_first(), any_name)
    }
}

/// Where a redirect leads, given its host and query with host and names in
/// lower case: what a parameter named like a redirect's target says, else, on a
/// host that tracks clicks, what any parameter says.
pub open spec fn redirect_target(
    host: Seq<char>,
    query: Seq<(Seq<char>, Seq<char>)>,
) -> Option<Seq<char>> {
    match first_target(query, false) {
        Some(target) => Some(target),
        None => if is_tracker(host) {
            first_target(query, true)
        } else {
            None
        },
    }
}

/// The parameters with their names in lower case.
pub open spec fn lower_names(query: Seq<(Seq<char>, Seq<char>)>) -> Seq<(Seq<char>, Seq<char>)> {
    query.map_values(|p: (Seq<char>, Seq<char>)| (text::unicode_lower(p.0), p.1))
}

/// The target of a URL's outermost redirect, if it is one.
pub open spec fn unwrapped(url: Seq<char>) -> Option<Seq<char>> {
    match url_parts(url) {
        Some((host, query)) => redirect_target(
            text::unicode_lower(
                match host {
                    Some(host) => host,
                    None => ""@,
                },
            ),
            lower_names(query),
        ),
        None => None,
    }
}

/// A URL with up to `n` layers of redirects stripped.
pub open spec fn untracked(url: Seq<char>, n: nat) -> Seq<char>
    decreases n,
{
    if n == 0 {
        url
    } else {
        match unwrapped(url) {
            Some(target) if target != url => untracked(target, (n - 1) as nat),
            _ => url,
        }
    }
}

/// Whether `s` begins with `prefix`.
fn starts(s: &[char], prefix: &str) -> (r: bool)
    ensures
        r == prefix@.is_prefix_of(s@),
{
    text::begins_with(s, text::to_chars(prefix).as_slice())
}

/// Whether `part` occurs in `s`.
fn holds(s: &[char], part: &str) -> (r: bool)
    ensures
        r == text::has_part(s@, part@),
{
    text::contains_part(s, text::to_chars(part).as_slice())
}

/// Whether a text looks like an absolute http or https URL.
pub fn looks_like_http_url(s: &str) -> (r: bool)
    ensures
        r == is_web_url(s@),
{
    let chars = text::to_chars(s);
    let lower = text::to_lower(text::trim(chars.as_slice()));
    starts(lower.as_slice(), "http://") || starts(lower.as_slice(), "https://")
}

fn names_redirect(name: &str) -> (r: bool)
    ensures
        r == is_redirect_name(name@),
{
    text::same_str(name, "url") || text::same_str(name, "u") || text::same_str(name, "redirect")
        || text::same_str(name, "target") || text::same_str(name, "destination")
        || text::same_str(name, "dest") || text::same_str(name, "link") || text::same_str(
        name,
        "out",
    ) || text::same_str(name, "to")
}

fn tracks(host: &str) -> (r: bool)
    ensures
        r == is_tracker(host@),
{
    let host = text::to_chars(host);
    let host = host.as_slice();
    holds(host, "click.") || holds(host, "email.") || holds(host, "links.") || holds(host, "link.")
        || holds(host, "list-manage.com") || holds(host, "sendgrid.net") || holds(host, "mailchimp")
        || holds(host, "customeriomail") || holds(host, "sparkpostmail") || holds(
        host,
        "mandrillapp",
    ) || holds(host, "mailgun") || holds(host, "cmail") || holds(host, "hubspotlinks") || holds(
        host,
        "clicks.",
    )
}

fn find_target(query: &Vec<Parameter>, any_name: bool) -> (r: Option<String>)
    ensures
        text::opt_text(r) == first_target(parameter_views(query@), any_name),
{
    let ghost all = parameter_views(query@);
    let mut i: usize = 0;
    assert(all.skip(0) =~= all);
    while i < query.len()
        invariant
            i <= query@.len(),
            all == parameter_views(query@),
            first_target(all, any_name) == first_target(all.skip(i as int), any_name),
        decreases query@.len() - i,
    {
        assert(all.skip(i as int)[0] == query@[i as int]@);
        assert(all.skip(i as int).drop_first() =~= all.skip(i + 1));
        if (any_name || names_redirect(query[i].name.as_str())) && looks_like_http_url(
            query[i].value.as_str(),
        ) {
            return Some(query[i].value.clone());
        }
        i = i + 1;
    }
    None
}

/// Where a redirect leads, given its host and query with host and names in
/// lower case.
pub fn find_redirect_target(host: &str, query: &Vec<Parameter>) -> (r: Option<String>)
    ensures
        text::opt_text(r) == redirect_target(host@, parameter_views(query@)),
{
    match find_target(query, false) {
        Some(target) => Some(target),
        None => {
            if tracks(host) {
                find_target(query, true)
            } else {
                None
            }
        },
    }
}

/// Unwraps a single redirect: the URL inside, if one is found.
pub fn unwrap_once(url: &str) -> (r: Option<String>)
    ensures
        text::opt_text(r) == unwrapped(url@),
{
    match parse_url(url) {
        Some(parts) => {
            let host = match &parts.host {
                Some(host) => host.as_str().to_lowercase(),
                None => "".to_lowercase(),
            };
            let ghost all = parameter_views(parts.query@);
            let mut lower: Vec<Parameter> = Vec::new();
            let mut i: usize = 0;
            assert(parameter_views(lower@) =~= lower_names(all.take(0)));
            while i < parts.query.len()
                invariant
                    i <= parts.query@.len(),
                    all == parameter_views(parts.query@),
                    parameter_views(lower@) == lower_names(all.take(i as int)),
                decreases parts.query@.len() - i,
            {
                let ghost before = lower@;
                let parameter = &parts.query[i];
                let name = parameter.name.as_str().to_lowercase();
                lower.push(Parameter { name, value: parameter.value.clone() });
                assert(parameter_views(lower@) =~= parameter_views(before).push(
                    lower@[lower@.len() - 1]@,
                ));
                i = i + 1;
                assert(parameter_views(lower@) =~= lower_names(all.take(i as int)));
            }
            assert(all.take(all.len() as int) =~= all);
            find_redirect_target(host.as_str(), &lower)
        },
        None => None,
    }
}

/// Strips tracking redirects from a URL, up to three layers; a URL that wraps no
/// other is returned unchanged.
pub fn untrack(url: &str) -> (r: String)
    ensures
        r@ == untracked(url@, 3),
{
    let mut current = url.to_owned();
    let mut left: u8 = 3;
    while left > 0
        invariant
            left <= 3,
            untracked(url@, 3) == untracked(current@, left as nat),
        decreases left,
    {
        match unwrap_once(current.as_str()) {
            Some(target) => {
                if text::same_str(target.as_str(), current.as_str()) {
                    return current;
                }
                current = target;
            },
            None => {
                return current;
            },
        }
        left = left - 1;
    }
    current
}

/// Whether an address leads nowhere that could be opened: it is empty, a place
/// on the same page, a mail address, a telephone number or a script.
pub open spec fn is_skipped(href: Seq<char>) -> bool {
    ||| href.len() == 0
    ||| "#"@.is_prefix_of(href)
    ||| "mailto:"@.is_prefix_of(href)
    ||| "tel:"@.is_prefix_of(href)
    ||| "javascript:"@.is_prefix_of(href)
}

/// The link of an anchor, given its address and its text.
pub open spec fn anchor_link(anchor: (Option<Seq<char>>, Seq<char>)) -> Option<
    (Seq<char>, Seq<char>),
> {
    match anchor.0 {
        Some(href) => if is_skipped(text::trimmed(href)) {
            None
        } else {
            Some((text::collapsed(anchor.1), untracked(text::trimmed(href), 3)))
        },
        None => None,
    }
}

/// The links with one more behind them, unless it is among them already.
pub open spec fn with_link(
    links: Seq<(Seq<char>, Seq<char>)>,
    link: Option<(Seq<char>, Seq<char>)>,
) -> Seq<(Seq<char>, Seq<char>)> {
    match link {
        Some(link) => if links.contains(link) {
            links
        } else {
            links.push(link)
        },
        None => links,
    }
}

/// The links of the anchors, each once.
pub open spec fn anchor_links(anchors: Seq<(Option<Seq<char>>, Seq<char>)>) -> Seq<
    (Seq<char>, Seq<char>),
>
    decreases anchors.len(),
{
    if anchors.len() == 0 {
        Seq::<(Seq<char>, Seq<char>)>::empty()
    } else {
        with_link(anchor_links(anchors.drop_last()), anchor_link(anchors.last()))
    }
}

/// The anchors of an HTML document.
pub open spec fn anchors(html: Seq<char>) -> Seq<(Option<Seq<char>>, Seq<char>)> {
    match html::html_elements(html, "a[href]"@, "href"@) {
        Some(elements) => elements,
        None => Seq::<(Option<Seq<char>>, Seq<char>)>::empty(),
    }
}

/// Whether the character is punctuation that ends a sentence rather than a URL.
pub open spec fn is_trailing(c: char) -> bool {
    c == '.' || c == ',' || c == ')' || c == ']' || c == '!' || c == ';'
}

/// A text without the punctuation at its end.
pub open spec fn without_trailing(s: Seq<char>) -> Seq<char>
    decreases s.len(),
{
    if s.len() > 0 && is_trailing(s.last()) {
        without_trailing(s.drop_last())
    } else {
        s
    }
}

/// The link of a piece of plain text, if it is a URL.
pub open spec fn bare_link(piece: Seq<char>) -> Option<(Seq<char>, Seq<char>)> {
    let url = without_trailing(piece);
    if is_web_url(url) {
        Some((untracked(url, 3), untracked(url, 3)))
    } else {
        None
    }
}

/// The links of the pieces of a plain text, each once.
pub open spec fn bare_links(pieces: Seq<Seq<char>>) -> Seq<(Seq<char>, Seq<char>)>
    decreases pieces.len(),
{
    if pieces.len() == 0 {
        Seq::<(Seq<char>, Seq<char>)>::empty()
    } else {
        with_link(bare_links(pieces.drop_last()), bare_link(pieces.last()))
    }
}

fn skips(href: &[char]) -> (r: bool)
    ensures
        r == is_skipped(href@),
{
    href.len() == 0 || starts(href, "#") || starts(href, "mailto:") || starts(href, "tel:")
        || starts(href, "javascript:")
}

/// Appends a link unless it is there already.
fn push_link(links: &mut Vec<Link>, link: Link)
    ensures
        link_views(final(links)@) == with_link(link_views(old(links)@), Some(link@)),
{
    let ghost before = links@;
    let mut i: usize = 0;
    while i < links.len()
        invariant
            i <= links@.len(),
            links@ == before,
            forall|j: int| 0 <= j < i ==> link_views(before)[j] != link@,
        decreases links@.len() - i,
    {
        if text::same_str(links[i].text.as_str(), link.text.as_str()) && text::same_str(
            links[i].url.as_str(),
            link.url.as_str(),
        ) {
            assert(link_views(before)[i as int] == link@);
            return;
        }
        i = i + 1;
    }
    let ghost new = link@;
    links.push(link);
    assert(link_views(links@) =~= link_views(before).push(new));
}

/// Collapses runs of white space into single spaces and trims.
pub fn normalize_ws(s: &str) -> (r: String)
    ensures
        r@ == text::collapsed(s@),
{
    let chars = text::to_chars(s);
    text::from_chars(text::collapse(chars.as_slice()).as_slice())
}

/// The links of the anchors, each once, with tracking redirects stripped.
pub fn links_of(anchors: &Vec<Element>) -> (r: Vec<Link>)
    ensures
        link_views(r@) == anchor_links(html::element_views(anchors@)),
{
    let ghost all = html::element_views(anchors@);
    let mut links: Vec<Link> = Vec::new();
    let mut i: usize = 0;
    assert(all.take(0) =~= Seq::<(Option<Seq<char>>, Seq<char>)>::empty());
    assert(link_views(links@) =~= Seq::<(Seq<char>, Seq<char>)>::empty());
    while i < anchors.len()
        invariant
            i <= anchors@.len(),
            all == html::element_views(anchors@),
            link_views(links@) == anchor_links(all.take(i as int)),
        decreases anchors@.len() - i,
    {
        assert(all.take(i + 1).drop_last() =~= all.take(i as int));
        assert(all.take(i + 1).last() == anchors@[i as int]@);
        match &anchors[i].value {
            Some(value) => {
                let chars = text::to_chars(value.as_str());
                let href = text::trim(chars.as_slice());
                if !skips(href) {
                    let url = untrack(text::from_chars(href).as_str());
                    let text = normalize_ws(anchors[i].text.as_str());
                    push_link(&mut links, Link { text, url });
                }
            },
            None => {},
        }
        i = i + 1;
    }
    assert(all.take(all.len() as int) =~= all);
    links
}

/// Extracts the hyperlinks of an HTML document, each once, with tracking
/// redirects stripped. Anchors that lead nowhere are skipped.
pub fn extract_links(html: &str) -> (r: Vec<Link>)
    ensures
        link_views(r@) == anchor_links(anchors(html@)),
{
    match select_elements(html, "a[href]", "href") {
        Some(anchors) => links_of(&anchors),
        None => {
            let none: Vec<Link> = Vec::new();
            assert(link_views(none@) =~= Seq::<(Seq<char>, Seq<char>)>::empty());
            none
        },
    }
}

/// Extracts the bare http and https URLs of a plain text, each once, with
/// tracking redirects stripped. The text of such a link is its URL.
pub fn extract_links_from_text(text: &str) -> (r: Vec<Link>)
    ensures
        link_views(r@) == bare_links(text::pieces(text@, text::Separator::LinkEdge)),
{
    let chars = text::to_chars(text);
    let pieces = text::split(chars.as_slice(), text::Separator::LinkEdge);
    let ghost all = text::rows(pieces@);
    let mut links: Vec<Link> = Vec::new();
    let mut i: usize = 0;
    assert(all.take(0) =~= Seq::<Seq<char>>::empty());
    assert(link_views(links@) =~= Seq::<(Seq<char>, Seq<char>)>::empty());
    while i < pieces.len()
        invariant
            i <= pieces@.len(),
            all == text::rows(pieces@),
            link_views(links@) == bare_links(all.take(i as int)),
        decreases pieces@.len() - i,
    {
        assert(all.take(i + 1).drop_last() =~= all.take(i as int));
        assert(all.take(i + 1).last() == pieces@[i as int]@);
        let url = text::from_chars(trim_trailing(pieces[i].as_slice()));
        if looks_like_http_url(url.as_str()) {
            let url = untrack(url.as_str());
            push_link(&mut links, Link { text: url.clone(), url });
        }
        i = i + 1;
    }
    assert(all.take(all.len() as int) =~= all);
    links
}

fn trim_trailing<'a>(s: &'a [char]) -> (r: &'a [char])
    ensures
        r@ == without_trailing(s@),
{
    let mut n: usize = s.len();
    assert(s@.take(n as int) =~= s@);
    while n > 0 && (s[n - 1] == '.' || s[n - 1] == ',' || s[n - 1] == ')' || s[n - 1] == ']' || s[n
        - 1] == '!' || s[n - 1] == ';')
        invariant
            n <= s@.len(),
            without_trailing(s@) == without_trailing(s@.take(n as int)),
        decreases n,
    {
        assert(s@.take(n as int).drop_last() =~= s@.take(n - 1));
        n = n - 1;
    }
    let r = slice_subrange(s, 0, n);
    assert(r@ =~= s@.take(n as int));
    r
}

/// The hyperlinks of an email: those of its HTML body, else those of its
/// plain-text body, else none.
pub fn extract_email_links(email: &Email) -> (r: Vec<Link>)
    ensures
        link_views(r@) == match (email.html_body, email.text_body) {
            (Some(html), _) => anchor_links(anchors(html@)),
            (None, Some(text)) => bare_links(text::pieces(text@, text::Separator::LinkEdge)),
            (None, None) => Seq::<(Seq<char>, Seq<char>)>::empty(),
        },
{
    match email.html_content() {
        Some(html) => extract_links(html),
        None => match email.text_content() {
            Some(text) => extract_links_from_text(text),
            None => {
                let none: Vec<Link> = Vec::new();
                assert(link_views(none@) =~= Seq::<(Seq<char>, Seq<char>)>::empty());
                none
            },
        },
    }
}

proof fn lemma_target_is_web_url(query: Seq<(Seq<char>, Seq<char>)>, any_name: bool)
    ensures
        first_target(query, any_name) matches Some(target) ==> is_web_url(target),
    decreases query.len(),
{
    if query.len() > 0 {
        lemma_target_is_web_url(query.drop_first(), any_name);
    }
}

/// Law: stripping redirects gives back the URL unchanged, or a web URL.
pub proof fn law_untracked_is_web_url(url: Seq<char>, n: nat)
    ensures
        untracked(url, n) == url || is_web_url(untracked(url, n)),
    decreases n,
{
    if n > 0 {
        match unwrapped(url) {
            Some(target) if target != url => {
                match url_parts(url) {
                    Some((host, query)) => {
                        lemma_target_is_web_url(lower_names(query), false);
                        lemma_target_is_web_url(lower_names(query), true);
                    },
                    None => {},
                }
                assert(is_web_url(target));
                law_untracked_is_web_url(target, (n - 1) as nat);
            },
            _ => {},
        }
    }
}

/// Law: a URL in which no redirect is found is returned unchanged.
pub proof fn law_untracked_passthrough(url: Seq<char>, n: nat)
    requires
        unwrapped(url) is None,
    ensures
        untracked(url, n) == url,
{
}

/// Law: stripping layers of redirects in two goes strips as many as in one.
pub proof fn law_untracked_layers(url: Seq<char>, m: nat, n: nat)
    ensures
        untracked(url, m + n) == untracked(untracked(url, m), n),
    decreases m,
{
    if m > 0 {
        match unwrapped(url) {
            Some(target) if target != url => {
                law_untracked_layers(target, (m - 1) as nat, n);
            },
            _ => {},
        }
    }
}

/// Law: no link of a document is listed twice.
pub proof fn law_links_distinct(anchors: Seq<(Option<Seq<char>>, Seq<char>)>)
    ensures
        anchor_links(anchors).no_duplicates(),
    decreases anchors.len(),
{
    if anchors.len() > 0 {
        law_links_distinct(anchors.drop_last());
    }
}

/// Law: no link of a plain text is listed twice.
pub proof fn law_bare_links_distinct(pieces: Seq<Seq<char>>)
    ensures
        bare_links(pieces).no_duplicates(),
    decreases pieces.len(),
{
    if pieces.len() > 0 {
        law_bare_links_distinct(pieces.drop_last());
    }
}

proof fn lemma_first_char(prefix: Seq<char>, s: Seq<char>)
    requires
        prefix.len() > 0,
    ensures
        prefix.is_prefix_of(s) ==> s.len() > 0 && s[0] == prefix[0],
{
    if prefix.is_prefix_of(s) {
        assert(s.subrange(0, prefix.len() as int)[0] == s[0]);
    }
}

proof fn lemma_web_url_not_skipped(url: Seq<char>)
    requires
        is_web_url(url),
    ensures
        !is_skipped(url),
{
    reveal_strlit("http://");
    reveal_strlit("https://");
    reveal_strlit("#");
    reveal_strlit("mailto:");
    reveal_strlit("tel:");
    reveal_strlit("javascript:");
    let lower = text::lowered(text::trimmed(url));
    lemma_first_char("http://"@, lower);
    lemma_first_char("https://"@, lower);
    assert(lower.len() > 0 && lower[0] == 'h');
    text::lemma_trimmed_end_prefix(text::trimmed_start(url));
    lemma_first_char(text::trimmed(url), text::trimmed_start(url));
    if is_skipped(url) {
        if url.len() > 0 {
            lemma_first_char("#"@, url);
            lemma_first_char("mailto:"@, url);
            lemma_first_char("tel:"@, url);
            lemma_first_char("javascript:"@, url);
            assert(url[0] == '#' || url[0] == 'm' || url[0] == 't' || url[0] == 'j');
            assert(text::trimmed_start(url) == url);
            assert(text::trimmed(url)[0] == url[0]);
            assert(lower[0] == text::ascii_lower(url[0]));
        }
    }
}

/// Law: no link of a document leads to a place on the same page, a mail address,
/// a telephone number or a script, or nowhere.
pub proof fn law_links_lead_somewhere(anchors: Seq<(Option<Seq<char>>, Seq<char>)>)
    ensures
        forall|i: int|
            0 <= i < anchor_links(anchors).len() ==> !is_skipped(
                (#[trigger] anchor_links(anchors)[i]).1,
            ),
    decreases anchors.len(),
{
    if anchors.len() > 0 {
        law_links_lead_somewhere(anchors.drop_last());
        match anchor_link(anchors.last()) {
            Some(link) => {
                let href = text::trimmed(anchors.last().0->0);
                law_untracked_is_web_url(href, 3);
                if untracked(href, 3) != href {
                    lemma_web_url_not_skipped(untracked(href, 3));
                }
                assert(!is_skipped(link.1));
            },
            None => {},
        }
        let before = anchor_links(anchors.drop_last());
        let all = anchor_links(anchors);
        assert forall|i: int| 0 <= i < all.len() implies !is_skipped((#[trigger] all[i]).1) by {
            if i < before.len() {
                assert(all[i] == before[i]);
            }
        }
    }
}

/// Law: every link of a plain text is a web URL, shown as it is.
pub proof fn law_bare_links_are_web_urls(pieces: Seq<Seq<char>>)
    ensures
        forall|i: int|
            0 <= i < bare_links(pieces).len() ==> {
                let link = #[trigger] bare_links(pieces)[i];
                link.0 == link.1 && is_web_url(link.1)
            },
    decreases pieces.len(),
{
    if pieces.len() > 0 {
        law_bare_links_are_web_urls(pieces.drop_last());
        law_untracked_is_web_url(without_trailing(pieces.last()), 3);
        let before = bare_links(pieces.drop_last());
        let all = bare_links(pieces);
        assert forall|i: int| 0 <= i < all.len() implies ({
            let link = #[trigger] all[i];
            link.0 == link.1 && is_web_url(link.1)
        }) by {
            if i < before.len() {
                assert(all[i] == before[i]);
            }
        }
    }
}

/// The links of the anchors grow at the end as anchors follow.
proof fn lemma_with_link(links: Seq<(Seq<char>, Seq<char>)>, new: Option<(Seq<char>, Seq<char>)>)
    ensures
        links.is_prefix_of(with_link(links, new)),
        forall|link: (Seq<char>, Seq<char>)| #[trigger]
            with_link(links, new).contains(link) <==> links.contains(link) || new == Some(link),
{
    let all = with_link(links, new);
    assert(all.subrange(0, links.len() as int) =~= links);
    assert forall|link: (Seq<char>, Seq<char>)| #[trigger] all.contains(link) <==> links.contains(
        link,
    ) || new == Some(link) by {
        if all.contains(link) {
            let k = choose|k: int| 0 <= k < all.len() && all[k] == link;
            if k < links.len() {
                assert(links[k] == link);
            }
        }
        if links.contains(link) {
            let k = choose|k: int| 0 <= k < links.len() && links[k] == link;
            assert(all[k] == link);
        }
        if new == Some(link) && !links.contains(link) {
            assert(all[links.len() as int] == link);
        }
    }
}

/// Law: of every anchor whose address is not empty, a place on the same page, a
/// mail address, a telephone number or a script, the text with white space
/// collapsed and the address with redirects stripped are a link of the document,
/// and the document has no other links.
pub proof fn law_links_complete(
    anchors: Seq<(Option<Seq<char>>, Seq<char>)>,
    link: (Seq<char>, Seq<char>),
)
    ensures
        anchor_links(anchors).contains(link) <==> exists|i: int|
            0 <= i < anchors.len() && ({
                let href = text::trimmed((#[trigger] anchors[i]).0->0);
                &&& anchors[i].0 is Some
                &&& href.len() > 0 && href[0] != '#'
                &&& !"mailto:"@.is_prefix_of(href) && !"tel:"@.is_prefix_of(href)
                &&& !"javascript:"@.is_prefix_of(href)
                &&& link.0 == text::collapsed(anchors[i].1)
                &&& link.1 == untracked(href, 3)
            }),
    decreases anchors.len(),
{
    reveal_strlit("#");
    if anchors.len() == 0 {
        assert(!anchor_links(anchors).contains(link));
    } else {
        let front = anchors.drop_last();
        let last = anchors.last();
        law_links_complete(front, link);
        lemma_with_link(anchor_links(front), anchor_link(last));
        let href = text::trimmed(last.0->0);
        assert("#"@.is_prefix_of(href) <==> href.len() > 0 && href[0] == '#') by {
            lemma_first_char("#"@, href);
            if href.len() > 0 && href[0] == '#' {
                assert(href.subrange(0, 1) =~= "#"@);
            }
        }
        if anchor_links(anchors).contains(link) {
            if anchor_links(front).contains(link) {
                let i = choose|i: int|
                    0 <= i < front.len() && ({
                        let href = text::trimmed((#[trigger] front[i]).0->0);
                        &&& front[i].0 is Some
                        &&& href.len() > 0 && href[0] != '#'
                        &&& !"mailto:"@.is_prefix_of(href) && !"tel:"@.is_prefix_of(href)
                        &&& !"javascript:"@.is_prefix_of(href)
                        &&& link.0 == text::collapsed(front[i].1)
                        &&& link.1 == untracked(href, 3)
                    });
                assert(anchors[i] == front[i]);
            } else {
                assert(anchors[anchors.len() - 1] == last);
            }
        }
        if exists|i: int|
            0 <= i < anchors.len() && ({
                let href = text::trimmed((#[trigger] anchors[i]).0->0);
                &&& anchors[i].0 is Some
                &&& href.len() > 0 && href[0] != '#'
                &&& !"mailto:"@.is_prefix_of(href) && !"tel:"@.is_prefix_of(href)
                &&& !"javascript:"@.is_prefix_of(href)
                &&& link.0 == text::collapsed(anchors[i].1)
                &&& link.1 == untracked(href, 3)
            }) {
            let i = choose|i: int|
                0 <= i < anchors.len() && ({
                    let href = text::trimmed((#[trigger] anchors[i]).0->0);
                    &&& anchors[i].0 is Some
                    &&& href.len() > 0 && href[0] != '#'
                    &&& !"mailto:"@.is_prefix_of(href) && !"tel:"@.is_prefix_of(href)
                    &&& !"javascript:"@.is_prefix_of(href)
                    &&& link.0 == text::collapsed(anchors[i].1)
                    &&& link.1 == untracked(href, 3)
                });
            if i < front.len() {
                assert(front[i] == anchors[i]);
            } else {
                assert(anchors[i] == last);
                assert(anchor_link(last) == Some(link));
            }
        }
    }
}

/// Law: the links of a document stand in the order in which they first appear: the
/// anchors that follow add theirs behind those that are there.
pub proof fn law_links_in_order(
    a: Seq<(Option<Seq<char>>, Seq<char>)>,
    b: Seq<(Option<Seq<char>>, Seq<char>)>,
)
    ensures
        anchor_links(a).is_prefix_of(anchor_links(a + b)),
    decreases b.len(),
{
    if b.len() == 0 {
        assert(a + b =~= a);
        assert(anchor_links(a).subrange(0, anchor_links(a).len() as int) =~= anchor_links(a));
    } else {
        assert((a + b).drop_last() =~= a + b.drop_last());
        law_links_in_order(a, b.drop_last());
        let before = anchor_links(a + b.drop_last());
        let all = anchor_links(a + b);
        lemma_with_link(before, anchor_link(b.last()));
        let n = anchor_links(a).len() as int;
        assert(all.subrange(0, n) =~= all.subrange(0, before.len() as int).subrange(0, n));
    }
}

/// Law: of every piece of a plain text that is a web URL, but for punctuation at
/// its end, the URL with redirects stripped is a link, shown as it is, and the text
/// has no other links.
pub proof fn law_bare_links_complete(pieces: Seq<Seq<char>>, link: (Seq<char>, Seq<char>))
    ensures
        bare_links(pieces).contains(link) <==> exists|i: int|
            0 <= i < pieces.len() && is_web_url(without_trailing(#[trigger] pieces[i])) && link.0
                == untracked(without_trailing(pieces[i]), 3) && link.1 == link.0,
    decreases pieces.len(),
{
    if pieces.len() == 0 {
        assert(!bare_links(pieces).contains(link));
    } else {
        let front = pieces.drop_last();
        let last = pieces.last();
        law_bare_links_complete(front, link);
        lemma_with_link(bare_links(front), bare_link(last));
        if bare_links(pieces).contains(link) {
            if bare_links(front).contains(link) {
                let i = choose|i: int|
                    0 <= i < front.len() && is_web_url(without_trailing(#[trigger] front[i]))
                        && link.0 == untracked(without_trailing(front[i]), 3) && link.1 == link.0;
                assert(pieces[i] == front[i]);
            } else {
                assert(pieces[pieces.len() - 1] == last);
            }
        }
        if exists|i: int|
            0 <= i < pieces.len() && is_web_url(without_trailing(#[trigger] pieces[i])) && link.0
                == untracked(without_trailing(pieces[i]), 3) && link.1 == link.0 {
            let i = choose|i: int|
                0 <= i < pieces.len() && is_web_url(without_trailing(#[trigger] pieces[i]))
                    && link.0 == untracked(without_trailing(pieces[i]), 3) && link.1 == link.0;
            if i < front.len() {
                assert(front[i] == pieces[i]);
            } else {
                assert(pieces[i] == last);
                assert(bare_link(last) == Some(link));
            }
        }
    }
}

/// Law: the links of a plain text stand in the order in which they first appear.
pub proof fn law_bare_links_in_order(a: Seq<Seq<char>>, b: Seq<Seq<char>>)
    ensures
        bare_links(a).is_prefix_of(bare_links(a + b)),
    decreases b.len(),
{
    if b.len() == 0 {
        assert(a + b =~= a);
        assert(bare_links(a).subrange(0, bare_links(a).len() as int) =~= bare_links(a));
    } else {
        assert((a + b).drop_last() =~= a + b.drop_last());
        law_bare_links_in_order(a, b.drop_last());
        let before = bare_links(a + b.drop_last());
        let all = bare_links(a + b);
        lemma_with_link(before, bare_link(b.last()));
        let n = bare_links(a).len() as int;
        assert(all.subrange(0, n) =~= all.subrange(0, before.len() as int).subrange(0, n));
    }
}

/// Law: the punctuation that is taken off the end of a URL is `.`, `,`, `)`, `]`,
/// `!` and `;`, all of it and nothing else.
pub proof fn law_trailing_punctuation(s: Seq<char>)
    ensures
        exists|b: Seq<char>|
            s == #[trigger] (without_trailing(s) + b) && forall|i: int|
                0 <= i < b.len() ==> ".,)]!;"@.contains(#[trigger] b[i]),
        without_trailing(s).len() > 0 ==> !".,)]!;"@.contains(without_trailing(s).last()),
    decreases s.len(),
{
    reveal_strlit(".,)]!;");
    let marks = ".,)]!;"@;
    assert(marks[0] == '.' && marks[1] == ',' && marks[2] == ')' && marks[3] == ']' && marks[4]
        == '!' && marks[5] == ';');
    if s.len() > 0 && is_trailing(s.last()) {
        let front = s.drop_last();
        law_trailing_punctuation(front);
        let b = choose|b: Seq<char>|
            front == #[trigger] (without_trailing(front) + b) && forall|i: int|
                0 <= i < b.len() ==> marks.contains(#[trigger] b[i]);
        let all = b.push(s.last());
        assert(s =~= front.push(s.last()));
        assert(without_trailing(s) + all =~= (without_trailing(front) + b).push(s.last()));
        assert(marks.contains(s.last()));
        assert forall|i: int| 0 <= i < all.len() implies marks.contains(#[trigger] all[i]) by {
            if i < b.len() {
                assert(all[i] == b[i]);
            }
        }
    } else {
        assert(s =~= without_trailing(s) + Seq::<char>::empty());
    }
}

/// Law: a text looks like a web URL exactly if behind leading white space it goes
/// on from `http://` or `https://`, in either case.
pub proof fn law_web_url(s: Seq<char>)
    ensures
        is_web_url(s) <==> exists|rest: Seq<char>|
            text::lowered(text::trimmed(s)) == #[trigger] ("http://"@ + rest) || text::lowered(
                text::trimmed(s),
            ) == "https://"@ + rest,
{
    let lower = text::lowered(text::trimmed(s));
    let open = "http://"@;
    let secure = "https://"@;
    if open.is_prefix_of(lower) {
        assert(lower =~= open + lower.skip(open.len() as int));
    }
    if secure.is_prefix_of(lower) {
        let rest = lower.skip(secure.len() as int);
        assert(lower =~= secure + rest);
        assert((open + rest) == (open + rest));
    }
    if exists|rest: Seq<char>| lower == #[trigger] (open + rest) || lower == secure + rest {
        let rest = choose|rest: Seq<char>|
            lower == #[trigger] (open + rest) || lower == secure + rest;
        if lower == open + rest {
            assert(lower.subrange(0, open.len() as int) =~= open);
        } else {
            assert(lower.subrange(0, secure.len() as int) =~= secure);
        }
    }
}

proof fn lemma_first_target(
    query: Seq<(Seq<char>, Seq<char>)>,
    any_name: bool,
    keep: spec_fn((Seq<char>, Seq<char>)) -> bool,
)
    requires
        forall|p: (Seq<char>, Seq<char>)| #[trigger]
            keep(p) == ((any_name || is_redirect_name(text::unicode_lower(p.0))) && is_web_url(
                p.1,
            )),
    ensures
        first_target(lower_names(query), any_name) == if query.filter(keep).len() > 0 {
            Some(query.filter(keep)[0].1)
        } else {
            None
        },
    decreases query.len(),
{
    reveal(Seq::filter);
    if query.len() > 0 {
        let one = seq![query[0]];
        let rest = query.drop_first();
        assert(query =~= one + rest);
        lemma_first_target(rest, any_name, keep);
        Seq::filter_distributes_over_add(one, rest, keep);
        assert(one.drop_last() =~= Seq::<(Seq<char>, Seq<char>)>::empty());
        assert(one.drop_last().filter(keep) =~= Seq::<(Seq<char>, Seq<char>)>::empty());
        assert(lower_names(query).drop_first() =~= lower_names(rest));
        if keep(query[0]) {
            assert(one.filter(keep) =~= one);
            assert(query.filter(keep)[0] == query[0]);
        } else {
            assert(one.filter(keep) =~= Seq::<(Seq<char>, Seq<char>)>::empty());
            assert(query.filter(keep) =~= rest.filter(keep));
        }
    }
}

/// The names that a redirect's target commonly goes by.
proof fn lemma_redirect_names(name: Seq<char>)
    ensures
        is_redirect_name(name) <==> seq![
            "url"@,
            "u"@,
            "redirect"@,
            "target"@,
            "destination"@,
            "dest"@,
            "link"@,
            "out"@,
            "to"@,
        ].contains(name),
{
    let names = seq![
        "url"@,
        "u"@,
        "redirect"@,
        "target"@,
        "destination"@,
        "dest"@,
        "link"@,
        "out"@,
        "to"@,
    ];
    assert(names[0] == "url"@ && names[1] == "u"@ && names[2] == "redirect"@ && names[3]
        == "target"@ && names[4] == "destination"@ && names[5] == "dest"@ && names[6] == "link"@
        && names[7] == "out"@ && names[8] == "to"@);
}

/// Law: a URL is a redirect if a parameter of its query goes by one of nine names,
/// in either case, and holds a web URL, which is then its target; the first one
/// counts. Failing that it is one if its host is that of a known tracker and any
/// parameter holds a web URL. No other URL is one.
pub proof fn law_redirects(url: Seq<char>)
    ensures
        unwrapped(url) == match url_parts(url) {
            Some((host, query)) => {
                let named = query.filter(
                    |p: (Seq<char>, Seq<char>)|
                        seq![
                            "url"@,
                            "u"@,
                            "redirect"@,
                            "target"@,
                            "destination"@,
                            "dest"@,
                            "link"@,
                            "out"@,
                            "to"@,
                        ].contains(text::unicode_lower(p.0)) && is_web_url(p.1),
                );
                let any = query.filter(|p: (Seq<char>, Seq<char>)| is_web_url(p.1));
                if named.len() > 0 {
                    Some(named[0].1)
                } else if any.len() > 0 && is_tracker(
                    text::unicode_lower(
                        if host is Some {
                            host->0
                        } else {
                            ""@
                        },
                    ),
                ) {
                    Some(any[0].1)
                } else {
                    None
                }
            },
            None => None,
        },
{
    if let Some((host, query)) = url_parts(url) {
        let named = |p: (Seq<char>, Seq<char>)|
            seq![
                "url"@,
                "u"@,
                "redirect"@,
                "target"@,
                "destination"@,
                "dest"@,
                "link"@,
                "out"@,
                "to"@,
            ].contains(text::unicode_lower(p.0)) && is_web_url(p.1);
        let any = |p: (Seq<char>, Seq<char>)| is_web_url(p.1);
        assert forall|p: (Seq<char>, Seq<char>)| #[trigger] named(p) == (is_redirect_name(
            text::unicode_lower(p.0),
        ) && is_web_url(p.1)) by {
            lemma_redirect_names(text::unicode_lower(p.0));
        }
        lemma_first_target(query, false, named);
        lemma_first_target(query, true, any);
    }
}

/// Law: the hosts that track clicks are those with one of these parts in their
/// names.
pub proof fn law_trackers(host: Seq<char>)
    ensures
        is_tracker(host) <==> exists|part: Seq<char>|
            #[trigger] text::has_part(host, part) && seq![
                "click."@,
                "email."@,
                "links."@,
                "link."@,
                "list-manage.com"@,
                "sendgrid.net"@,
                "mailchimp"@,
                "customeriomail"@,
                "sparkpostmail"@,
                "mandrillapp"@,
                "mailgun"@,
                "cmail"@,
                "hubspotlinks"@,
                "clicks."@,
            ].contains(part),
{
    let parts = seq![
        "click."@,
        "email."@,
        "links."@,
        "link."@,
        "list-manage.com"@,
        "sendgrid.net"@,
        "mailchimp"@,
        "customeriomail"@,
        "sparkpostmail"@,
        "mandrillapp"@,
        "mailgun"@,
        "cmail"@,
        "hubspotlinks"@,
        "clicks."@,
    ];
    assert(parts[0] == "click."@ && parts[1] == "email."@ && parts[2] == "links."@ && parts[3]
        == "link."@ && parts[4] == "list-manage.com"@ && parts[5] == "sendgrid.net"@ && parts[6]
        == "mailchimp"@ && parts[7] == "customeriomail"@ && parts[8] == "sparkpostmail"@ && parts[9]
        == "mandrillapp"@ && parts[10] == "mailgun"@ && parts[11] == "cmail"@ && parts[12]
        == "hubspotlinks"@ && parts[13] == "clicks."@);
    assert(parts.contains(parts[0]) && parts.contains(parts[1]) && parts.contains(parts[2])
        && parts.contains(parts[3]) && parts.contains(parts[4]) && parts.contains(parts[5])
        && parts.contains(parts[6]) && parts.contains(parts[7]) && parts.contains(parts[8])
        && parts.contains(parts[9]) && parts.contains(parts[10]) && parts.contains(parts[11])
        && parts.contains(parts[12]) && parts.contains(parts[13]));
}

/// Law: no layer stripped leaves a URL as it is, and one layer stripped leaves the
/// target of a redirect.
pub proof fn law_untracked_one_layer(url: Seq<char>)
    ensures
        untracked(url, 0) == url,
        untracked(url, 1) == match unwrapped(url) {
            Some(target) => target,
            None => url,
        },
{
    reveal_with_fuel(untracked, 2);
}

/// Law: the anchors of a document are its elements `a` with an `href`, with the
/// address that it gives.
pub proof fn law_anchors(html: Seq<char>)
    ensures
        html::html_elements(html, "a[href]"@, "href"@) matches Some(elements) ==> anchors(html)
            == elements,
        html::html_elements(html, "a[href]"@, "href"@) is None ==> anchors(html).len() == 0,
{
}

/// Law: links are held as their texts and targets, each in its place, and parameters as
/// their names and values.
pub proof fn law_link_views(links: Seq<Link>, query: Seq<Parameter>)
    ensures
        link_views(links).len() == links.len(),
        forall|i: int|
            0 <= i < links.len() ==> #[trigger] link_views(links)[i] == (
                links[i].text@,
                links[i].url@,
            ),
        parameter_views(query).len() == query.len(),
        forall|i: int|
            0 <= i < query.len() ==> #[trigger] parameter_views(query)[i] == (
                query[i].name@,
                query[i].value@,
            ),
{
}

/// Law: of the parameters of a query, with names in lower case, the first counts that
/// holds a web URL under a redirect's name; on a host that tracks clicks the first that
/// holds one at all, failing that.
pub proof fn law_redirect_target(host: Seq<char>, query: Seq<(Seq<char>, Seq<char>)>)
    ensures
        redirect_target(host, query) == {
            let named = query.filter(
                |p: (Seq<char>, Seq<char>)|
                    seq![
                        "url"@,
                        "u"@,
                        "redirect"@,
                        "target"@,
                        "destination"@,
                        "dest"@,
                        "link"@,
                        "out"@,
                        "to"@,
                    ].contains(p.0) && is_web_url(p.1),
            );
            let any = query.filter(|p: (Seq<char>, Seq<char>)| is_web_url(p.1));
            if named.len() > 0 {
                Some(named[0].1)
            } else if any.len() > 0 && is_tracker(host) {
                Some(any[0].1)
            } else {
                None
            }
        },
{
    let named = |p: (Seq<char>, Seq<char>)|
        seq![
            "url"@,
            "u"@,
            "redirect"@,
            "target"@,
            "destination"@,
            "dest"@,
            "link"@,
            "out"@,
            "to"@,
        ].contains(p.0) && is_web_url(p.1);
    let any = |p: (Seq<char>, Seq<char>)| is_web_url(p.1);
    assert forall|p: (Seq<char>, Seq<char>)| #[trigger] named(p) == (is_redirect_name(p.0)
        && is_web_url(p.1)) by {
        lemma_redirect_names(p.0);
    }
    lemma_first_target_plain(query, false, named);
    lemma_first_target_plain(query, true, any);
}

proof fn lemma_first_target_plain(
    query: Seq<(Seq<char>, Seq<char>)>,
    any_name: bool,
    keep: spec_fn((Seq<char>, Seq<char>)) -> bool,
)
    requires
        forall|p: (Seq<char>, Seq<char>)| #[trigger]
            keep(p) == ((any_name || is_redirect_name(p.0)) && is_web_url(p.1)),
    ensures
        first_target(query, any_name) == if query.filter(keep).len() > 0 {
            Some(query.filter(keep)[0].1)
        } else {
            None
        },
    decreases query.len(),
{
    reveal(Seq::filter);
    if query.len() > 0 {
        let one = seq![query[0]];
        let rest = query.drop_first();
        assert(query =~= one + rest);
        lemma_first_target_plain(rest, any_name, keep);
        Seq::filter_distributes_over_add(one, rest, keep);
        assert(one.drop_last() =~= Seq::<(Seq<char>, Seq<char>)>::empty());
        assert(one.drop_last().filter(keep) =~= Seq::<(Seq<char>, Seq<char>)>::empty());
        if keep(query[0]) {
            assert(one.filter(keep) =~= one);
            assert(query.filter(keep)[0] == query[0]);
        } else {
            assert(one.filter(keep) =~= Seq::<(Seq<char>, Seq<char>)>::empty());
            assert(query.filter(keep) =~= rest.filter(keep));
        }
    }
}

} // verus!
