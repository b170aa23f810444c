//! CalDAV: finding calendars and creating events, up to the requests to send
//! and from the replies that come back.

use crate::datetime;
use crate::datetime::dtstamp_now;
use crate::error::{Error, Fault};
use crate::event;
use crate::event::{build_event_ics, EventFields};
use crate::http;
use crate::http::{Header, Reply, Request, RequestView};
use crate::percent;
use crate::percent::encode_path_segment;
use crate::text;
use crate::xml;
use crate::xml::{find_tag, find_text, parse_xml, NodeView, XmlNode};
use vstd::prelude::*;
use vstd::slice::slice_subrange;
use vstd::string::*;

verus! {

/// The server.
pub const CALDAV_BASE: &'static str = "https://caldav.fastmail.com";

/// The query for the calendars of a user.
pub const PROPFIND_BODY: &'static str =
    "<?xml version=\"1.0\" encoding=\"utf-8\"?>\n<d:propfind xmlns:d=\"DAV:\" xmlns:cal=\"urn:ietf:params:xml:ns:caldav\">\n  <d:prop>\n    <d:displayname/>\n    <d:resourcetype/>\n  </d:prop>\n</d:propfind>";

/// A calendar on the server.
#[derive(Debug)]
pub struct Calendar {
    /// Its path.
    pub href: String,
    /// Its display name.
    pub name: String,
}

impl View for Calendar {
    type V = (Seq<char>, Seq<char>);

    open spec fn view(&self) -> (Seq<char>, Seq<char>) {
        (self.href@, self.name@)
    }
}

impl Clone for Calendar {
    fn clone(&self) -> (r: Self)
        ensures
            r == *self,
    {
        Calendar { href: self.href.clone(), name: self.name.clone() }
    }
}

/// The paths and names of the calendars.
pub open spec fn calendar_views(calendars: Seq<Calendar>) -> Seq<(Seq<char>, Seq<char>)> {
    calendars.map_values(|calendar: Calendar| calendar@)
}

/// What a created event is reported as.
#[derive(Debug)]
pub struct CreatedEvent {
    /// Its identifier.
    pub uid: String,
    /// Its path.
    pub href: String,
    /// The name of its calendar.
    pub calendar: String,
    /// Its title.
    pub title: String,
    /// Its start, as it was given.
    pub start: String,
    /// Whether it takes whole days.
    pub all_day: bool,
}

/// The last part of a path that is not empty.
pub open spec fn last_path_part(href: Seq<char>) -> Seq<char> {
    let parts = text::nonempty(text::pieces(href, text::Separator::Char('/')));
    if parts.len() == 0 {
        "Unknown"@
    } else {
        parts.last()
    }
}

/// A text from its first `/` on.
pub open spec fn from_slash(s: Seq<char>) -> Seq<char>
    decreases s.len(),
{
    if s.len() == 0 || s[0] == '/' {
        s
    } else {
        from_slash(s.drop_first())
    }
}

/// The path that a server gives, without scheme and authority where it gives a
/// full URL.
pub open spec fn href_path(href: Seq<char>) -> Seq<char> {
    let lower = text::lowered(href);
    if "https://"@.is_prefix_of(lower) {
        from_slash(href.skip("https://"@.len() as int))
    } else if "http://"@.is_prefix_of(lower) {
        from_slash(href.skip("http://"@.len() as int))
    } else {
        href
    }
}

/// The path of the collection that holds a user's calendars, with the user's name
/// written as that segment.
pub open spec fn collection_path(segment: Seq<char>) -> Seq<char> {
    "/dav/calendars/user/"@ + (segment + "/"@)
}

/// Whether that is the user's own collection, as a path or as a full URL, with the
/// user's name as it is or as path segments are written.
pub open spec fn is_own_collection(href: Seq<char>, username: Seq<char>) -> bool {
    let path = href_path(href);
    ||| path == collection_path(username)
    ||| path == collection_path(percent::path_segment(username))
}

/// The calendar that one response of the server describes, given the nodes of
/// the response: a collection whose resource type is a calendar, with a path
/// that is not the user's own.
pub open spec fn calendar_of(response: Seq<NodeView>, username: Seq<char>) -> Option<
    (Seq<char>, Seq<char>),
> {
    let href = match xml::first_text(response, "DAV:"@, "href"@) {
        Some(href) => href,
        None => Seq::<char>::empty(),
    };
    let name = match xml::first_text(response, "DAV:"@, "displayname"@) {
        Some(name) => name,
        None => last_path_part(href),
    };
    if xml::any_tag(response, "urn:ietf:params:xml:ns:caldav"@, "calendar"@) && href.len() > 0
        && !is_own_collection(href, username) {
        Some((href, name))
    } else {
        None
    }
}

/// The calendars that the responses among the first `n` nodes describe.
pub open spec fn calendars_before(
    nodes: Seq<NodeView>,
    username: Seq<char>,
    n: int,
) -> Seq<(Seq<char>, Seq<char>)>
    decreases n,
{
    if n <= 0 {
        Seq::<(Seq<char>, Seq<char>)>::empty()
    } else {
        let before = calendars_before(nodes, username, n - 1);
        if xml::has_tag(nodes[n - 1], "DAV:"@, "response"@) {
            match calendar_of(nodes.subrange(n - 1, n - 1 + nodes[n - 1].size as int), username) {
                Some(calendar) => before.push(calendar),
                None => before,
            }
        } else {
            before
        }
    }
}

/// The calendars that a document describes, in document order.
pub open spec fn calendars_of(nodes: Seq<NodeView>, username: Seq<char>) -> Seq<
    (Seq<char>, Seq<char>),
> {
    calendars_before(nodes, username, nodes.len() as int)
}

/// The last part of a path that is not empty.
fn find_last_path_part(href: &str) -> (r: String)
    ensures
        r@ == last_path_part(href@),
{
    let chars = text::to_chars(href);
    let parts = text::split(chars.as_slice(), text::Separator::Char('/'));
    let ghost all = text::rows(parts@);
    let mut n: usize = parts.len();
    assert(all.take(n as int) =~= all);
    while n > 0
        invariant
            n <= parts@.len(),
            all == text::rows(parts@),
            all == text::pieces(href@, text::Separator::Char('/')),
            text::nonempty(all) == text::nonempty(all.take(n as int)),
        decreases n,
    {
        assert(all.take(n as int).drop_last() =~= all.take(n - 1));
        if parts[n - 1].len() > 0 {
            return text::from_chars(parts[n - 1].as_slice());
        }
        n = n - 1;
    }
    "Unknown".to_owned()
}

/// What stands behind the first `n` characters, from the first `/` there on.
fn path_behind(s: &[char], n: usize) -> (r: Vec<char>)
    requires
        n <= s@.len(),
    ensures
        r@ == from_slash(s@.skip(n as int)),
{
    let mut at: usize = n;
    while at < s.len() && s[at] != '/'
        invariant
            n <= at <= s@.len(),
            from_slash(s@.skip(n as int)) == from_slash(s@.skip(at as int)),
        decreases s@.len() - at,
    {
        assert(s@.skip(at as int).drop_first() =~= s@.skip(at + 1));
        at = at + 1;
    }
    let mut out: Vec<char> = Vec::new();
    text::extend(&mut out, slice_subrange(s, at, s.len()));
    assert(out@ =~= s@.skip(at as int));
    out
}

/// The path that a server gives, without scheme and authority.
fn find_href_path(href: &str) -> (r: Vec<char>)
    ensures
        r@ == href_path(href@),
{
    let chars = text::to_chars(href);
    let lower = text::to_lower(chars.as_slice());
    let secure = text::to_chars("https://");
    let open = text::to_chars("http://");
    if text::begins_with(lower.as_slice(), secure.as_slice()) {
        path_behind(chars.as_slice(), secure.len())
    } else if text::begins_with(lower.as_slice(), open.as_slice()) {
        path_behind(chars.as_slice(), open.len())
    } else {
        chars
    }
}

/// Whether that is the user's own collection.
fn owns_collection(href: &str, username: &str) -> (r: bool)
    ensures
        r == is_own_collection(href@, username@),
{
    let path = find_href_path(href);
    let plain = text::concat2("/dav/calendars/user/", text::concat2(username, "/").as_str());
    let segment = encode_path_segment(username);
    let encoded = text::concat2(
        "/dav/calendars/user/",
        text::concat2(segment.as_str(), "/").as_str(),
    );
    text::same(path.as_slice(), text::to_chars(plain.as_str()).as_slice()) || text::same(
        path.as_slice(),
        text::to_chars(encoded.as_str()).as_slice(),
    )
}

/// The calendar that a response describes, given where its nodes are.
fn read_calendar(nodes: &Vec<XmlNode>, from: usize, to: usize, username: &str) -> (r: Option<
    Calendar,
>)
    requires
        from <= to <= nodes@.len(),
    ensures
        (match r {
            Some(calendar) => Some(calendar@),
            None => None,
        }) == calendar_of(xml::node_views(nodes@).subrange(from as int, to as int), username@),
{
    proof {
        reveal_strlit("");
    }
    let href = match find_text(nodes, from, to, "DAV:", "href") {
        Some(href) => href,
        None => "",
    };
    assert(""@ =~= Seq::<char>::empty());
    if !find_tag(nodes, from, to, "urn:ietf:params:xml:ns:caldav", "calendar") {
        return None;
    }
    if text::to_chars(href).len() == 0 || owns_collection(href, username) {
        return None;
    }
    let name = match find_text(nodes, from, to, "DAV:", "displayname") {
        Some(name) => name.to_owned(),
        None => find_last_path_part(href),
    };
    Some(Calendar { href: href.to_owned(), name })
}

/// The calendars that a document describes, in document order: one for each
/// response that describes a calendar and not the user's own collection.
pub fn calendars_in(nodes: &Vec<XmlNode>, username: &str) -> (r: Vec<Calendar>)
    requires
        xml::well_nested(xml::node_views(nodes@)),
    ensures
        calendar_views(r@) == calendars_of(xml::node_views(nodes@), username@),
{
    let mut out: Vec<Calendar> = Vec::new();
    let ghost views = xml::node_views(nodes@);
    let mut i: usize = 0;
    assert(calendar_views(out@) =~= Seq::<(Seq<char>, Seq<char>)>::empty());
    while i < nodes.len()
        invariant
            i <= nodes@.len(),
            views == xml::node_views(nodes@),
            xml::well_nested(views),
            calendar_views(out@) == calendars_before(views, username@, i as int),
        decreases nodes@.len() - i,
    {
        assert(views[i as int] == nodes@[i as int]@);
        if nodes[i].has_tag_name("DAV:", "response") {
            let ghost before = out@;
            match read_calendar(nodes, i, i + nodes[i].size, username) {
                Some(calendar) => {
                    out.push(calendar);
                    assert(calendar_views(out@) =~= calendar_views(before).push(calendar@));
                },
                None => {},
            }
        }
        i = i + 1;
    }
    out
}

/// Reads the calendars from the body of the server's reply.
pub fn parse_calendars_response(body: &str, username: &str) -> (r: Result<Vec<Calendar>, Error>)
    ensures
        match (r, xml::xml_document(body@)) {
            (Ok(calendars), Ok(nodes)) => calendar_views(calendars@) == calendars_of(
                nodes,
                username@,
            ),
            (Err(error), Err(message)) => error@ == Fault::Server(
                "Failed to parse XML: "@ + message,
            ),
            _ => false,
        },
{
    match parse_xml(body) {
        Ok(nodes) => Ok(calendars_in(&nodes, username)),
        Err(message) => Err(
            Error::Server(text::concat2("Failed to parse XML: ", message.as_str())),
        ),
    }
}

/// Whether a calendar has that name, up to the case of ASCII letters.
pub open spec fn is_named(calendar: Calendar, name: Seq<char>) -> bool {
    text::lowered(calendar.name@) == text::lowered(name)
}

/// The first calendar with that display name, up to the case of ASCII letters.
pub fn match_calendar<'a>(calendars: &'a [Calendar], name: &str) -> (r: Option<&'a Calendar>)
    ensures
        match r {
            Some(found) => exists|i: int|
                0 <= i < calendars@.len() && #[trigger] calendars@[i] == *found && is_named(
                    calendars@[i],
                    name@,
                ) && forall|j: int| 0 <= j < i ==> !is_named(#[trigger] calendars@[j], name@),
            None => forall|j: int|
                0 <= j < calendars@.len() ==> !is_named(#[trigger] calendars@[j], name@),
        },
{
    let wanted = text::to_chars(name);
    let mut i: usize = 0;
    while i < calendars.len()
        invariant
            i <= calendars@.len(),
            wanted@ == name@,
            forall|j: int| 0 <= j < i ==> !is_named(#[trigger] calendars@[j], name@),
        decreases calendars@.len() - i,
    {
        let own = text::to_chars(calendars[i].name.as_str());
        if text::same_ignoring_case(own.as_slice(), wanted.as_slice()) {
            assert(is_named(calendars@[i as int], name@));
            return Some(&calendars[i]);
        }
        i = i + 1;
    }
    None
}

/// The names of the calendars.
pub open spec fn calendar_names(calendars: Seq<Calendar>) -> Seq<Seq<char>> {
    calendars.map_values(|calendar: Calendar| calendar.name@)
}

/// The message that says there is no calendar of that name, and which there
/// are.
pub open spec fn not_found_text(calendars: Seq<Calendar>, name: Seq<char>) -> Seq<char> {
    "Calendar not found: "@ + name + " (available: "@ + text::joined(
        calendar_names(calendars),
        ", "@,
    ) + ")"@
}

/// A lower-case hexadecimal digit.
pub open spec fn is_hex(c: char) -> bool {
    '0' <= c <= '9' || 'a' <= c <= 'f'
}

/// Whether `s` has the form of a random UUID (RFC 9562, version 4): lower-case
/// hexadecimal digits in groups of 8, 4, 4, 4 and 12 with hyphens between them,
/// the third group beginning with `4` and the fourth with `8`, `9`, `a` or `b`.
pub open spec fn is_random_uuid(s: Seq<char>) -> bool {
    &&& s.len() == 36
    &&& s[8] == '-' && s[13] == '-' && s[18] == '-' && s[23] == '-'
    &&& s[14] == '4'
    &&& s[19] == '8' || s[19] == '9' || s[19] == 'a' || s[19] == 'b'
    &&& forall|i: int|
        0 <= i < 36 && i != 8 && i != 13 && i != 18 && i != 23 ==> is_hex(#[trigger] s[i])
}

/// `uuid::Uuid::new_v4`, written out. It is random, so only its form is known:
/// that of a version 4 UUID in lower-case, hyphenated hexadecimal.
#[verifier::external_body]
fn fresh_uid() -> (r: String)
    ensures
        is_random_uuid(r@),
{
    uuid::Uuid::new_v4().to_string()
}

/// An event on its way to the server: its identifier and the request that
/// stores it.
#[derive(Debug)]
pub struct Upload {
    /// The event's identifier.
    pub uid: String,
    /// The request.
    pub request: Request,
}

/// The request that stores an event, or why there can be none.
pub open spec fn upload_request(
    client: CalDavClient,
    uid: Seq<char>,
    dtstamp: Seq<char>,
    calendar: Calendar,
    fields: EventFields,
) -> Result<RequestView, Fault> {
    match event::event_text(uid, dtstamp, fields) {
        Ok(ics) => Ok(
            RequestView {
                method: "PUT"@,
                url: CALDAV_BASE@ + calendar.href@ + (uid + ".ics"@),
                username: client.user(),
                password: client.password(),
                headers: seq![
                    ("Content-Type"@, "text/calendar; charset=utf-8"@),
                    ("If-None-Match"@, "*"@),
                ],
                body: ics,
            },
        ),
        Err(fault) => Err(fault),
    }
}

/// Whether an upload is the one for that identifier, stamp, calendar and event.
pub open spec fn is_upload(
    r: Result<Upload, Error>,
    client: CalDavClient,
    uid: Seq<char>,
    dtstamp: Seq<char>,
    calendar: Calendar,
    fields: EventFields,
) -> bool {
    match (r, upload_request(client, uid, dtstamp, calendar, fields)) {
        (Ok(upload), Ok(request)) => upload.uid@ == uid && upload.request@ == request,
        (Err(error), Err(fault)) => error@ == fault,
        _ => false,
    }
}

/// Appends a header line.
fn push_header(headers: &mut Vec<Header>, name: &str, value: &str)
    ensures
        final(headers)@.map_values(|header: Header| header@) == old(headers)@.map_values(
            |header: Header| header@,
        ).push((name@, value@)),
{
    let ghost before = headers@;
    headers.push(Header { name: name.to_owned(), value: value.to_owned() });
    assert(headers@.map_values(|header: Header| header@) =~= before.map_values(
        |header: Header| header@,
    ).push((name@, value@)));
}

/// A CalDAV client: who to authenticate as.
#[derive(Debug)]
pub struct CalDavClient {
    username: String,
    app_password: String,
}

impl CalDavClient {
    /// The user's name.
    pub closed spec fn user(self) -> Seq<char> {
        self.username@
    }

    /// The user's password.
    pub closed spec fn password(self) -> Seq<char> {
        self.app_password@
    }

    /// A client for that user.
    pub fn new(username: String, app_password: String) -> (r: Self)
        ensures
            r.user() == username@,
            r.password() == app_password@,
    {
        CalDavClient { username, app_password }
    }

    /// The request that asks for the user's calendars.
    pub fn calendar_query(&self) -> (r: Request)
        ensures
            r@.method == "PROPFIND"@,
            r@.url == CALDAV_BASE@ + "/dav/calendars/user/"@ + (percent::path_segment(self.user())
                + "/"@),
            r@.username == self.user(),
            r@.password == self.password(),
            r@.headers == seq![("Content-Type"@, "application/xml"@), ("Depth"@, "1"@)],
            r@.body == PROPFIND_BODY@,
    {
        let user = encode_path_segment(self.username.as_str());
        let mut headers: Vec<Header> = Vec::new();
        assert(headers@.map_values(|header: Header| header@) =~= Seq::empty());
        push_header(&mut headers, "Content-Type", "application/xml");
        push_header(&mut headers, "Depth", "1");
        Request {
            method: "PROPFIND".to_owned(),
            url: text::concat3(
                CALDAV_BASE,
                "/dav/calendars/user/",
                text::concat2(user.as_str(), "/").as_str(),
            ),
            username: self.username.clone(),
            password: self.app_password.clone(),
            headers,
            body: PROPFIND_BODY.to_owned(),
        }
    }

    /// Reads the user's calendars from the reply to [`Self::calendar_query`].
    pub fn list_calendars(&self, reply: &Reply) -> (r: Result<Vec<Calendar>, Error>)
        ensures
            !http::is_success(reply.status as int) ==> (r matches Err(error) && error@
                == Fault::Server(http::failure_text("CalDAV PROPFIND"@, *reply))),
            http::is_success(reply.status as int) ==> match (r, xml::xml_document(reply.body@)) {
                (Ok(calendars), Ok(nodes)) => calendar_views(calendars@) == calendars_of(
                    nodes,
                    self.user(),
                ),
                (Err(error), Err(message)) => error@ == Fault::Server(
                    "Failed to parse XML: "@ + message,
                ),
                _ => false,
            },
    {
        if !reply.succeeded() {
            return Err(Error::Server(reply.failure("CalDAV PROPFIND")));
        }
        parse_calendars_response(reply.body.as_str(), self.username.as_str())
    }

    /// Finds a calendar by its display name, up to the case of ASCII letters.
    pub fn find_calendar(&self, calendars: &Vec<Calendar>, name: &str) -> (r: Result<
        Calendar,
        Error,
    >)
        ensures
            match r {
                Ok(found) => exists|i: int|
                    0 <= i < calendars@.len() && #[trigger] calendars@[i] == found && is_named(
                        calendars@[i],
                        name@,
                    ) && forall|j: int| 0 <= j < i ==> !is_named(#[trigger] calendars@[j], name@),
                Err(error) => (forall|j: int|
                    0 <= j < calendars@.len() ==> !is_named(#[trigger] calendars@[j], name@))
                    && error@ == Fault::Server(not_found_text(calendars@, name@)),
            },
    {
        match match_calendar(calendars.as_slice(), name) {
            Some(found) => Ok(found.clone()),
            None => {
                let mut names: Vec<String> = Vec::new();
                let mut i: usize = 0;
                assert(text::texts(names@) =~= calendar_names(calendars@).take(0));
                while i < calendars.len()
                    invariant
                        i <= calendars@.len(),
                        text::texts(names@) == calendar_names(calendars@).take(i as int),
                    decreases calendars@.len() - i,
                {
                    let ghost before = names@;
                    names.push(calendars[i].name.clone());
                    assert(text::texts(names@) =~= text::texts(before).push(
                        calendars@[i as int].name@,
                    ));
                    i = i + 1;
                    assert(text::texts(names@) =~= calendar_names(calendars@).take(i as int));
                }
                assert(text::texts(names@) =~= calendar_names(calendars@));
                let list = text::join_strings(&names, ", ");
                let mut message = text::concat3("Calendar not found: ", name, " (available: ");
                message.append(list.as_str());
                message.append(")");
                Err(Error::Server(message))
            },
        }
    }

    /// The request that stores an event with that identifier and stamp.
    pub fn upload_for(
        &self,
        uid: String,
        dtstamp: &str,
        calendar: &Calendar,
        fields: &EventFields<'_>,
    ) -> (r: Result<Upload, Error>)
        requires
            event::event_fits(*fields),
        ensures
            is_upload(r, *self, uid@, dtstamp@, *calendar, *fields),
    {
        let ics = match build_event_ics(uid.as_str(), dtstamp, fields) {
            Ok(ics) => ics,
            Err(e) => {
                return Err(e);
            },
        };
        let mut headers: Vec<Header> = Vec::new();
        assert(headers@.map_values(|header: Header| header@) =~= Seq::empty());
        push_header(&mut headers, "Content-Type", "text/calendar; charset=utf-8");
        push_header(&mut headers, "If-None-Match", "*");
        let request = Request {
            method: "PUT".to_owned(),
            url: text::concat3(
                CALDAV_BASE,
                calendar.href.as_str(),
                text::concat2(uid.as_str(), ".ics").as_str(),
            ),
            username: self.username.clone(),
            password: self.app_password.clone(),
            headers,
            body: ics,
        };
        proof {
            assert(request@.headers =~= seq![
                ("Content-Type"@, "text/calendar; charset=utf-8"@),
                ("If-None-Match"@, "*"@),
            ]);
        }
        Ok(Upload { uid, request })
    }

    /// The request that stores an event under a fresh identifier, stamped with
    /// the current time. `If-None-Match: *` keeps it from replacing an event
    /// that is already there.
    pub fn event_upload(&self, calendar: &Calendar, fields: &EventFields<'_>) -> (r: Result<
        Upload,
        Error,
    >)
        requires
            event::event_fits(*fields),
        ensures
            exists|uid: Seq<char>, unix_secs: u64|
                is_random_uuid(uid) && datetime::is_clock_reading(unix_secs) && #[trigger] is_upload(
                    r,
                    *self,
                    uid,
                    datetime::utc_stamp(unix_secs as nat),
                    *calendar,
                    *fields,
                ),
    {
        let uid = fresh_uid();
        let dtstamp = dtstamp_now();
        let ghost id = uid@;
        let r = self.upload_for(uid, dtstamp.as_str(), calendar, fields);
        proof {
            let unix_secs = choose|unix_secs: u64|
                datetime::is_clock_reading(unix_secs) && dtstamp@ == #[trigger] datetime::utc_stamp(
                    unix_secs as nat,
                );
            assert(is_upload(
                r,
                *self,
                id,
                datetime::utc_stamp(unix_secs as nat),
                *calendar,
                *fields,
            ));
        }
        r
    }

    /// What to report of an event from the reply to its upload.
    pub fn create_event(
        &self,
        calendar: &Calendar,
        fields: &EventFields<'_>,
        upload: &Upload,
        reply: &Reply,
    ) -> (r: Result<CreatedEvent, Error>)
        ensures
            !http::is_success(reply.status as int) ==> (r matches Err(error) && error@
                == Fault::Server(http::failure_text("CalDAV PUT"@, *reply))),
            http::is_success(reply.status as int) ==> {
                &&& r matches Ok(created)
                &&& created.uid@ == upload.uid@
                &&& created.href@ == calendar.href@ + upload.uid@ + ".ics"@
                &&& created.calendar@ == calendar.name@
                &&& created.title@ == fields.title@
                &&& created.start@ == fields.start@
                &&& created.all_day == fields.all_day
            },
    {
        if !reply.succeeded() {
            return Err(Error::Server(reply.failure("CalDAV PUT")));
        }
        Ok(
            CreatedEvent {
                uid: upload.uid.clone(),
                href: text::concat3(calendar.href.as_str(), upload.uid.as_str(), ".ics"),
                calendar: calendar.name.clone(),
                title: fields.title.to_owned(),
                start: fields.start.to_owned(),
                all_day: fields.all_day,
            },
        )
    }
}

/// Law: an upload stores an event under the path that it is reported under, and
/// never in place of an event that is already there.
pub proof fn law_upload_address(
    client: CalDavClient,
    uid: Seq<char>,
    dtstamp: Seq<char>,
    calendar: Calendar,
    fields: EventFields,
)
    ensures
        upload_request(client, uid, dtstamp, calendar, fields) matches Ok(request) ==> request.url
            == CALDAV_BASE@ + (calendar.href@ + uid + ".ics"@) && request.headers.contains(
            ("If-None-Match"@, "*"@),
        ),
{
    match upload_request(client, uid, dtstamp, calendar, fields) {
        Ok(request) => {
            assert(request.url =~= CALDAV_BASE@ + (calendar.href@ + uid + ".ics"@));
            assert(request.headers[1] == ("If-None-Match"@, "*"@));
        },
        Err(_) => {},
    }
}

proof fn lemma_calendar_paths(nodes: Seq<NodeView>, username: Seq<char>, n: int)
    ensures
        forall|i: int|
            0 <= i < calendars_before(nodes, username, n).len() ==> {
                let href = (#[trigger] calendars_before(nodes, username, n)[i]).0;
                href.len() > 0 && !is_own_collection(href, username)
            },
    decreases n,
{
    if n > 0 {
        lemma_calendar_paths(nodes, username, n - 1);
        let before = calendars_before(nodes, username, n - 1);
        let all = calendars_before(nodes, username, n);
        assert forall|i: int| 0 <= i < all.len() implies ({
            let href = (#[trigger] all[i]).0;
            href.len() > 0 && !is_own_collection(href, username)
        }) by {
            if i < before.len() {
                assert(all[i] == before[i]);
            }
        }
    }
}

proof fn lemma_from_slash(authority: Seq<char>, path: Seq<char>)
    requires
        !authority.contains('/'),
        path.len() > 0,
        path[0] == '/',
    ensures
        from_slash(authority + path) == path,
    decreases authority.len(),
{
    if authority.len() == 0 {
        assert(authority + path =~= path);
    } else {
        let tail = authority.drop_first();
        assert(authority.contains(authority[0]));
        assert(!tail.contains('/')) by {
            assert forall|i: int| 0 <= i < tail.len() implies tail[i] != '/' by {
                assert(authority.contains(authority[i + 1]));
            }
        }
        assert((authority + path).drop_first() =~= tail + path);
        lemma_from_slash(tail, path);
    }
}

/// The path of a URL on the server is what stands behind the server's address.
proof fn lemma_server_path(path: Seq<char>)
    requires
        path.len() > 0,
        path[0] == '/',
    ensures
        href_path(path) == path,
        href_path(CALDAV_BASE@ + path) == path,
{
    reveal_strlit("https://caldav.fastmail.com");
    reveal_strlit("https://");
    reveal_strlit("http://");
    let url = CALDAV_BASE@ + path;
    let authority = CALDAV_BASE@.skip(8);
    assert(text::lowered(url).subrange(0, 8) =~= "https://"@);
    assert(url.skip(8) =~= authority + path);
    assert(!authority.contains('/'));
    lemma_from_slash(authority, path);
    let lower = text::lowered(path);
    assert(lower[0] == '/');
    assert(!"https://"@.is_prefix_of(lower)) by {
        assert("https://"@.is_prefix_of(lower) ==> lower.subrange(0, 8)[0] == lower[0]);
    }
    assert(!"http://"@.is_prefix_of(lower)) by {
        assert("http://"@.is_prefix_of(lower) ==> lower.subrange(0, 7)[0] == lower[0]);
    }
}

/// Law: the collection that is asked for calendars is the user's own, whether the
/// server gives it as a path or as a full URL, with the user's name as it is or
/// as path segments are written.
pub proof fn law_own_collection(username: Seq<char>)
    ensures
        is_own_collection(collection_path(username), username),
        is_own_collection(collection_path(percent::path_segment(username)), username),
        is_own_collection(CALDAV_BASE@ + collection_path(username), username),
        is_own_collection(
            CALDAV_BASE@ + collection_path(percent::path_segment(username)),
            username,
        ),
{
    reveal_strlit("/dav/calendars/user/");
    lemma_server_path(collection_path(username));
    lemma_server_path(collection_path(percent::path_segment(username)));
}

/// Law: every calendar found has a path, and none is the user's own collection,
/// which holds the calendars.
pub proof fn law_calendar_paths(nodes: Seq<NodeView>, username: Seq<char>)
    ensures
        forall|i: int|
            0 <= i < calendars_of(nodes, username).len() ==> {
                let href = (#[trigger] calendars_of(nodes, username)[i]).0;
                href.len() > 0 && !is_own_collection(href, username)
            },
{
    lemma_calendar_paths(nodes, username, nodes.len() as int);
}

proof fn lemma_calendars_before(nodes: Seq<NodeView>, username: Seq<char>, n: nat)
    ensures
        calendars_before(nodes, username, n as int) == Seq::new(n, |i: int| i).filter(
            |i: int|
                {
                    let own = nodes.subrange(i, i + nodes[i].size as int);
                    let href = xml::first_text(own, "DAV:"@, "href"@);
                    &&& xml::has_tag(nodes[i], "DAV:"@, "response"@)
                    &&& xml::any_tag(own, "urn:ietf:params:xml:ns:caldav"@, "calendar"@)
                    &&& href is Some && href->0.len() > 0
                    &&& !is_own_collection(href->0, username)
                },
        ).map_values(
            |i: int|
                {
                    let own = nodes.subrange(i, i + nodes[i].size as int);
                    let href = xml::first_text(own, "DAV:"@, "href"@)->0;
                    let name = xml::first_text(own, "DAV:"@, "displayname"@);
                    (
                        href,
                        if name is Some {
                            name->0
                        } else {
                            last_path_part(href)
                        },
                    )
                },
        ),
    decreases n,
{
    reveal(Seq::filter);
    let keep = |i: int|
        {
            let own = nodes.subrange(i, i + nodes[i].size as int);
            let href = xml::first_text(own, "DAV:"@, "href"@);
            &&& xml::has_tag(nodes[i], "DAV:"@, "response"@)
            &&& xml::any_tag(own, "urn:ietf:params:xml:ns:caldav"@, "calendar"@)
            &&& href is Some && href->0.len() > 0
            &&& !is_own_collection(href->0, username)
        };
    let shown = |i: int|
        {
            let own = nodes.subrange(i, i + nodes[i].size as int);
            let href = xml::first_text(own, "DAV:"@, "href"@)->0;
            let name = xml::first_text(own, "DAV:"@, "displayname"@);
            (
                href,
                if name is Some {
                    name->0
                } else {
                    last_path_part(href)
                },
            )
        };
    let all = Seq::new(n, |i: int| i);
    if n > 0 {
        let front = Seq::new((n - 1) as nat, |i: int| i);
        lemma_calendars_before(nodes, username, (n - 1) as nat);
        assert(all.drop_last() =~= front);
        assert(all.last() == n - 1);
        let before = front.filter(keep).map_values(shown);
        if keep(n - 1) {
            assert(front.filter(keep).push(n - 1).map_values(shown) =~= before.push(shown(n - 1)));
        }
    } else {
        assert(all.filter(keep).map_values(shown) =~= Seq::<(Seq<char>, Seq<char>)>::empty());
    }
}

/// Law: the calendars of a document are those of its responses that hold the mark of a
/// calendar and an address, unless that is the user's own collection: all of them, in
/// document order, each with its address and its display name, or the last part of the
/// address where it has none.
pub proof fn law_calendars_complete(nodes: Seq<NodeView>, username: Seq<char>)
    ensures
        calendars_of(nodes, username) == Seq::new(nodes.len(), |i: int| i).filter(
            |i: int|
                {
                    let own = nodes.subrange(i, i + nodes[i].size as int);
                    let href = xml::first_text(own, "DAV:"@, "href"@);
                    &&& xml::has_tag(nodes[i], "DAV:"@, "response"@)
                    &&& xml::any_tag(own, "urn:ietf:params:xml:ns:caldav"@, "calendar"@)
                    &&& href is Some && href->0.len() > 0
                    &&& !is_own_collection(href->0, username)
                },
        ).map_values(
            |i: int|
                {
                    let own = nodes.subrange(i, i + nodes[i].size as int);
                    let href = xml::first_text(own, "DAV:"@, "href"@)->0;
                    let name = xml::first_text(own, "DAV:"@, "displayname"@);
                    (
                        href,
                        if name is Some {
                            name->0
                        } else {
                            last_path_part(href)
                        },
                    )
                },
        ),
{
    lemma_calendars_before(nodes, username, nodes.len());
}

/// Law: of an address the last part that is not empty is its name, whether or not
/// slashes follow it; an address of slashes alone has none.
pub proof fn law_last_path_part(head: Seq<char>, part: Seq<char>, slashes: Seq<char>)
    requires
        part.len() > 0,
        !part.contains('/'),
        forall|i: int| 0 <= i < slashes.len() ==> #[trigger] slashes[i] == '/',
    ensures
        last_path_part(part + slashes) == part,
        last_path_part(head + seq!['/'] + part + slashes) == part,
        last_path_part(slashes) == "Unknown"@,
    decreases slashes.len(),
{
    let sep = text::Separator::Char('/');
    let none = Seq::<char>::empty();
    let whole = head + seq!['/'] + part;
    if slashes.len() == 0 {
        assert(part + slashes =~= part);
        assert(whole + slashes =~= whole);
        assert forall|i: int| 0 <= i < part.len() implies !sep.cuts(#[trigger] part[i]) by {
            assert(part.contains(part[i]));
        }
        text::law_pieces(part, '/', head, sep);
        text::law_pieces(head, '/', part, sep);
        text::lemma_nonempty_concat(text::pieces(head, sep), text::pieces(part, sep));
        assert(seq![part].drop_last() =~= Seq::<Seq<char>>::empty());
        reveal_with_fuel(text::nonempty, 2);
        assert(text::nonempty(seq![part]) =~= seq![part]);
        assert(slashes =~= none);
        text::law_pieces(slashes, '/', slashes, sep);
        assert(seq![slashes].drop_last() =~= Seq::<Seq<char>>::empty());
    } else {
        let front = slashes.drop_last();
        assert forall|i: int| 0 <= i < front.len() implies #[trigger] front[i] == '/' by {
            assert(front[i] == slashes[i]);
        }
        law_last_path_part(head, part, front);
        assert(slashes[slashes.len() - 1] == '/');
        lemma_trailing_slash(part + front);
        lemma_trailing_slash(whole + front);
        lemma_trailing_slash(front);
        assert((part + front).push('/') =~= part + slashes);
        assert((whole + front).push('/') =~= whole + slashes);
        assert(front.push('/') =~= slashes);
    }
}

proof fn lemma_trailing_slash(s: Seq<char>)
    ensures
        last_path_part(s.push('/')) == last_path_part(s),
{
    let sep = text::Separator::Char('/');
    let parts = text::pieces(s, sep);
    assert(s.push('/').drop_last() =~= s);
    assert(parts.push(Seq::<char>::empty()).drop_last() =~= parts);
}

/// Law: only the user's own collection is passed over: an address that counts as it is
/// the path `/dav/calendars/user/` with the user's name and a slash, alone or behind
/// `http://` or `https://` and what holds no slash.
pub proof fn law_own_collection_only(href: Seq<char>, username: Seq<char>)
    requires
        is_own_collection(href, username),
    ensures
        exists|base: Seq<char>, name: Seq<char>|
            {
                &&& href == #[trigger] (base + ("/dav/calendars/user/"@ + name + "/"@))
                &&& name == username || name == percent::path_segment(username)
                &&& base.len() == 0 || exists|scheme: Seq<char>, authority: Seq<char>|
                    base == #[trigger] (scheme + authority) && !authority.contains('/') && (
                    text::lowered(scheme) == "http://"@ || text::lowered(scheme) == "https://"@)
            },
{
    let path = href_path(href);
    let name = if path == collection_path(username) {
        username
    } else {
        percent::path_segment(username)
    };
    assert(collection_path(name) =~= "/dav/calendars/user/"@ + name + "/"@);
    let lower = text::lowered(href);
    let secure = "https://"@;
    let open = "http://"@;
    if secure.is_prefix_of(lower) || open.is_prefix_of(lower) {
        let n = if secure.is_prefix_of(lower) {
            secure.len() as int
        } else {
            open.len() as int
        };
        let scheme = href.take(n);
        assert(text::lowered(scheme) =~= lower.subrange(0, n));
        let authority = lemma_from_slash_split(href.skip(n));
        let base = scheme + authority;
        assert(href =~= scheme + href.skip(n));
        assert(href =~= base + path);
    } else {
        assert(href =~= Seq::<char>::empty() + path);
    }
}

proof fn lemma_from_slash_split(s: Seq<char>) -> (a: Seq<char>)
    ensures
        s == a + from_slash(s),
        !a.contains('/'),
    decreases s.len(),
{
    if s.len() == 0 || s[0] == '/' {
        assert(s =~= Seq::<char>::empty() + s);
        Seq::<char>::empty()
    } else {
        let rest = lemma_from_slash_split(s.drop_first());
        let a = seq![s[0]] + rest;
        assert(s =~= seq![s[0]] + s.drop_first());
        assert(s =~= a + from_slash(s));
        assert forall|i: int| 0 <= i < a.len() implies a[i] != '/' by {
            if i > 0 {
                assert(rest.contains(rest[i - 1]));
            }
        }
        a
    }
}

/// Law: the user's own collection is passed over wherever the server says that it is.
pub proof fn law_own_collection_anywhere(
    scheme: Seq<char>,
    authority: Seq<char>,
    username: Seq<char>,
)
    requires
        text::lowered(scheme) == "http://"@ || text::lowered(scheme) == "https://"@,
        !authority.contains('/'),
    ensures
        is_own_collection(
            scheme + authority + ("/dav/calendars/user/"@ + username + "/"@),
            username,
        ),
        is_own_collection(
            scheme + authority + ("/dav/calendars/user/"@ + percent::path_segment(username)
                + "/"@),
            username,
        ),
        is_own_collection("/dav/calendars/user/"@ + username + "/"@, username),
        is_own_collection(
            "/dav/calendars/user/"@ + percent::path_segment(username) + "/"@,
            username,
        ),
{
    reveal_strlit("/dav/calendars/user/");
    let segment = percent::path_segment(username);
    assert(collection_path(username) =~= "/dav/calendars/user/"@ + username + "/"@);
    assert(collection_path(segment) =~= "/dav/calendars/user/"@ + segment + "/"@);
    law_own_collection(username);
    lemma_url_path(scheme, authority, collection_path(username));
    lemma_url_path(scheme, authority, collection_path(segment));
}

proof fn lemma_url_path(scheme: Seq<char>, authority: Seq<char>, path: Seq<char>)
    requires
        text::lowered(scheme) == "http://"@ || text::lowered(scheme) == "https://"@,
        !authority.contains('/'),
        path.len() > 0,
        path[0] == '/',
    ensures
        href_path(scheme + authority + path) == path,
{
    reveal_strlit("https://");
    reveal_strlit("http://");
    let url = scheme + authority + path;
    let lower = text::lowered(url);
    let n = scheme.len() as int;
    assert(text::lowered(scheme).len() == n);
    assert(lower.subrange(0, n) =~= text::lowered(scheme));
    assert(url.skip(n) =~= authority + path);
    lemma_from_slash(authority, path);
    if text::lowered(scheme) == "http://"@ {
        assert(!"https://"@.is_prefix_of(lower)) by {
            assert("https://"@.is_prefix_of(lower) ==> lower.subrange(0, 8)[4] == lower[4]);
            assert(lower.subrange(0, n)[4] == lower[4]);
        }
    }
}

/// Law: a calendar goes by its display name, up to the case of ASCII letters.
pub proof fn law_calendar_name(calendar: Calendar, name: Seq<char>)
    ensures
        is_named(calendar, name) <==> text::lowered(calendar.name@) == text::lowered(name),
{
}

/// Law: where there is no calendar of a name, all names that there are are told.
pub proof fn law_not_found_text(calendars: Seq<Calendar>, name: Seq<char>)
    ensures
        not_found_text(calendars, name) == "Calendar not found: "@ + name + " (available: "@
            + text::joined(Seq::new(calendars.len(), |i: int| calendars[i].name@), ", "@) + ")"@,
{
    assert(calendar_names(calendars) =~= Seq::new(calendars.len(), |i: int| calendars[i].name@));
}

/// Law: an upload sends the text of the event, as a calendar, in the name of the
/// client's user; there is one exactly if there is such a text.
pub proof fn law_upload_content(
    client: CalDavClient,
    uid: Seq<char>,
    dtstamp: Seq<char>,
    calendar: Calendar,
    fields: EventFields,
)
    ensures
        match (
            upload_request(client, uid, dtstamp, calendar, fields),
            event::event_text(uid, dtstamp, fields),
        ) {
            (Ok(request), Ok(ics)) => {
                &&& request.body == ics
                &&& request.method == "PUT"@
                &&& request.username == client.user() && request.password == client.password()
                &&& request.headers.len() == 2
                &&& request.headers.contains(
                    ("Content-Type"@, "text/calendar; charset=utf-8"@),
                )
                &&& request.headers.contains(("If-None-Match"@, "*"@))
            },
            (Err(fault), Err(own)) => fault == own,
            _ => false,
        },
{
    if let Ok(request) = upload_request(client, uid, dtstamp, calendar, fields) {
        assert(request.headers[0] == ("Content-Type"@, "text/calendar; charset=utf-8"@));
        assert(request.headers[1] == ("If-None-Match"@, "*"@));
    }
}

/// Law: an upload that was made is the one for its identifier, stamp, calendar and
/// event, and one that was refused was refused for what is wrong with the event.
pub proof fn law_upload_outcome(
    r: Result<Upload, Error>,
    client: CalDavClient,
    uid: Seq<char>,
    dtstamp: Seq<char>,
    calendar: Calendar,
    fields: EventFields,
)
    requires
        is_upload(r, client, uid, dtstamp, calendar, fields),
    ensures
        r matches Ok(upload) ==> upload.uid@ == uid && Ok::<RequestView, Fault>(upload.request@)
            == upload_request(client, uid, dtstamp, calendar, fields),
        r matches Err(error) ==> event::event_text(uid, dtstamp, fields) == Err::<Seq<char>, Fault>(
            error@,
        ),
{
}

/// Law: calendars are held as their paths and names, each in its place.
pub proof fn law_calendar_views(calendars: Seq<Calendar>)
    ensures
        calendar_views(calendars).len() == calendars.len(),
        forall|i: int|
            0 <= i < calendars.len() ==> #[trigger] calendar_views(calendars)[i] == (
                calendars[i].href@,
                calendars[i].name@,
            ),
{
}

} // verus!
