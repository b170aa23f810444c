//! What is sent to a server and what comes back, as plain values.

use crate::text;
use vstd::prelude::*;

verus! {

/// A header line.
#[derive(Debug)]
pub struct Header {
    /// The header's name.
    pub name: String,
    /// Its value.
    pub value: String,
}

impl View for Header {
    type V = (Seq<char>, Seq<char>);

    open spec fn view(&self) -> (Seq<char>, Seq<char>) {
        (self.name@, self.value@)
    }
}

/// A request with basic authentication.
#[derive(Debug)]
pub struct Request {
    /// The method, such as `PUT`.
    pub method: String,
    /// The full URL.
    pub url: String,
    /// The user to authenticate as.
    pub username: String,
    /// The user's password.
    pub password: String,
    /// The header lines, in order.
    pub headers: Vec<Header>,
    /// The body.
    pub body: String,
}

/// A [`Request`] with its strings as sequences of characters.
pub struct RequestView {
    /// See [`Request::method`].
    pub method: Seq<char>,
    /// See [`Request::url`].
    pub url: Seq<char>,
    /// See [`Request::username`].
    pub username: Seq<char>,
    /// See [`Request::password`].
    pub password: Seq<char>,
    /// See [`Request::headers`].
    pub headers: Seq<(Seq<char>, Seq<char>)>,
    /// See [`Request::body`].
    pub body: Seq<char>,
}

impl View for Request {
    type V = RequestView;

    open spec fn view(&self) -> RequestView {
        RequestView {
            method: self.method@,
            url: self.url@,
            username: self.username@,
            password: self.password@,
            headers: self.headers@.map_values(|header: Header| header@),
            body: self.body@,
        }
    }
}

/// A server's reply.
#[derive(Debug)]
pub struct Reply {
    /// The status code.
    pub status: u16,
    /// The status code with its reason, such as `404 Not Found`.
    pub status_line: String,
    /// The body.
    pub body: String,
}

/// Whether the status code is one of success.
pub open spec fn is_success(status: int) -> bool {
    200 <= status < 300
}

impl Reply {
    /// Whether the status code is one of success.
    pub fn succeeded(&self) -> (r: bool)
        ensures
            r == is_success(self.status as int),
    {
        200 <= self.status && self.status < 300
    }

    /// Says that what was tried failed: the status and the body.
    pub fn failure(&self, what: &str) -> (r: String)
        ensures
            r@ == failure_text(what@, *self),
    {
        text::concat2(
            text::concat3(what, " failed: ", self.status_line.as_str()).as_str(),
            text::concat2(" - ", self.body.as_str()).as_str(),
        )
    }
}

/// Says that what was tried failed: the status and the body.
pub open spec fn failure_text(what: Seq<char>, reply: Reply) -> Seq<char> {
    what + " failed: "@ + reply.status_line@ + (" - "@ + reply.body@)
}

/// Law: the status codes of success are those from 200 to 299.
pub proof fn law_success(status: int)
    ensures
        is_success(status) <==> status / 100 == 2,
{
}

/// Law: a failure is reported with what was tried, the status and the body.
pub proof fn law_failure_text(what: Seq<char>, reply: Reply)
    ensures
        failure_text(what, reply) == what + " failed: "@ + reply.status_line@ + " - "@
            + reply.body@,
{
    assert(failure_text(what, reply) =~= what + " failed: "@ + reply.status_line@ + " - "@
        + reply.body@);
}

/// Law: a request is held by the characters of its parts, its headers each in its place.
pub proof fn law_request_view(request: Request)
    ensures
        request@.method == request.method@,
        request@.url == request.url@,
        request@.username == request.username@,
        request@.password == request.password@,
        request@.body == request.body@,
        request@.headers.len() == request.headers@.len(),
        forall|i: int|
            0 <= i < request.headers@.len() ==> #[trigger] request@.headers[i] == (
                request.headers@[i].name@,
                request.headers@[i].value@,
            ),
{
}

} // verus!
