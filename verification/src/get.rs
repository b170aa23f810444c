//! What is printed of an email.

use crate::html;
use crate::html::html_to_text;
use crate::models::Email;
use crate::thread::Rendering;
use vstd::prelude::*;

verus! {

/// How the `get` command prints an email.
#[derive(Debug, Clone, Copy, PartialEq, Eq, Structural)]
pub enum GetFormat {
    /// The whole email as JSON.
    Json,
    /// The body as plain text.
    Text,
    /// The HTML body.
    Html,
}

impl Default for GetFormat {
    fn default() -> (r: Self)
        ensures
            r == GetFormat::Json,
    {
        GetFormat::Json
    }
}

/// The body of an email as plain text: its plain-text body, else the text of its
/// HTML body, else nothing.
pub open spec fn plain_body(email: Email) -> Seq<char> {
    match (email.text_body, email.html_body) {
        (Some(text), _) => text@,
        (None, Some(html)) => html::html_text(html@),
        (None, None) => ""@,
    }
}

/// The HTML body of an email, or nothing.
pub open spec fn html_source(email: Email) -> Seq<char> {
    match email.html_body {
        Some(html) => html@,
        None => ""@,
    }
}

/// What the `get` command prints of an email.
pub fn get_email_fmt(email: &Email, format: GetFormat) -> (r: Rendering)
    ensures
        r@ == match format {
            GetFormat::Json => None,
            GetFormat::Text => Some(plain_body(*email)),
            GetFormat::Html => Some(html_source(*email)),
        },
{
    match format {
        GetFormat::Json => Rendering::Json,
        GetFormat::Text => Rendering::Raw(
            match email.text_content() {
                Some(text) => text.to_owned(),
                None => match email.html_content() {
                    Some(html) => html_to_text(html),
                    None => "".to_owned(),
                },
            },
        ),
        GetFormat::Html => Rendering::Raw(
            match email.html_content() {
                Some(html) => html.to_owned(),
                None => "".to_owned(),
            },
        ),
    }
}

/// Law: as plain text an email is its plain-text body if it has one, else the text of its
/// HTML body, else nothing; as HTML it is its HTML body or nothing.
pub proof fn law_bodies(email: Email)
    ensures
        email.text_body matches Some(text) ==> plain_body(email) == text@,
        email.text_body is None ==> (email.html_body matches Some(html) ==> plain_body(email)
            == html::html_text(html@)),
        email.text_body is None && email.html_body is None ==> plain_body(email) == ""@,
        email.html_body matches Some(html) ==> html_source(email) == html@,
        email.html_body is None ==> html_source(email) == ""@,
{
}

} // verus!
