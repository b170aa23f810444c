//! Emails and addresses, as far as the commands read them.

use crate::text;
use vstd::prelude::*;

verus! {

/// An address with the name that goes with it.
#[derive(Debug)]
pub struct EmailAddress {
    /// The display name.
    pub name: Option<String>,
    /// The address itself.
    pub email: String,
}

impl Clone for EmailAddress {
    fn clone(&self) -> (r: Self)
        ensures
            r == *self,
    {
        EmailAddress { name: clone_text(&self.name), email: self.email.clone() }
    }
}

/// An address as it is shown: `Name <address>`, or the address alone where
/// there is no name.
pub open spec fn address_text(address: EmailAddress) -> Seq<char> {
    match address.name {
        Some(name) if name@.len() > 0 => name@ + " <"@ + (address.email@ + ">"@),
        _ => address.email@,
    }
}

impl EmailAddress {
    /// The address as it is shown: `Name <address>`, or the address alone where
    /// there is no name.
    pub fn to_text(&self) -> (r: String)
        ensures
            r@ == address_text(*self),
    {
        match &self.name {
            Some(name) => {
                if text::to_chars(name.as_str()).len() > 0 {
                    text::concat3(
                        name.as_str(),
                        " <",
                        text::concat2(self.email.as_str(), ">").as_str(),
                    )
                } else {
                    self.email.clone()
                }
            },
            None => self.email.clone(),
        }
    }
}

/// A keyword of an email and whether it is set.
#[derive(Debug)]
pub struct Keyword {
    /// The keyword.
    pub name: String,
    /// Whether it is set.
    pub set: bool,
}

/// An email.
#[derive(Debug)]
pub struct Email {
    /// The email's identifier.
    pub id: String,
    /// What the raw message is stored under.
    pub blob_id: Option<String>,
    /// The keywords.
    pub keywords: Vec<Keyword>,
    /// When it was received, in ISO 8601.
    pub received_at: Option<String>,
    /// The addresses of the From header.
    pub from: Option<Vec<EmailAddress>>,
    /// The subject.
    pub subject: Option<String>,
    /// The server's excerpt.
    pub preview: Option<String>,
    /// The plain-text body.
    pub text_body: Option<String>,
    /// The HTML body.
    pub html_body: Option<String>,
}

/// The address that an email was sent from: the first of its From header.
pub open spec fn sender(email: Email) -> Option<EmailAddress> {
    match email.from {
        Some(addresses) if addresses@.len() > 0 => Some(addresses@[0]),
        _ => None,
    }
}

impl Email {
    /// An email of which only the identifier is known.
    pub fn new(id: String) -> (r: Self)
        ensures
            r.id == id,
            r.keywords@.len() == 0,
            r.blob_id is None,
            r.received_at is None,
            r.from is None,
            r.subject is None,
            r.preview is None,
            r.text_body is None,
            r.html_body is None,
    {
        Email {
            id,
            blob_id: None,
            keywords: Vec::new(),
            received_at: None,
            from: None,
            subject: None,
            preview: None,
            text_body: None,
            html_body: None,
        }
    }

    /// The plain-text body.
    pub fn text_content(&self) -> (r: Option<&str>)
        ensures
            text::opt_str(r) == text::opt_text(self.text_body),
    {
        borrow_text(&self.text_body)
    }

    /// The HTML body.
    pub fn html_content(&self) -> (r: Option<&str>)
        ensures
            text::opt_str(r) == text::opt_text(self.html_body),
    {
        borrow_text(&self.html_body)
    }

    /// The address that the email was sent from: the first of its From header.
    pub fn sent_by(&self) -> (r: Option<&EmailAddress>)
        ensures
            match r {
                Some(address) => sender(*self) == Some(*address),
                None => sender(*self) is None,
            },
    {
        match &self.from {
            Some(addresses) => {
                if addresses.len() > 0 {
                    Some(&addresses[0])
                } else {
                    None
                }
            },
            None => None,
        }
    }
}

/// A copy of an optional text.
pub fn clone_text(o: &Option<String>) -> (r: Option<String>)
    ensures
        r == *o,
{
    match o {
        Some(s) => Some(s.clone()),
        None => None,
    }
}

/// A copy of a list of texts.
pub fn clone_texts(list: &Vec<String>) -> (r: Vec<String>)
    ensures
        r@ == list@,
{
    let mut out: Vec<String> = Vec::new();
    let mut i: usize = 0;
    while i < list.len()
        invariant
            i <= list@.len(),
            out@ == list@.take(i as int),
        decreases list@.len() - i,
    {
        out.push(list[i].clone());
        i = i + 1;
        assert(out@ =~= list@.take(i as int));
    }
    assert(list@.take(list@.len() as int) =~= list@);
    out
}

/// An optional text, borrowed.
pub fn borrow_text(o: &Option<String>) -> (r: Option<&str>)
    ensures
        text::opt_str(r) == text::opt_text(*o),
{
    match o {
        Some(s) => Some(s.as_str()),
        None => None,
    }
}

/// The part of an address behind its last `@`; nothing where there is none.
pub open spec fn domain_of(address: Seq<char>) -> Option<Seq<char>> {
    let parts = text::pieces(address, text::Separator::Char('@'));
    if parts.len() < 2 {
        None
    } else {
        Some(parts.last())
    }
}

/// Whether an email was sent from that very domain, up to the case of ASCII
/// letters. A subdomain is another domain.
pub open spec fn is_from_domain(email: Email, domain: Seq<char>) -> bool {
    match sender(email) {
        Some(address) => match domain_of(address.email@) {
            Some(own) => text::lowered(own) == text::lowered(domain),
            None => false,
        },
        None => false,
    }
}

/// Whether an email was sent from that very domain, up to the case of ASCII
/// letters. A subdomain is another domain.
pub fn sender_domain_matches(email: &Email, domain: &str) -> (r: bool)
    ensures
        r == is_from_domain(*email, domain@),
{
    match email.sent_by() {
        Some(address) => {
            let chars = text::to_chars(address.email.as_str());
            let parts = text::split(chars.as_slice(), text::Separator::Char('@'));
            let ghost all = text::rows(parts@);
            if parts.len() < 2 {
                return false;
            }
            let own = &parts[parts.len() - 1];
            assert(own@ == all.last());
            let wanted = text::to_chars(domain);
            text::same_ignoring_case(own.as_slice(), wanted.as_slice())
        },
        None => false,
    }
}

/// Law: an email is from the first address of its From header, if there is one.
pub proof fn law_sender(email: Email)
    ensures
        sender(email) is Some <==> email.from is Some && email.from->0@.len() > 0,
        sender(email) matches Some(address) ==> address == email.from->0@[0],
{
}

/// Law: an address is shown behind its name, in angle brackets, or alone where
/// there is no name.
pub proof fn law_address_text(address: EmailAddress)
    ensures
        address.name is None || address.name->0@.len() == 0 ==> address_text(address)
            == address.email@,
        address.name is Some && address.name->0@.len() > 0 ==> address_text(address)
            == address.name->0@ + seq![' ', '<'] + address.email@ + seq!['>'],
{
    reveal_strlit(" <");
    reveal_strlit(">");
    if address.name is Some && address.name->0@.len() > 0 {
        assert(address_text(address) =~= address.name->0@ + seq![' ', '<'] + address.email@
            + seq!['>']);
    }
}

/// Law: an email is from a domain exactly if that is what stands behind the last
/// `@` of its sender's address, up to the case of ASCII letters.
pub proof fn law_from_domain(email: Email, local: Seq<char>, own: Seq<char>, domain: Seq<char>)
    requires
        sender(email) matches Some(address) && address.email@ == local + seq!['@'] + own,
        !own.contains('@'),
    ensures
        is_from_domain(email, domain) <==> text::lowered(own) == text::lowered(domain),
{
    let sep = text::Separator::Char('@');
    assert forall|i: int| 0 <= i < own.len() implies !sep.cuts(#[trigger] own[i]) by {
        assert(own.contains(own[i]));
    }
    text::law_pieces(local, '@', own, sep);
    text::law_pieces(own, '@', local, sep);
    text::lemma_pieces_nonempty(local, sep);
}

/// Law: an email without a sender, or whose sender's address has no `@`, is from no
/// domain.
pub proof fn law_no_domain(email: Email, domain: Seq<char>)
    requires
        sender(email) matches Some(address) ==> !address.email@.contains('@'),
    ensures
        !is_from_domain(email, domain),
{
    let sep = text::Separator::Char('@');
    if let Some(address) = sender(email) {
        let own = address.email@;
        assert forall|i: int| 0 <= i < own.len() implies !sep.cuts(#[trigger] own[i]) by {
            assert(own.contains(own[i]));
        }
        text::law_pieces(own, '@', own, sep);
    }
}

} // verus!
