//! Whether a thread was answered.

use crate::models;
use crate::models::{Email, EmailAddress};
use crate::text;
use crate::thread;
use crate::thread::latest_message;
use vstd::prelude::*;

verus! {

/// An address in the form in which addresses are held against each other:
/// trimmed, in lower case.
pub open spec fn address_key(address: Seq<char>) -> Seq<char> {
    text::unicode_lower(text::trimmed(address))
}

/// Whether an email is from one of those addresses, up to case and surrounding
/// white space.
pub open spec fn from_one_of(email: Email, addresses: Seq<Seq<char>>) -> bool {
    match models::sender(email) {
        Some(address) => exists|i: int|
            0 <= i < addresses.len() && address_key(#[trigger] addresses[i]) == address_key(
                address.email@,
            ),
        None => false,
    }
}

/// An ASCII address, trimmed and in lower case.
pub open spec fn ascii_key(address: Seq<char>) -> Seq<char> {
    text::lowered(text::trimmed(address))
}

/// Whether an email is from one of those ASCII addresses, up to case and
/// surrounding white space.
pub open spec fn from_one_of_ascii(email: Email, addresses: Seq<Seq<char>>) -> bool {
    match models::sender(email) {
        Some(address) => exists|i: int|
            0 <= i < addresses.len() && ascii_key(#[trigger] addresses[i]) == ascii_key(
                address.email@,
            ),
        None => false,
    }
}

/// Whether the sender's address and all of those are ASCII.
pub open spec fn all_ascii(email: Email, addresses: Seq<Seq<char>>) -> bool {
    &&& models::sender(email) matches Some(address) ==> text::is_ascii_text(address.email@)
    &&& forall|i: int| 0 <= i < addresses.len() ==> text::is_ascii_text(#[trigger] addresses[i])
}

proof fn lemma_trimmed_ascii(s: Seq<char>)
    requires
        text::is_ascii_text(s),
    ensures
        text::is_ascii_text(text::trimmed_start(s)),
        text::is_ascii_text(text::trimmed_end(s)),
    decreases s.len(),
{
    if s.len() > 0 {
        assert forall|i: int| 0 <= i < s.drop_first().len() implies (#[trigger] s.drop_first()[i]
            as u32) < 128 by {
            assert(s.drop_first()[i] == s[i + 1]);
        }
        assert(text::is_ascii_text(s.drop_first()));
        assert(text::is_ascii_text(s.drop_last()));
        lemma_trimmed_ascii(s.drop_first());
        lemma_trimmed_ascii(s.drop_last());
    }
}

/// An address trimmed and in lower case.
fn key_of(address: &str) -> (r: String)
    ensures
        r@ == address_key(address@),
        text::is_ascii_text(address@) ==> r@ == ascii_key(address@),
{
    let chars = text::to_chars(address);
    let trimmed = text::from_chars(text::trim(chars.as_slice()));
    proof {
        if text::is_ascii_text(address@) {
            lemma_trimmed_ascii(address@);
            lemma_trimmed_ascii(text::trimmed_start(address@));
        }
    }
    trimmed.as_str().to_lowercase()
}

/// Whether the latest message of a thread is from one of my addresses, up to
/// case and surrounding white space.
pub fn is_from_me(latest: Option<&Email>, my_emails: &[String]) -> (r: bool)
    ensures
        r == match latest {
            Some(email) => from_one_of(*email, text::texts(my_emails@)),
            None => false,
        },
        latest matches Some(email) ==> (all_ascii(*email, text::texts(my_emails@)) ==> r
            == from_one_of_ascii(*email, text::texts(my_emails@))),
{
    let ghost mine = text::texts(my_emails@);
    let email = match latest {
        Some(email) => email,
        None => {
            return false;
        },
    };
    let address = match email.sent_by() {
        Some(address) => address,
        None => {
            return false;
        },
    };
    let from = key_of(address.email.as_str());
    let mut i: usize = 0;
    while i < my_emails.len()
        invariant
            i <= my_emails@.len(),
            mine == text::texts(my_emails@),
            latest == Some(email),
            models::sender(*email) == Some(*address),
            from@ == address_key(address.email@),
            text::is_ascii_text(address.email@) ==> from@ == ascii_key(address.email@),
            forall|j: int| 0 <= j < i ==> address_key(#[trigger] mine[j]) != from@,
            forall|j: int|
                0 <= j < i && text::is_ascii_text(mine[j]) ==> ascii_key(#[trigger] mine[j])
                    == address_key(mine[j]),
        decreases my_emails@.len() - i,
    {
        let own = key_of(my_emails[i].as_str());
        assert(mine[i as int] == my_emails@[i as int]@);
        if text::same_str(own.as_str(), from.as_str()) {
            assert(address_key(mine[i as int]) == address_key(address.email@));
            proof {
                if all_ascii(*email, mine) {
                    assert(ascii_key(mine[i as int]) == ascii_key(address.email@));
                }
            }
            return true;
        }
        i = i + 1;
    }
    false
}

/// What is reported of whether a thread was answered.
#[derive(Debug)]
pub struct RepliedResponse {
    /// Whether the latest message is from me.
    pub replied: bool,
    /// Who the latest message is from.
    pub last_sender: Option<EmailAddress>,
    /// My addresses.
    pub my_identities: Vec<String>,
}

/// Whether the latest message of a thread was sent from one of my addresses.
pub fn replied(emails: &[Email], my_emails: Vec<String>) -> (r: RepliedResponse)
    ensures
        r.my_identities == my_emails,
        emails@.len() == 0 ==> !r.replied && r.last_sender is None,
        emails@.len() > 0 ==> exists|i: int|
            #[trigger] thread::is_latest(emails@, i) && r.replied == from_one_of(
                emails@[i],
                text::texts(my_emails@),
            ) && r.last_sender == models::sender(emails@[i]),
{
    let latest = latest_message(emails);
    let replied = is_from_me(latest, my_emails.as_slice());
    let last_sender = match latest {
        Some(email) => match email.sent_by() {
            Some(address) => Some(address.clone()),
            None => None,
        },
        None => None,
    };
    RepliedResponse { replied, last_sender, my_identities: my_emails }
}

/// Law: an email is from one of those addresses exactly if its sender's is, both trimmed
/// and in lower case.
pub proof fn law_from_one_of(email: Email, addresses: Seq<Seq<char>>)
    ensures
        from_one_of(email, addresses) <==> models::sender(email) is Some && exists|i: int|
            0 <= i < addresses.len() && text::unicode_lower(text::trimmed(#[trigger] addresses[i]))
                == text::unicode_lower(text::trimmed(models::sender(email)->0.email@)),
        from_one_of_ascii(email, addresses) <==> models::sender(email) is Some && exists|i: int|
            0 <= i < addresses.len() && text::lowered(text::trimmed(#[trigger] addresses[i]))
                == text::lowered(text::trimmed(models::sender(email)->0.email@)),
{
    if let Some(address) = models::sender(email) {
        if from_one_of(email, addresses) {
            let i = choose|i: int|
                0 <= i < addresses.len() && address_key(#[trigger] addresses[i]) == address_key(
                    address.email@,
                );
            assert(text::unicode_lower(text::trimmed(addresses[i])) == address_key(addresses[i]));
        }
        if exists|i: int|
            0 <= i < addresses.len() && text::unicode_lower(text::trimmed(#[trigger] addresses[i]))
                == text::unicode_lower(text::trimmed(address.email@)) {
            let i = choose|i: int|
                0 <= i < addresses.len() && text::unicode_lower(
                    text::trimmed(#[trigger] addresses[i]),
                ) == text::unicode_lower(text::trimmed(address.email@));
            assert(address_key(addresses[i]) == address_key(address.email@));
        }
        if from_one_of_ascii(email, addresses) {
            let i = choose|i: int|
                0 <= i < addresses.len() && ascii_key(#[trigger] addresses[i]) == ascii_key(
                    address.email@,
                );
            assert(text::lowered(text::trimmed(addresses[i])) == ascii_key(addresses[i]));
        }
        if exists|i: int|
            0 <= i < addresses.len() && text::lowered(text::trimmed(#[trigger] addresses[i]))
                == text::lowered(text::trimmed(address.email@)) {
            let i = choose|i: int|
                0 <= i < addresses.len() && text::lowered(text::trimmed(#[trigger] addresses[i]))
                    == text::lowered(text::trimmed(address.email@));
            assert(ascii_key(addresses[i]) == ascii_key(address.email@));
        }
    }
}

/// Law: an address is all that counts, and ASCII all through if each address is.
pub proof fn law_all_ascii(email: Email, addresses: Seq<Seq<char>>)
    ensures
        all_ascii(email, addresses) <==> (models::sender(email) is Some ==> text::is_ascii_text(
            models::sender(email)->0.email@,
        )) && forall|i: int|
            0 <= i < addresses.len() ==> text::is_ascii_text(#[trigger] addresses[i]),
{
}

} // verus!
