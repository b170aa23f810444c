//! Finding mailboxes.

use crate::text;
use vstd::prelude::*;

verus! {

/// A mailbox.
#[derive(Debug)]
pub struct Mailbox {
    /// Its identifier.
    pub id: String,
    /// Its name.
    pub name: String,
    /// What it is for, such as `inbox` or `junk`.
    pub role: Option<String>,
}

/// Whether a mailbox has that name, up to the case of ASCII letters.
pub open spec fn is_named(mailbox: Mailbox, name: Seq<char>) -> bool {
    text::lowered(mailbox.name@) == text::lowered(name)
}

/// Whether a mailbox has that role, up to the case of ASCII letters.
pub open spec fn has_role(mailbox: Mailbox, role: Seq<char>) -> bool {
    mailbox.role matches Some(own) && text::lowered(own@) == text::lowered(role)
}

/// Whether the mailbox at `i` is the one to find: the first of that name or, if
/// none has it, the first with that role.
pub open spec fn is_found(mailboxes: Seq<Mailbox>, name: Seq<char>, i: int) -> bool {
    &&& 0 <= i < mailboxes.len()
    &&& if is_named(mailboxes[i], name) {
        forall|j: int| 0 <= j < i ==> !is_named(#[trigger] mailboxes[j], name)
    } else {
        &&& has_role(mailboxes[i], name)
        &&& forall|j: int| 0 <= j < mailboxes.len() ==> !is_named(#[trigger] mailboxes[j], name)
        &&& forall|j: int| 0 <= j < i ==> !has_role(#[trigger] mailboxes[j], name)
    }
}

/// Finds a mailbox by its name or, if none has it, by its role.
pub fn find_mailbox<'a>(mailboxes: &'a [Mailbox], name: &str) -> (r: Option<&'a Mailbox>)
    ensures
        match r {
            Some(mailbox) => exists|i: int|
                #[trigger] is_found(mailboxes@, name@, i) && *mailbox == mailboxes@[i],
            None => forall|j: int|
                0 <= j < mailboxes@.len() ==> !is_named(#[trigger] mailboxes@[j], name@)
                    && !has_role(mailboxes@[j], name@),
        },
{
    let wanted = text::to_chars(name);
    let mut i: usize = 0;
    while i < mailboxes.len()
        invariant
            i <= mailboxes@.len(),
            wanted@ == name@,
            forall|j: int| 0 <= j < i ==> !is_named(#[trigger] mailboxes@[j], name@),
        decreases mailboxes@.len() - i,
    {
        let own = text::to_chars(mailboxes[i].name.as_str());
        if text::same_ignoring_case(own.as_slice(), wanted.as_slice()) {
            assert(is_found(mailboxes@, name@, i as int));
            return Some(&mailboxes[i]);
        }
        i = i + 1;
    }
    let mut k: usize = 0;
    while k < mailboxes.len()
        invariant
            k <= mailboxes@.len(),
            wanted@ == name@,
            forall|j: int|
                0 <= j < mailboxes@.len() ==> !is_named(#[trigger] mailboxes@[j], name@),
            forall|j: int| 0 <= j < k ==> !has_role(#[trigger] mailboxes@[j], name@),
        decreases mailboxes@.len() - k,
    {
        let found = match &mailboxes[k].role {
            Some(role) => {
                let own = text::to_chars(role.as_str());
                text::same_ignoring_case(own.as_slice(), wanted.as_slice())
            },
            None => false,
        };
        if found {
            assert(is_found(mailboxes@, name@, k as int));
            return Some(&mailboxes[k]);
        }
        k = k + 1;
    }
    None
}

/// Law: a mailbox of the name is found before any with the role, and of several the first.
pub proof fn law_found(mailboxes: Seq<Mailbox>, name: Seq<char>, i: int, j: int)
    requires
        is_found(mailboxes, name, i),
        0 <= j < mailboxes.len(),
    ensures
        0 <= i < mailboxes.len(),
        text::lowered(mailboxes[j].name@) == text::lowered(name) ==> i <= j && text::lowered(
            mailboxes[i].name@,
        ) == text::lowered(name),
        text::lowered(mailboxes[i].name@) == text::lowered(name) || (mailboxes[i].role is Some
            && text::lowered(mailboxes[i].role->0@) == text::lowered(name)),
        text::lowered(mailboxes[i].name@) != text::lowered(name) && mailboxes[j].role is Some
            && text::lowered(mailboxes[j].role->0@) == text::lowered(name) ==> i <= j,
{
    if j < i {
        if is_named(mailboxes[i], name) {
            assert(!is_named(mailboxes[j], name));
        } else {
            assert(!has_role(mailboxes[j], name));
        }
    }
    assert(is_named(mailboxes[j], name) == is_named(mailboxes[j], name));
}

/// Law: a mailbox goes by its name and by its role, up to the case of ASCII letters.
pub proof fn law_names_and_roles(mailbox: Mailbox, name: Seq<char>)
    ensures
        is_named(mailbox, name) <==> text::lowered(mailbox.name@) == text::lowered(name),
        has_role(mailbox, name) <==> mailbox.role is Some && text::lowered(mailbox.role->0@)
            == text::lowered(name),
{
}

} // verus!
