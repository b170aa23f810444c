//! What a message to be sent is made of.

use crate::models::EmailAddress;
use crate::text;
use vstd::prelude::*;

verus! {

/// A file to send along.
#[derive(Debug)]
pub struct Attachment {
    /// The file's name.
    pub filename: String,
    /// Its media type.
    pub content_type: String,
    /// Its contents.
    pub data: Vec<u8>,
}

/// What a message is made of, besides recipients, subject and text.
#[derive(Debug)]
pub struct ComposeParams<'a> {
    /// Who gets a copy.
    pub cc: Vec<EmailAddress>,
    /// Who gets a copy that the others do not see.
    pub bcc: Vec<EmailAddress>,
    /// The identity to send from.
    pub from: Option<&'a str>,
    /// Whether to save a draft in place of sending.
    pub draft: bool,
    /// The HTML body.
    pub html_body: Option<String>,
    /// The files to send along.
    pub attachments: Vec<Attachment>,
}

/// The addresses in an optional comma-separated list.
pub open spec fn addresses_in(list: Option<Seq<char>>) -> Seq<Seq<char>> {
    match list {
        Some(list) => text::list_items(list),
        None => Seq::<Seq<char>>::empty(),
    }
}

/// Whether those are the addresses, without names.
pub open spec fn are_addresses(list: Seq<EmailAddress>, addresses: Seq<Seq<char>>) -> bool {
    &&& list.len() == addresses.len()
    &&& forall|i: int|
        0 <= i < list.len() ==> (#[trigger] list[i]).name is None && list[i].email@ == addresses[i]
}

/// The addresses in a comma-separated list.
pub fn parse_addresses(list: &str) -> (r: Vec<EmailAddress>)
    ensures
        are_addresses(r@, addresses_in(Some(list@))),
{
    let items = text::split_list(list);
    let ghost all = text::texts(items@);
    let mut out: Vec<EmailAddress> = Vec::new();
    let mut i: usize = 0;
    while i < items.len()
        invariant
            i <= items@.len(),
            all == text::texts(items@),
            are_addresses(out@, all.take(i as int)),
        decreases items@.len() - i,
    {
        out.push(EmailAddress { name: None, email: items[i].clone() });
        assert(all[i as int] == items@[i as int]@);
        i = i + 1;
    }
    assert(all.take(all.len() as int) =~= all);
    out
}

fn parse_optional(list: Option<&str>) -> (r: Vec<EmailAddress>)
    ensures
        are_addresses(r@, addresses_in(text::opt_str(list))),
{
    match list {
        Some(list) => parse_addresses(list),
        None => Vec::new(),
    }
}

/// Whether the first of the loads that failed is the one at `i`.
pub open spec fn first_failure(loads: Seq<Result<Attachment, String>>, i: int) -> bool {
    &&& 0 <= i < loads.len()
    &&& loads[i] is Err
    &&& forall|j: int| 0 <= j < i ==> (#[trigger] loads[j]) is Ok
}

/// Whether every load succeeded.
pub open spec fn all_loaded(loads: Seq<Result<Attachment, String>>) -> bool {
    forall|j: int| 0 <= j < loads.len() ==> (#[trigger] loads[j]) is Ok
}

/// The attachments, or the first error among their loads.
pub fn collect_attachments(loads: Vec<Result<Attachment, String>>) -> (r: Result<
    Vec<Attachment>,
    String,
>)
    ensures
        r is Ok <==> all_loaded(loads@),
        r matches Ok(attachments) ==> attachments@.len() == loads@.len() && forall|i: int|
            0 <= i < loads@.len() ==> loads@[i] == Ok::<Attachment, String>(
                #[trigger] attachments@[i],
            ),
        r matches Err(message) ==> exists|i: int|
            #[trigger] first_failure(loads@, i) && loads@[i] == Err::<Attachment, String>(message),
{
    let ghost all = loads@;
    let mut rest = loads;
    let mut out: Vec<Attachment> = Vec::new();
    while rest.len() > 0
        invariant
            all == loads@,
            out@.len() + rest@.len() == all.len(),
            rest@ == all.skip(out@.len() as int),
            forall|i: int|
                0 <= i < out@.len() ==> all[i] == Ok::<Attachment, String>(#[trigger] out@[i]),
        decreases rest@.len(),
    {
        let ghost n = out@.len() as int;
        let load = rest.remove(0);
        assert(load == all[n]);
        assert forall|j: int| 0 <= j < n implies (#[trigger] all[j]) is Ok by {
            assert(all[j] == Ok::<Attachment, String>(out@[j]));
        }
        match load {
            Ok(attachment) => {
                out.push(attachment);
                assert(rest@ =~= all.skip(n + 1));
            },
            Err(message) => {
                assert(first_failure(all, n));
                return Err(message);
            },
        }
    }
    assert forall|j: int| 0 <= j < all.len() implies (#[trigger] all[j]) is Ok by {
        assert(all[j] == Ok::<Attachment, String>(out@[j]));
    }
    Ok(out)
}

/// What a message is made of, given the HTML body as it was resolved and the
/// attachments as they were loaded. What failed first is reported: the HTML body
/// comes before the attachments, and those in order.
pub fn build_compose_params<'a>(
    cc: Option<&str>,
    bcc: Option<&str>,
    from: Option<&'a str>,
    draft: bool,
    html: Result<Option<String>, String>,
    loads: Vec<Result<Attachment, String>>,
) -> (r: Result<ComposeParams<'a>, String>)
    ensures
        html matches Err(message) ==> r == Err::<ComposeParams, String>(message),
        html is Ok && !all_loaded(loads@) ==> (r matches Err(message) && exists|i: int|
            #[trigger] first_failure(loads@, i) && loads@[i] == Err::<Attachment, String>(message)),
        html is Ok && all_loaded(loads@) ==> {
            &&& r matches Ok(params)
            &&& are_addresses(params.cc@, addresses_in(text::opt_str(cc)))
            &&& are_addresses(params.bcc@, addresses_in(text::opt_str(bcc)))
            &&& params.from == from
            &&& params.draft == draft
            &&& html == Ok::<Option<String>, String>(params.html_body)
            &&& params.attachments@.len() == loads@.len()
            &&& forall|i: int|
                0 <= i < loads@.len() ==> loads@[i] == Ok::<Attachment, String>(
                    #[trigger] params.attachments@[i],
                )
        },
{
    let html_body = match html {
        Ok(html_body) => html_body,
        Err(message) => {
            return Err(message);
        },
    };
    let attachments = match collect_attachments(loads) {
        Ok(attachments) => attachments,
        Err(message) => {
            return Err(message);
        },
    };
    Ok(
        ComposeParams {
            cc: parse_optional(cc),
            bcc: parse_optional(bcc),
            from,
            draft,
            html_body,
            attachments,
        },
    )
}

/// Law: without a list there are no addresses; else there are those of the list.
pub proof fn law_addresses_in(list: Seq<char>)
    ensures
        addresses_in(None).len() == 0,
        addresses_in(Some(list)) == text::list_items(list),
{
}

/// Law: addresses that were read are as many as there are in the list, each without a
/// name and in its place.
pub proof fn law_addresses(list: Seq<EmailAddress>, addresses: Seq<Seq<char>>, i: int)
    requires
        are_addresses(list, addresses),
        0 <= i < addresses.len(),
    ensures
        list.len() == addresses.len(),
        list[i].name is None,
        list[i].email@ == addresses[i],
{
}

/// Law: where no addresses are asked for none are read.
pub proof fn law_no_addresses(list: Seq<EmailAddress>)
    requires
        are_addresses(list, Seq::<Seq<char>>::empty()),
    ensures
        list.len() == 0,
{
}

/// Law: either every load succeeded, or there is one that failed before any other did.
pub proof fn law_loads(loads: Seq<Result<Attachment, String>>, i: int, j: int)
    ensures
        all_loaded(loads) && 0 <= i < loads.len() ==> loads[i] is Ok,
        first_failure(loads, i) ==> 0 <= i < loads.len() && loads[i] is Err && !all_loaded(loads),
        first_failure(loads, i) && 0 <= j < loads.len() && loads[j] is Err ==> i <= j,
{
}

} // verus!
