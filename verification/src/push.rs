//! Event streams: lines that are put together to events.

use crate::text;
use vstd::prelude::*;
use vstd::slice::slice_subrange;
use vstd::string::*;

verus! {

/// What was read of an event so far.
#[derive(Debug)]
pub struct EventReader {
    /// What kind of event it is.
    kind: Vec<char>,
    /// What it says.
    data: Vec<char>,
}

/// An event.
#[derive(Debug)]
pub struct PushEvent {
    /// What kind of event it is.
    pub kind: String,
    /// What it says.
    pub data: String,
}

/// What a line does to an event that was read so far: the kind and the data after
/// it. A line that names the kind replaces it, a line of data is put behind what
/// there is on a line of its own, and others, such as comments, are passed over.
pub open spec fn after_line(event: (Seq<char>, Seq<char>), line: Seq<char>) -> (
    Seq<char>,
    Seq<char>,
) {
    if "event:"@.is_prefix_of(line) {
        (text::trimmed_start(line.skip("event:"@.len() as int)), event.1)
    } else if "data:"@.is_prefix_of(line) {
        let value = text::trimmed_start(line.skip("data:"@.len() as int));
        (
            event.0,
            if event.1.len() == 0 {
                value
            } else {
                event.1.push('\n') + value
            },
        )
    } else {
        event
    }
}

/// What stands behind a prefix of a line, without its leading white space.
fn value_behind(line: &[char], prefix: &str) -> (r: Option<Vec<char>>)
    ensures
        r is Some <==> prefix@.is_prefix_of(line@),
        r matches Some(value) ==> value@ == text::trimmed_start(line@.skip(prefix@.len() as int)),
{
    let prefix = text::to_chars(prefix);
    if !text::begins_with(line, prefix.as_slice()) {
        return None;
    }
    let rest = slice_subrange(line, prefix.len(), line.len());
    assert(rest@ =~= line@.skip(prefix@.len() as int));
    let mut value: Vec<char> = Vec::new();
    text::extend(&mut value, text::trim_start(rest));
    assert(value@ =~= text::trimmed_start(rest@));
    Some(value)
}

impl EventReader {
    /// The kind and the data that were read so far.
    pub closed spec fn read(self) -> (Seq<char>, Seq<char>) {
        (self.kind@, self.data@)
    }

    /// A reader at the start of a stream.
    pub fn new() -> (r: Self)
        ensures
            r.read() == (Seq::<char>::empty(), Seq::<char>::empty()),
    {
        EventReader { kind: Vec::new(), data: Vec::new() }
    }

    /// Reads a line. An empty line ends an event, which is returned if it has any
    /// data.
    pub fn line(&mut self, line: &str) -> (r: Option<PushEvent>)
        ensures
            line@.len() > 0 ==> r is None && final(self).read() == after_line(
                old(self).read(),
                line@,
            ),
            line@.len() == 0 ==> final(self).read() == (Seq::<char>::empty(), Seq::<char>::empty()),
            line@.len() == 0 && old(self).read().1.len() == 0 ==> r is None,
            line@.len() == 0 && old(self).read().1.len() > 0 ==> (r matches Some(event) && (
            event.kind@, event.data@) == old(self).read()),
    {
        let chars = text::to_chars(line);
        if chars.len() == 0 {
            let event = if self.data.len() > 0 {
                Some(
                    PushEvent {
                        kind: text::from_chars(self.kind.as_slice()),
                        data: text::from_chars(self.data.as_slice()),
                    },
                )
            } else {
                None
            };
            self.kind = Vec::new();
            self.data = Vec::new();
            return event;
        }
        match value_behind(chars.as_slice(), "event:") {
            Some(kind) => {
                self.kind = kind;
            },
            None => match value_behind(chars.as_slice(), "data:") {
                Some(data) => {
                    if self.data.len() == 0 {
                        self.data = data;
                    } else {
                        self.data.push('\n');
                        text::extend(&mut self.data, data.as_slice());
                    }
                },
                None => {},
            },
        }
        None
    }
}

/// Law: a line that names the kind of an event sets it, a line of data is added to the
/// data on a line of its own, and any other line changes nothing.
pub proof fn law_event_lines(kind: Seq<char>, data: Seq<char>, value: Seq<char>, line: Seq<char>)
    ensures
        after_line((kind, data), "event:"@ + value) == (text::trimmed_start(value), data),
        data.len() == 0 ==> after_line((kind, data), "data:"@ + value) == (
            kind,
            text::trimmed_start(value),
        ),
        data.len() > 0 ==> after_line((kind, data), "data:"@ + value) == (
            kind,
            data + seq!['\n'] + text::trimmed_start(value),
        ),
        !"event:"@.is_prefix_of(line) && !"data:"@.is_prefix_of(line) ==> after_line(
            (kind, data),
            line,
        ) == (kind, data),
{
    reveal_strlit("event:");
    reveal_strlit("data:");
    let named = "event:"@ + value;
    let said = "data:"@ + value;
    assert(named.subrange(0, 6) =~= "event:"@);
    assert(named.skip(6) =~= value);
    assert(said.subrange(0, 5) =~= "data:"@);
    assert(said.skip(5) =~= value);
    assert(!"event:"@.is_prefix_of(said)) by {
        assert("event:"@.is_prefix_of(said) ==> said.subrange(0, 6)[0] == said[0]);
    }
    assert(data.push('\n') =~= data + seq!['\n']);
}

} // verus!
