//! Saving raw messages as files.

use crate::digest;
use crate::digest::take_chars;
use crate::models::{clone_text, Email};
use crate::text;
use vstd::prelude::*;
use vstd::slice::slice_subrange;
use vstd::string::*;

verus! {

/// How the `export` command saves a message.
#[derive(Debug, Clone, Copy, PartialEq, Eq, Structural)]
pub enum ExportFormat {
    /// The raw message, in an `.eml` file.
    Eml,
}

impl Default for ExportFormat {
    fn default() -> (r: Self)
        ensures
            r == ExportFormat::Eml,
    {
        ExportFormat::Eml
    }
}

/// Whether the character separates the components of a path, on some system.
pub open spec fn is_path_separator(c: char) -> bool {
    c == '/' || c == '\\'
}

/// A text behind its last path separator.
pub open spec fn base_name(s: Seq<char>) -> Seq<char>
    decreases s.len(),
{
    if s.len() == 0 || is_path_separator(s.last()) {
        Seq::<char>::empty()
    } else {
        base_name(s.drop_last()).push(s.last())
    }
}

/// A text without its control characters.
pub open spec fn without_controls(s: Seq<char>) -> Seq<char>
    decreases s.len(),
{
    if s.len() == 0 {
        s
    } else if text::is_control(s.last()) {
        without_controls(s.drop_last())
    } else {
        without_controls(s.drop_last()).push(s.last())
    }
}

/// Whether a name can be that of a file: it is not empty and no reference to a
/// directory.
pub open spec fn is_file_name(s: Seq<char>) -> bool {
    s.len() > 0 && s != "."@ && s != ".."@
}

/// The name under which a file can be saved: the last component of the name
/// without control characters, or the fallback where that is no name.
pub open spec fn sanitized(name: Seq<char>, fallback: Seq<char>) -> Seq<char> {
    let base = without_controls(base_name(name));
    if is_file_name(base) {
        base
    } else {
        fallback
    }
}

fn find_base_name<'a>(s: &'a [char]) -> (r: &'a [char])
    ensures
        r@ == base_name(s@),
{
    let mut n: usize = s.len();
    assert(s@.subrange(n as int, n as int) =~= Seq::<char>::empty());
    assert(s@.take(n as int) =~= s@);
    proof {
        assert(base_name(s@) + Seq::<char>::empty() =~= base_name(s@));
    }
    while n > 0 && s[n - 1] != '/' && s[n - 1] != '\\'
        invariant
            n <= s@.len(),
            base_name(s@) == base_name(s@.take(n as int)) + s@.subrange(n as int, s@.len() as int),
        decreases n,
    {
        assert(s@.take(n as int).drop_last() =~= s@.take(n - 1));
        assert(base_name(s@.take(n - 1)).push(s@[n - 1]) + s@.subrange(n as int, s@.len() as int)
            =~= base_name(s@.take(n - 1)) + s@.subrange(n - 1, s@.len() as int));
        n = n - 1;
    }
    let r = slice_subrange(s, n, s.len());
    assert(base_name(s@.take(n as int)) =~= Seq::<char>::empty());
    assert(r@ =~= base_name(s@));
    r
}

fn drop_controls(s: &[char]) -> (r: Vec<char>)
    ensures
        r@ == without_controls(s@),
{
    let mut out: Vec<char> = Vec::new();
    let mut i: usize = 0;
    assert(s@.take(0) =~= Seq::<char>::empty());
    while i < s.len()
        invariant
            i <= s@.len(),
            out@ == without_controls(s@.take(i as int)),
        decreases s@.len() - i,
    {
        assert(s@.take(i + 1).drop_last() =~= s@.take(i as int));
        if !text::control(s[i]) {
            out.push(s[i]);
        }
        i = i + 1;
    }
    assert(s@.take(s@.len() as int) =~= s@);
    out
}

/// The name under which a file can be saved: the last component of the name
/// without control characters, or the fallback where that is no name.
pub fn sanitize_filename(name: &str, fallback: &str) -> (r: String)
    ensures
        r@ == sanitized(name@, fallback@),
{
    let chars = text::to_chars(name);
    let base = drop_controls(find_base_name(chars.as_slice()));
    if base.len() > 0 && !text::same(base.as_slice(), text::to_chars(".").as_slice())
        && !text::same(base.as_slice(), text::to_chars("..").as_slice()) {
        text::from_chars(base.as_slice())
    } else {
        fallback.to_owned()
    }
}

/// `c`, or a hyphen in place of a path separator.
pub open spec fn folded_char(c: char) -> char {
    if is_path_separator(c) {
        '-'
    } else {
        c
    }
}

/// The day of an email, if it has a date.
pub open spec fn date_part(email: Email) -> Seq<char> {
    match email.received_at {
        Some(date) => digest::first_chars(date@, 10),
        None => ""@,
    }
}

/// The subject of an email with hyphens in place of path separators, trimmed.
pub open spec fn subject_part(email: Email) -> Seq<char> {
    match email.subject {
        Some(subject) => text::trimmed(subject@.map_values(|c: char| folded_char(c))),
        None => ""@,
    }
}

/// The day, subject and identifier of an email, those that are not empty, with
/// hyphens between them.
pub open spec fn file_stem(email: Email) -> Seq<char> {
    text::joined(
        text::nonempty(seq![date_part(email), subject_part(email), email.id@]),
        seq!['-'],
    )
}

/// The name of the file that an email is exported to.
pub open spec fn eml_name(email: Email) -> Seq<char> {
    sanitized(file_stem(email), email.id@) + ".eml"@
}

fn fold_separators(s: &str) -> (r: Vec<char>)
    ensures
        r@ == s@.map_values(|c: char| folded_char(c)),
{
    let chars = text::to_chars(s);
    let mut out: Vec<char> = Vec::new();
    let mut i: usize = 0;
    while i < chars.len()
        invariant
            i <= chars@.len(),
            out@ == chars@.take(i as int).map_values(|c: char| folded_char(c)),
        decreases chars@.len() - i,
    {
        let c = chars[i];
        out.push(
            if c == '/' || c == '\\' {
                '-'
            } else {
                c
            },
        );
        i = i + 1;
        assert(out@ =~= chars@.take(i as int).map_values(|c: char| folded_char(c)));
    }
    assert(chars@.take(chars@.len() as int) =~= chars@);
    out
}

/// Appends a row unless it is empty.
fn push_part(parts: &mut Vec<Vec<char>>, part: &[char])
    ensures
        text::rows(final(parts)@) == if part@.len() == 0 {
            text::rows(old(parts)@)
        } else {
            text::rows(old(parts)@).push(part@)
        },
{
    if part.len() > 0 {
        let ghost before = parts@;
        let mut row: Vec<char> = Vec::new();
        text::extend(&mut row, part);
        assert(row@ =~= part@);
        parts.push(row);
        assert(text::rows(parts@) =~= text::rows(before).push(part@));
    }
}

/// The name of the file that an email is exported to:
/// `<YYYY-MM-DD>-<subject>-<id>.eml`, without the date where it is unknown and
/// without the subject where it is empty. Path separators in the subject become
/// hyphens, so that the whole subject stays in one path component.
pub fn eml_filename(email: &Email) -> (r: String)
    ensures
        r@ == eml_name(*email),
{
    proof {
        reveal_strlit("");
        assert(""@ =~= Seq::<char>::empty());
    }
    let date = match &email.received_at {
        Some(date) => take_chars(date.as_str(), 10),
        None => Vec::new(),
    };
    let folded = match &email.subject {
        Some(subject) => fold_separators(subject.as_str()),
        None => Vec::new(),
    };
    let subject = text::trim(folded.as_slice());
    let id = text::to_chars(email.id.as_str());
    let mut parts: Vec<Vec<char>> = Vec::new();
    assert(text::rows(parts@) =~= Seq::<Seq<char>>::empty());
    push_part(&mut parts, date.as_slice());
    push_part(&mut parts, subject);
    push_part(&mut parts, id.as_slice());
    let hyphen: Vec<char> = vec!['-'];
    assert(hyphen@ =~= seq!['-']);
    let stem = text::from_chars(text::join(&parts, hyphen.as_slice()).as_slice());
    proof {
        let all = seq![date_part(*email), subject_part(*email), email.id@];
        assert(date@ == date_part(*email));
        assert(subject@ == subject_part(*email));
        assert(all.drop_last() =~= seq![date@, subject@]);
        assert(all.drop_last().drop_last() =~= seq![date@]);
        assert(all.drop_last().drop_last().drop_last() =~= Seq::<Seq<char>>::empty());
        reveal_with_fuel(text::nonempty, 4);
        assert(text::rows(parts@) =~= text::nonempty(all));
    }
    let name = sanitize_filename(stem.as_str(), email.id.as_str());
    text::concat2(name.as_str(), ".eml")
}

/// A path below a directory; the path itself where it is absolute.
pub open spec fn path_below(dir: Seq<char>, path: Seq<char>) -> Seq<char> {
    if path.len() > 0 && path[0] == '/' {
        path
    } else if dir.len() == 0 || dir.last() == '/' {
        dir + path
    } else {
        dir.push('/') + path
    }
}

/// Where a file is written: below `output` where that is a directory, by its
/// form or on disk, else to `output` itself; in the current directory where no
/// output is given.
pub open spec fn output_path(
    output: Option<Seq<char>>,
    is_dir: bool,
    filename: Seq<char>,
) -> Seq<char> {
    match output {
        Some(path) => if is_dir || (path.len() > 0 && path.last() == '/') {
            path_below(path, filename)
        } else {
            path
        },
        None => filename,
    }
}

/// Where a file is written. `output` is taken for a directory where it ends with
/// a separator or where `is_dir` says that it exists as one; otherwise it is the
/// file itself. Without it the file lands in the current directory.
pub fn resolve_output_path(output: Option<&str>, is_dir: bool, filename: &str) -> (r: String)
    ensures
        r@ == output_path(text::opt_str(output), is_dir, filename@),
{
    match output {
        Some(path) => {
            let dir = text::to_chars(path);
            let closed = dir.len() > 0 && dir[dir.len() - 1] == '/';
            if is_dir || closed {
                let name = text::to_chars(filename);
                if name.len() > 0 && name[0] == '/' {
                    filename.to_owned()
                } else if dir.len() == 0 || closed {
                    text::concat2(path, filename)
                } else {
                    let mut out = path.to_owned();
                    out.push('/');
                    out.append(filename);
                    out
                }
            } else {
                path.to_owned()
            }
        },
        None => filename.to_owned(),
    }
}

/// What is reported of an export.
#[derive(Debug)]
pub struct ExportResponse {
    /// Where the message was written.
    pub path: String,
    /// How many bytes it has.
    pub bytes: usize,
    /// The email's identifier.
    pub id: String,
    /// Its subject.
    pub subject: Option<String>,
}

/// What the raw message of an email is stored under, or the message that says
/// that it cannot be exported.
pub fn raw_blob(email_id: &str, email: &Email) -> (r: Result<String, String>)
    ensures
        match (r, email.blob_id) {
            (Ok(blob_id), Some(own)) => blob_id == own,
            (Err(message), None) => message@ == "email "@ + email_id@
                + " has no blobId; cannot export the raw message"@,
            _ => false,
        },
{
    match &email.blob_id {
        Some(blob_id) => Ok(blob_id.clone()),
        None => Err(
            text::concat3("email ", email_id, " has no blobId; cannot export the raw message"),
        ),
    }
}

/// Where the raw message of an email goes, and what is reported of it.
pub fn export_email(
    email: &Email,
    bytes: usize,
    output: Option<&str>,
    is_dir: bool,
    format: ExportFormat,
) -> (r: ExportResponse)
    ensures
        r.path@ == output_path(text::opt_str(output), is_dir, eml_name(*email)),
        r.bytes == bytes,
        r.id == email.id,
        r.subject == email.subject,
{
    match format {
        ExportFormat::Eml => ExportResponse {
            path: resolve_output_path(output, is_dir, eml_filename(email).as_str()),
            bytes,
            id: email.id.clone(),
            subject: clone_text(&email.subject),
        },
    }
}

/// Whether a text can stand as one component of a path: it holds no path
/// separator and no control character.
pub open spec fn is_component(s: Seq<char>) -> bool {
    forall|i: int|
        0 <= i < s.len() ==> !is_path_separator(#[trigger] s[i]) && !text::is_control(s[i])
}

proof fn lemma_base_name_clean(s: Seq<char>)
    ensures
        forall|i: int| 0 <= i < base_name(s).len() ==> !is_path_separator(#[trigger] base_name(s)[i]),
        is_component(s) ==> base_name(s) == s,
    decreases s.len(),
{
    if s.len() > 0 {
        lemma_base_name_clean(s.drop_last());
        let front = base_name(s.drop_last());
        assert forall|i: int| 0 <= i < base_name(s).len() implies !is_path_separator(
            #[trigger] base_name(s)[i],
        ) by {
            if i < front.len() {
                assert(base_name(s)[i] == front[i]);
            }
        }
        if is_component(s) {
            assert(!is_path_separator(s[s.len() - 1]));
            assert(is_component(s.drop_last()));
            assert(s.drop_last().push(s.last()) =~= s);
        }
    } else {
        assert(base_name(s) =~= s);
    }
}

proof fn lemma_without_controls_clean(s: Seq<char>)
    requires
        forall|i: int| 0 <= i < s.len() ==> !is_path_separator(#[trigger] s[i]),
    ensures
        is_component(without_controls(s)),
        is_component(s) ==> without_controls(s) == s,
    decreases s.len(),
{
    if s.len() > 0 {
        assert(!is_path_separator(s[s.len() - 1]));
        lemma_without_controls_clean(s.drop_last());
        if is_component(s) {
            assert(!text::is_control(s[s.len() - 1]));
            assert(is_component(s.drop_last()));
            assert(s.drop_last().push(s.last()) =~= s);
        }
    }
}

/// Law: the name of an exported file is one component of a path, unless what the
/// name is made of leaves none and the identifier that stands in for it is none
/// either.
pub proof fn law_eml_name_safe(email: Email)
    requires
        is_file_name(without_controls(base_name(file_stem(email)))) || is_component(email.id@),
    ensures
        is_component(eml_name(email)),
        is_file_name(eml_name(email)),
{
    reveal_strlit(".eml");
    reveal_strlit(".");
    reveal_strlit("..");
    lemma_base_name_clean(file_stem(email));
    lemma_without_controls_clean(base_name(file_stem(email)));
    let name = sanitized(file_stem(email), email.id@);
    let all = eml_name(email);
    assert(is_component(name));
    assert forall|i: int| 0 <= i < all.len() implies !is_path_separator(#[trigger] all[i])
        && !text::is_control(all[i]) by {
        if i < name.len() {
            assert(all[i] == name[i]);
        } else {
            assert(all[i] == ".eml"@[i - name.len()]);
        }
    }
}

/// Law: a name that was made fit for a file stays as it is when it is made fit
/// once more.
pub proof fn law_sanitized_settles(name: Seq<char>, fallback: Seq<char>, other: Seq<char>)
    requires
        is_file_name(without_controls(base_name(name))),
    ensures
        sanitized(sanitized(name, fallback), other) == sanitized(name, fallback),
{
    let base = without_controls(base_name(name));
    lemma_base_name_clean(name);
    lemma_without_controls_clean(base_name(name));
    lemma_base_name_clean(base);
    lemma_without_controls_clean(base);
}

proof fn lemma_trimmed_component(s: Seq<char>)
    requires
        is_component(s),
    ensures
        is_component(text::trimmed_start(s)),
        is_component(text::trimmed_end(s)),
    decreases s.len(),
{
    if s.len() > 0 {
        assert(is_component(s.drop_first())) by {
            assert forall|i: int| 0 <= i < s.drop_first().len() implies !is_path_separator(
                #[trigger] s.drop_first()[i],
            ) && !text::is_control(s.drop_first()[i]) by {
                assert(s.drop_first()[i] == s[i + 1]);
            }
        }
        assert(is_component(s.drop_last()));
        lemma_trimmed_component(s.drop_first());
        lemma_trimmed_component(s.drop_last());
    }
}

proof fn lemma_joined_component(parts: Seq<Seq<char>>)
    requires
        forall|k: int| 0 <= k < parts.len() ==> is_component(#[trigger] parts[k]),
    ensures
        is_component(text::joined(text::nonempty(parts), seq!['-'])),
    decreases parts.len(),
{
    if parts.len() > 0 {
        let front = parts.drop_last();
        assert forall|k: int| 0 <= k < front.len() implies is_component(#[trigger] front[k]) by {
            assert(front[k] == parts[k]);
        }
        lemma_joined_component(front);
        assert(is_component(parts[parts.len() - 1]));
        if parts.last().len() > 0 {
            let kept = text::nonempty(front);
            assert(kept.push(parts.last()).drop_last() =~= kept);
        }
    }
}

/// Law: where nothing holds a control character and no separator stands in the
/// date or the identifier, the whole date, subject and identifier are in the
/// name of an exported file.
pub proof fn law_eml_name_whole(email: Email)
    requires
        is_component(date_part(email)),
        is_component(email.id@),
        email.subject matches Some(subject) ==> forall|i: int|
            0 <= i < subject@.len() ==> !text::is_control(#[trigger] subject@[i]),
        is_file_name(file_stem(email)),
    ensures
        eml_name(email) == file_stem(email) + ".eml"@,
{
    reveal_strlit("");
    match email.subject {
        Some(subject) => {
            let folded = subject@.map_values(|c: char| folded_char(c));
            assert(is_component(folded));
            lemma_trimmed_component(folded);
            lemma_trimmed_component(text::trimmed_start(folded));
        },
        None => {},
    }
    assert(is_component(subject_part(email)));
    let parts = seq![date_part(email), subject_part(email), email.id@];
    lemma_joined_component(parts);
    lemma_base_name_clean(file_stem(email));
    lemma_without_controls_clean(base_name(file_stem(email)));
}

/// The stem of a file name, written out.
proof fn lemma_file_stem(email: Email)
    requires
        email.id@.len() > 0,
    ensures
        ({
            let hyphen = seq!['-'];
            let none = Seq::<char>::empty();
            let date = date_part(email);
            let subject = subject_part(email);
            file_stem(email) == (if date.len() > 0 {
                date + hyphen
            } else {
                none
            }) + (if subject.len() > 0 {
                subject + hyphen
            } else {
                none
            }) + email.id@
        }),
{
    let date = date_part(email);
    let subject = subject_part(email);
    let id = email.id@;
    let hyphen = seq!['-'];
    let parts = seq![date, subject, id];
    let none = Seq::<Seq<char>>::empty();
    assert(parts.drop_last() =~= seq![date, subject]);
    assert(parts.drop_last().drop_last() =~= seq![date]);
    assert(parts.drop_last().drop_last().drop_last() =~= none);
    reveal_with_fuel(text::nonempty, 4);
    let kept = text::nonempty(parts);
    assert(text::joined(none, hyphen) =~= Seq::<char>::empty());
    if date.len() > 0 && subject.len() > 0 {
        assert(kept =~= seq![date, subject, id]);
        assert(kept.drop_last() =~= seq![date, subject]);
        assert(kept.drop_last().drop_last() =~= seq![date]);
        assert(kept.drop_last().drop_last().drop_last() =~= none);
        assert(text::joined(seq![date], hyphen) =~= date);
        assert(text::joined(seq![date, subject], hyphen) =~= date + hyphen + subject);
    } else if date.len() > 0 {
        assert(kept =~= seq![date, id]);
        assert(kept.drop_last() =~= seq![date]);
        assert(kept.drop_last().drop_last() =~= none);
        assert(text::joined(seq![date], hyphen) =~= date);
    } else if subject.len() > 0 {
        assert(kept =~= seq![subject, id]);
        assert(kept.drop_last() =~= seq![subject]);
        assert(kept.drop_last().drop_last() =~= none);
        assert(text::joined(seq![subject], hyphen) =~= subject);
    } else {
        assert(kept =~= seq![id]);
        assert(kept.drop_last() =~= none);
    }
    assert(file_stem(email) =~= (if date.len() > 0 {
        date + hyphen
    } else {
        Seq::<char>::empty()
    }) + (if subject.len() > 0 {
        subject + hyphen
    } else {
        Seq::<char>::empty()
    }) + id);
}

/// Law: the name of an exported file is the first ten characters of the date, a
/// hyphen, the whole subject, trimmed and with hyphens in place of path separators,
/// a hyphen, the identifier and `.eml`. A date that is unknown and a subject that is
/// empty are left out with their hyphens. This holds where nothing has a control
/// character and no separator stands in the date or the identifier.
pub proof fn law_eml_name_written(email: Email)
    requires
        email.id@.len() > 0,
        forall|i: int|
            0 <= i < email.id@.len() ==> (#[trigger] email.id@[i]) != '/' && email.id@[i] != '\\'
                && !text::is_control(email.id@[i]),
        email.received_at matches Some(date) ==> forall|i: int|
            0 <= i < date@.len() && i < 10 ==> (#[trigger] date@[i]) != '/' && date@[i] != '\\'
                && !text::is_control(date@[i]),
        email.subject matches Some(subject) ==> forall|i: int|
            0 <= i < subject@.len() ==> !text::is_control(#[trigger] subject@[i]),
    ensures
        ({
            let none = Seq::<char>::empty();
            let date = match email.received_at {
                Some(date) => if date@.len() > 10 {
                    date@.take(10)
                } else {
                    date@
                },
                None => none,
            };
            let subject = match email.subject {
                Some(subject) => text::trimmed(
                    subject@.map_values(
                        |c: char|
                            if c == '/' || c == '\\' {
                                '-'
                            } else {
                                c
                            },
                    ),
                ),
                None => none,
            };
            eml_name(email) == (if date.len() > 0 {
                date + seq!['-']
            } else {
                none
            }) + (if subject.len() > 0 {
                subject + seq!['-']
            } else {
                none
            }) + email.id@ + ".eml"@
        }),
{
    reveal_strlit("");
    reveal_strlit(".");
    reveal_strlit("..");
    let none = Seq::<char>::empty();
    assert(""@ =~= none);
    let stem = file_stem(email);
    lemma_file_stem(email);
    if let Some(subject) = email.subject {
        let folded = subject@.map_values(|c: char| folded_char(c));
        let hyphened = subject@.map_values(
            |c: char|
                if c == '/' || c == '\\' {
                    '-'
                } else {
                    c
                },
        );
        assert(folded =~= hyphened);
        assert(is_component(folded));
        lemma_trimmed_component(folded);
        lemma_trimmed_component(text::trimmed_start(folded));
    }
    assert(is_component(subject_part(email)));
    assert(is_component(date_part(email)));
    assert(is_component(email.id@));
    let parts = seq![date_part(email), subject_part(email), email.id@];
    lemma_joined_component(parts);
    lemma_base_name_clean(stem);
    lemma_without_controls_clean(base_name(stem));
    if date_part(email).len() > 0 {
        assert(stem[date_part(email).len() as int] == '-');
    } else if subject_part(email).len() > 0 {
        assert(stem[subject_part(email).len() as int] == '-');
    } else {
        assert(stem =~= email.id@);
    }
    assert(stem.len() > 0);
    assert(sanitized(stem, email.id@) == stem);
}

/// Law: of a path the part behind the last separator is the name of the file,
/// without its control characters, unless that is empty, `.` or `..`: then the
/// fallback is.
pub proof fn law_sanitized(dir: Seq<char>, sep: char, base: Seq<char>, fallback: Seq<char>)
    requires
        sep == '/' || sep == '\\',
        !base.contains('/'),
        !base.contains('\\'),
    ensures
        ({
            let kept = base.filter(|c: char| !text::is_control(c));
            let name = if kept.len() == 0 || kept == seq!['.'] || kept == seq!['.', '.'] {
                fallback
            } else {
                kept
            };
            &&& sanitized(dir + seq![sep] + base, fallback) == name
            &&& sanitized(base, fallback) == name
        }),
{
    reveal_strlit(".");
    reveal_strlit("..");
    assert("."@ =~= seq!['.']);
    assert(".."@ =~= seq!['.', '.']);
    lemma_base_name_behind(dir + seq![sep], base);
    lemma_base_name_behind(Seq::<char>::empty(), base);
    assert(Seq::<char>::empty() + base =~= base);
    lemma_without_controls_filter(base);
}

proof fn lemma_base_name_behind(head: Seq<char>, base: Seq<char>)
    requires
        head.len() == 0 || is_path_separator(head.last()),
        !base.contains('/'),
        !base.contains('\\'),
    ensures
        base_name(head + base) == base,
    decreases base.len(),
{
    let all = head + base;
    if base.len() == 0 {
        assert(all =~= head);
        assert(base_name(all) =~= base);
    } else {
        let front = base.drop_last();
        assert(base.contains(base[base.len() - 1]));
        assert forall|i: int| 0 <= i < front.len() implies front[i] != '/' && front[i] != '\\' by {
            assert(base.contains(base[i]));
        }
        lemma_base_name_behind(head, front);
        assert(all.drop_last() =~= head + front);
        assert(base =~= front.push(base.last()));
    }
}

proof fn lemma_without_controls_filter(s: Seq<char>)
    ensures
        without_controls(s) == s.filter(|c: char| !text::is_control(c)),
    decreases s.len(),
{
    reveal(Seq::filter);
    if s.len() > 0 {
        lemma_without_controls_filter(s.drop_last());
    }
}

/// Law: a file without an absolute name is written to the output as given unless
/// that is a directory, by a trailing `/` or on disk; then it is written below it
/// under its name, with one `/` between them. Without an output it is written under
/// its name.
pub proof fn law_output_path(output: Seq<char>, is_dir: bool, filename: Seq<char>)
    requires
        filename.len() == 0 || filename[0] != '/',
    ensures
        output_path(None, is_dir, filename) == filename,
        output.len() > 0 && output.last() == '/' ==> output_path(Some(output), is_dir, filename)
            == output + filename,
        output.len() > 0 && output.last() != '/' && is_dir ==> output_path(
            Some(output),
            is_dir,
            filename,
        ) == output + seq!['/'] + filename,
        (output.len() == 0 || output.last() != '/') && !is_dir ==> output_path(
            Some(output),
            is_dir,
            filename,
        ) == output,
        output.len() == 0 && is_dir ==> output_path(Some(output), is_dir, filename) == filename,
{
    assert(output.push('/') =~= output + seq!['/']);
    if output.len() == 0 {
        assert(output + filename =~= filename);
    }
}

/// Law: a file with an absolute name is written under it, unless the output is a file.
pub proof fn law_absolute_name(output: Seq<char>, filename: Seq<char>)
    requires
        filename.len() > 0,
        filename[0] == '/',
    ensures
        output_path(Some(output), true, filename) == filename,
        output_path(None, false, filename) == filename,
{
}

} // verus!
