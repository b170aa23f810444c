//! Text as sequences of characters: conversion, trimming, splitting, joining,
//! ordering and UTF-8 sizes.

use vstd::prelude::*;
use vstd::slice::slice_subrange;
use vstd::string::*;
use vstd::utf8::*;

verus! {

/// `String::push` appends the given character to the end of the string.
pub assume_specification[ String::push ](s: &mut String, c: char)
    ensures
        final(s)@ == old(s)@.push(c),
;

/// The characters of each row.
pub open spec fn rows(parts: Seq<Vec<char>>) -> Seq<Seq<char>> {
    parts.map_values(|row: Vec<char>| row@)
}

/// The characters of each string.
pub open spec fn texts(parts: Seq<String>) -> Seq<Seq<char>> {
    parts.map_values(|part: String| part@)
}

/// The text in an optional string.
pub open spec fn opt_text(o: Option<String>) -> Option<Seq<char>> {
    match o {
        Some(s) => Some(s@),
        None => None,
    }
}

/// The text in an optional string slice.
pub open spec fn opt_str(o: Option<&str>) -> Option<Seq<char>> {
    match o {
        Some(s) => Some(s@),
        None => None,
    }
}

/// The characters of `s`, in order.
pub fn to_chars(s: &str) -> (r: Vec<char>)
    ensures
        r@ == s@,
{
    let mut out: Vec<char> = Vec::new();
    for c in it: s.chars()
        invariant
            out@ == it.seq().take(it.index()),
            it.seq() == s@,
    {
        out.push(c);
    }
    out
}

/// The string made of the given characters.
pub fn from_chars(chars: &[char]) -> (r: String)
    ensures
        r@ == chars@,
{
    let mut out = String::new();
    let mut i: usize = 0;
    while i < chars.len()
        invariant
            i <= chars@.len(),
            out@ == chars@.take(i as int),
        decreases chars@.len() - i,
    {
        out.push(chars[i]);
        i = i + 1;
    }
    out
}

/// The number of bytes that UTF-8 uses for `s`.
pub open spec fn octets(s: Seq<char>) -> nat {
    encode_utf8(s).len()
}

/// The number of bytes that UTF-8 uses for `c`.
pub open spec fn width(c: char) -> nat {
    if c as u32 <= 0x7f {
        1
    } else if c as u32 <= 0x7ff {
        2
    } else if c as u32 <= 0xffff {
        3
    } else {
        4
    }
}

/// Encoding to UTF-8 goes character by character, so it distributes over
/// concatenation.
pub proof fn lemma_encode_concat(a: Seq<char>, b: Seq<char>)
    ensures
        encode_utf8(a + b) == encode_utf8(a) + encode_utf8(b),
        octets(a + b) == octets(a) + octets(b),
    decreases a.len(),
{
    if a.len() == 0 {
        assert(a + b =~= b);
    } else {
        assert((a + b).drop_first() =~= a.drop_first() + b);
        lemma_encode_concat(a.drop_first(), b);
        assert(encode_utf8(a + b) =~= encode_utf8(a) + encode_utf8(b));
    }
}

/// A single character takes [`width`] bytes.
pub proof fn lemma_octets_one(c: char)
    ensures
        octets(seq![c]) == width(c),
{
    let one = seq![c];
    assert(one.drop_first() =~= Seq::<char>::empty());
    char_is_scalar(c);
    reveal_with_fuel(encode_utf8, 2);
}

/// Appending a character adds its [`width`].
pub proof fn lemma_octets_push(s: Seq<char>, c: char)
    ensures
        octets(s.push(c)) == octets(s) + width(c),
{
    assert(s.push(c) =~= s + seq![c]);
    lemma_encode_concat(s, seq![c]);
    lemma_octets_one(c);
}

/// The number of bytes that UTF-8 uses for `c`.
pub fn char_width(c: char) -> (r: usize)
    ensures
        r == width(c),
        1 <= r <= 4,
{
    let u = c as u32;
    if u <= 0x7f {
        1
    } else if u <= 0x7ff {
        2
    } else if u <= 0xffff {
        3
    } else {
        4
    }
}

/// The length of `s` in bytes.
pub fn octet_len(s: &str) -> (r: usize)
    ensures
        r == octets(s@),
{
    s.as_bytes().len()
}

/// Whether `c` has the Unicode `White_Space` property.
pub open spec fn is_space(c: char) -> bool {
    let u = c as u32;
    ||| 0x9 <= u <= 0xd
    ||| u == 0x20
    ||| u == 0x85
    ||| u == 0xa0
    ||| u == 0x1680
    ||| 0x2000 <= u <= 0x200a
    ||| u == 0x2028
    ||| u == 0x2029
    ||| u == 0x202f
    ||| u == 0x205f
    ||| u == 0x3000
}

/// Whether `c` has the Unicode `White_Space` property.
pub fn space(c: char) -> (r: bool)
    ensures
        r == is_space(c),
{
    let u = c as u32;
    (0x9 <= u && u <= 0xd) || u == 0x20 || u == 0x85 || u == 0xa0 || u == 0x1680 || (0x2000 <= u
        && u <= 0x200a) || u == 0x2028 || u == 0x2029 || u == 0x202f || u == 0x205f || u == 0x3000
}

/// Whether `c` is in the Unicode category of control characters.
pub open spec fn is_control(c: char) -> bool {
    let u = c as u32;
    u <= 0x1f || 0x7f <= u <= 0x9f
}

/// Whether `c` is in the Unicode category of control characters.
pub fn control(c: char) -> (r: bool)
    ensures
        r == is_control(c),
{
    let u = c as u32;
    u <= 0x1f || (0x7f <= u && u <= 0x9f)
}

/// Whether `c` is one of `0` to `9`.
pub open spec fn is_digit(c: char) -> bool {
    '0' <= c <= '9'
}

/// Whether `c` is one of `0` to `9`.
pub fn digit(c: char) -> (r: bool)
    ensures
        r == is_digit(c),
{
    '0' <= c && c <= '9'
}

/// Whether every character of `s` is one of `0` to `9`.
pub open spec fn all_digits(s: Seq<char>) -> bool {
    forall|i: int| 0 <= i < s.len() ==> is_digit(#[trigger] s[i])
}

/// Whether every character is one of `0` to `9`.
pub fn digits_only(s: &[char]) -> (r: bool)
    ensures
        r == all_digits(s@),
{
    let mut i: usize = 0;
    while i < s.len()
        invariant
            i <= s@.len(),
            forall|j: int| 0 <= j < i ==> is_digit(#[trigger] s@[j]),
        decreases s@.len() - i,
    {
        if !digit(s[i]) {
            return false;
        }
        i = i + 1;
    }
    true
}

/// `c` with `A` to `Z` mapped to `a` to `z`.
pub open spec fn ascii_lower(c: char) -> char {
    if 'A' <= c <= 'Z' {
        (c as u32 + 32) as char
    } else {
        c
    }
}

/// `c` with `a` to `z` mapped to `A` to `Z`.
pub open spec fn ascii_upper(c: char) -> char {
    if 'a' <= c <= 'z' {
        (c as u32 - 32) as char
    } else {
        c
    }
}

/// `s` with `A` to `Z` mapped to `a` to `z`.
pub open spec fn lowered(s: Seq<char>) -> Seq<char> {
    s.map_values(|c: char| ascii_lower(c))
}

/// `s` with `a` to `z` mapped to `A` to `Z`.
pub open spec fn uppered(s: Seq<char>) -> Seq<char> {
    s.map_values(|c: char| ascii_upper(c))
}

/// `c` with `A` to `Z` mapped to `a` to `z`.
pub fn lower_char(c: char) -> (r: char)
    ensures
        r == ascii_lower(c),
{
    if 'A' <= c && c <= 'Z' {
        ((c as u8) + 32) as char
    } else {
        c
    }
}

/// `c` with `a` to `z` mapped to `A` to `Z`.
pub fn upper_char(c: char) -> (r: char)
    ensures
        r == ascii_upper(c),
{
    if 'a' <= c && c <= 'z' {
        ((c as u8) - 32) as char
    } else {
        c
    }
}

/// `s` with `A` to `Z` mapped to `a` to `z`.
pub fn to_lower(s: &[char]) -> (r: Vec<char>)
    ensures
        r@ == lowered(s@),
{
    let mut out: Vec<char> = Vec::new();
    let mut i: usize = 0;
    while i < s.len()
        invariant
            i <= s@.len(),
            out@ == lowered(s@.take(i as int)),
        decreases s@.len() - i,
    {
        out.push(lower_char(s[i]));
        i = i + 1;
        assert(out@ =~= lowered(s@.take(i as int)));
    }
    assert(s@.take(s@.len() as int) =~= s@);
    out
}

/// `s` with `a` to `z` mapped to `A` to `Z`.
pub fn to_upper(s: &[char]) -> (r: Vec<char>)
    ensures
        r@ == uppered(s@),
{
    let mut out: Vec<char> = Vec::new();
    let mut i: usize = 0;
    while i < s.len()
        invariant
            i <= s@.len(),
            out@ == uppered(s@.take(i as int)),
        decreases s@.len() - i,
    {
        out.push(upper_char(s[i]));
        i = i + 1;
        assert(out@ =~= uppered(s@.take(i as int)));
    }
    assert(s@.take(s@.len() as int) =~= s@);
    out
}

/// Whether `s` holds only ASCII characters.
pub open spec fn is_ascii_text(s: Seq<char>) -> bool {
    forall|i: int| 0 <= i < s.len() ==> (#[trigger] s[i] as u32) < 128
}

/// `s` in lower case, by the case mapping of Unicode.
pub uninterp spec fn unicode_lower(s: Seq<char>) -> Seq<char>;

/// `str::to_lowercase` gives the lower-case form of a text by the case mapping of
/// Unicode, which depends on the text alone and is named [`unicode_lower`]. Of
/// ASCII characters it changes `A` to `Z` to `a` to `z` and no others.
pub assume_specification[ str::to_lowercase ](s: &str) -> (r: String)
    ensures
        r@ == unicode_lower(s@),
        is_ascii_text(s@) ==> r@ == lowered(s@),
;

/// Whether the two slices hold the same characters.
pub fn same(a: &[char], b: &[char]) -> (r: bool)
    ensures
        r == (a@ == b@),
{
    if a.len() != b.len() {
        return false;
    }
    let mut i: usize = 0;
    while i < a.len()
        invariant
            i <= a@.len(),
            a@.len() == b@.len(),
            forall|j: int| 0 <= j < i ==> a@[j] == b@[j],
        decreases a@.len() - i,
    {
        if a[i] != b[i] {
            return false;
        }
        i = i + 1;
    }
    assert(a@ =~= b@);
    true
}

/// Whether the two strings hold the same characters.
pub fn same_str(a: &str, b: &str) -> (r: bool)
    ensures
        r == (a@ == b@),
{
    same(to_chars(a).as_slice(), to_chars(b).as_slice())
}

/// Whether the two slices hold the same characters up to the case of ASCII
/// letters.
pub fn same_ignoring_case(a: &[char], b: &[char]) -> (r: bool)
    ensures
        r == (lowered(a@) == lowered(b@)),
{
    same(to_lower(a).as_slice(), to_lower(b).as_slice())
}

/// Whether `s` begins with `prefix`.
pub fn begins_with(s: &[char], prefix: &[char]) -> (r: bool)
    ensures
        r == prefix@.is_prefix_of(s@),
{
    if prefix.len() > s.len() {
        return false;
    }
    let head = slice_subrange(s, 0, prefix.len());
    same(prefix, head)
}

/// Whether `part` occurs in `s` as a run of consecutive characters.
pub open spec fn has_part(s: Seq<char>, part: Seq<char>) -> bool {
    exists|i: int|
        0 <= i <= s.len() - part.len() && #[trigger] s.subrange(i, i + part.len()) == part
}

/// Whether `part` occurs in `s` as a run of consecutive characters.
pub fn contains_part(s: &[char], part: &[char]) -> (r: bool)
    ensures
        r == has_part(s@, part@),
{
    if part.len() > s.len() {
        return false;
    }
    let n: usize = s.len();
    let mut i: usize = part.len();
    while i <= n
        invariant
            n == s@.len(),
            part@.len() <= i,
            forall|j: int|
                0 <= j < i - part@.len() ==> #[trigger] s@.subrange(j, j + part@.len()) != part@,
        decreases n + 1 - i,
    {
        let start: usize = i - part.len();
        if same(slice_subrange(s, start, i), part) {
            assert(s@.subrange(start as int, start + part@.len()) == part@);
            return true;
        }
        if i == n {
            return false;
        }
        i = i + 1;
    }
    false
}

/// Whether `c` occurs in `s`.
pub fn contains_char(s: &[char], c: char) -> (r: bool)
    ensures
        r == s@.contains(c),
{
    let mut i: usize = 0;
    while i < s.len()
        invariant
            i <= s@.len(),
            forall|j: int| 0 <= j < i ==> s@[j] != c,
        decreases s@.len() - i,
    {
        if s[i] == c {
            assert(s@[i as int] == c);
            return true;
        }
        i = i + 1;
    }
    false
}

/// `s` without its leading white space.
pub open spec fn trimmed_start(s: Seq<char>) -> Seq<char>
    decreases s.len(),
{
    if s.len() > 0 && is_space(s[0]) {
        trimmed_start(s.drop_first())
    } else {
        s
    }
}

/// `s` without its trailing white space.
pub open spec fn trimmed_end(s: Seq<char>) -> Seq<char>
    decreases s.len(),
{
    if s.len() > 0 && is_space(s.last()) {
        trimmed_end(s.drop_last())
    } else {
        s
    }
}

/// `s` without leading and trailing white space.
pub open spec fn trimmed(s: Seq<char>) -> Seq<char> {
    trimmed_end(trimmed_start(s))
}

/// Trimming the end leaves a prefix.
pub proof fn lemma_trimmed_end_prefix(s: Seq<char>)
    ensures
        trimmed_end(s).is_prefix_of(s),
    decreases s.len(),
{
    if s.len() > 0 && is_space(s.last()) {
        lemma_trimmed_end_prefix(s.drop_last());
    }
}

/// `s` without its leading white space.
pub fn trim_start<'a>(s: &'a [char]) -> (r: &'a [char])
    ensures
        r@ == trimmed_start(s@),
{
    let mut i: usize = 0;
    assert(s@.skip(0) =~= s@);
    while i < s.len() && space(s[i])
        invariant
            i <= s@.len(),
            trimmed_start(s@) == trimmed_start(s@.skip(i as int)),
        decreases s@.len() - i,
    {
        assert(s@.skip(i as int).drop_first() =~= s@.skip(i + 1));
        i = i + 1;
    }
    let r = slice_subrange(s, i, s.len());
    assert(r@ =~= s@.skip(i as int));
    r
}

/// `s` without its trailing white space.
pub fn trim_end<'a>(s: &'a [char]) -> (r: &'a [char])
    ensures
        r@ == trimmed_end(s@),
{
    let mut n: usize = s.len();
    assert(s@.take(n as int) =~= s@);
    while n > 0 && space(s[n - 1])
        invariant
            n <= s@.len(),
            trimmed_end(s@) == trimmed_end(s@.take(n as int)),
        decreases n,
    {
        assert(s@.take(n as int).drop_last() =~= s@.take(n - 1));
        n = n - 1;
    }
    let r = slice_subrange(s, 0, n);
    assert(r@ =~= s@.take(n as int));
    r
}

/// `s` without leading and trailing white space.
pub fn trim<'a>(s: &'a [char]) -> (r: &'a [char])
    ensures
        r@ == trimmed(s@),
{
    trim_end(trim_start(s))
}

/// Where a text is cut into pieces.
#[derive(Clone, Copy)]
pub enum Separator {
    /// At every occurrence of one character.
    Char(char),
    /// At every white-space character.
    Space,
    /// At white space and at the characters that delimit a bare link: angle
    /// brackets and double quotes.
    LinkEdge,
}

impl Separator {
    /// Whether the text is cut at `c`.
    pub open spec fn cuts(self, c: char) -> bool {
        match self {
            Separator::Char(sep) => c == sep,
            Separator::Space => is_space(c),
            Separator::LinkEdge => is_space(c) || c == '<' || c == '>' || c == '"',
        }
    }

    /// Whether the text is cut at `c`.
    pub fn cuts_at(self, c: char) -> (r: bool)
        ensures
            r == self.cuts(c),
    {
        match self {
            Separator::Char(sep) => c == sep,
            Separator::Space => space(c),
            Separator::LinkEdge => space(c) || c == '<' || c == '>' || c == '"',
        }
    }
}

/// The pieces of `s` between the characters that `sep` cuts at; one more piece
/// than there are cuts.
pub open spec fn pieces(s: Seq<char>, sep: Separator) -> Seq<Seq<char>>
    decreases s.len(),
{
    if s.len() == 0 {
        seq![Seq::<char>::empty()]
    } else {
        let before = pieces(s.drop_last(), sep);
        if sep.cuts(s.last()) {
            before.push(Seq::<char>::empty())
        } else {
            before.drop_last().push(before.last().push(s.last()))
        }
    }
}

/// There is at least one piece.
pub proof fn lemma_pieces_nonempty(s: Seq<char>, sep: Separator)
    ensures
        pieces(s, sep).len() > 0,
    decreases s.len(),
{
    if s.len() > 0 {
        lemma_pieces_nonempty(s.drop_last(), sep);
    }
}

/// The pieces of `s` between the characters that `sep` cuts at.
pub fn split(s: &[char], sep: Separator) -> (r: Vec<Vec<char>>)
    ensures
        rows(r@) == pieces(s@, sep),
        r@.len() > 0,
{
    let mut out: Vec<Vec<char>> = Vec::new();
    let mut piece: Vec<char> = Vec::new();
    let mut i: usize = 0;
    assert(rows(out@).push(piece@) =~= pieces(s@.take(0), sep));
    while i < s.len()
        invariant
            i <= s@.len(),
            rows(out@).push(piece@) == pieces(s@.take(i as int), sep),
        decreases s@.len() - i,
    {
        let c = s[i];
        let ghost before = pieces(s@.take(i as int), sep);
        proof {
            assert(s@.take(i + 1).drop_last() =~= s@.take(i as int));
            assert(before.drop_last() =~= rows(out@));
        }
        if sep.cuts_at(c) {
            let ghost done = out@;
            let ghost last = piece@;
            out.push(piece);
            piece = Vec::new();
            assert(rows(out@) =~= rows(done).push(last));
            assert(rows(out@).push(piece@) =~= before.push(Seq::<char>::empty()));
        } else {
            piece.push(c);
        }
        i = i + 1;
    }
    let ghost done = out@;
    let ghost last = piece@;
    out.push(piece);
    assert(rows(out@) =~= rows(done).push(last));
    assert(s@.take(s@.len() as int) =~= s@);
    out
}

/// The parts of `parts` that are not empty, in order.
pub open spec fn nonempty(parts: Seq<Seq<char>>) -> Seq<Seq<char>>
    decreases parts.len(),
{
    if parts.len() == 0 {
        parts
    } else {
        let before = nonempty(parts.drop_last());
        if parts.last().len() == 0 {
            before
        } else {
            before.push(parts.last())
        }
    }
}

/// The words of `s`: its maximal runs without white space.
pub open spec fn words(s: Seq<char>) -> Seq<Seq<char>> {
    nonempty(pieces(s, Separator::Space))
}

/// The parts one after the other with `sep` between neighbours.
pub open spec fn joined(parts: Seq<Seq<char>>, sep: Seq<char>) -> Seq<char>
    decreases parts.len(),
{
    if parts.len() == 0 {
        Seq::<char>::empty()
    } else {
        let gap = if parts.len() == 1 {
            Seq::<char>::empty()
        } else {
            sep
        };
        joined(parts.drop_last(), sep) + gap + parts.last()
    }
}

/// Appends the characters of `tail` to `out`.
pub fn extend(out: &mut Vec<char>, tail: &[char])
    ensures
        final(out)@ == old(out)@ + tail@,
{
    let mut i: usize = 0;
    let ghost start = out@;
    while i < tail.len()
        invariant
            i <= tail@.len(),
            out@ == start + tail@.take(i as int),
        decreases tail@.len() - i,
    {
        out.push(tail[i]);
        i = i + 1;
        assert(out@ =~= start + tail@.take(i as int));
    }
    assert(tail@.take(tail@.len() as int) =~= tail@);
}

/// The rows one after the other with `sep` between neighbours.
pub fn join(parts: &Vec<Vec<char>>, sep: &[char]) -> (r: Vec<char>)
    ensures
        r@ == joined(rows(parts@), sep@),
{
    let mut out: Vec<char> = Vec::new();
    let mut i: usize = 0;
    assert(rows(parts@).take(0) =~= Seq::<Seq<char>>::empty());
    while i < parts.len()
        invariant
            i <= parts@.len(),
            out@ == joined(rows(parts@).take(i as int), sep@),
        decreases parts@.len() - i,
    {
        proof {
            assert(rows(parts@).take(i + 1).drop_last() =~= rows(parts@).take(i as int));
        }
        if i > 0 {
            extend(&mut out, sep);
        }
        extend(&mut out, parts[i].as_slice());
        i = i + 1;
        assert(out@ =~= joined(rows(parts@).take(i as int), sep@));
    }
    assert(rows(parts@).take(parts@.len() as int) =~= rows(parts@));
    out
}

/// The strings one after the other with `sep` between neighbours.
pub fn join_strings(parts: &Vec<String>, sep: &str) -> (r: String)
    ensures
        r@ == joined(texts(parts@), sep@),
{
    let mut out = String::new();
    let mut i: usize = 0;
    assert(texts(parts@).take(0) =~= Seq::<Seq<char>>::empty());
    while i < parts.len()
        invariant
            i <= parts@.len(),
            out@ == joined(texts(parts@).take(i as int), sep@),
        decreases parts@.len() - i,
    {
        proof {
            assert(texts(parts@).take(i + 1).drop_last() =~= texts(parts@).take(i as int));
        }
        if i > 0 {
            out.append(sep);
        }
        out.append(parts[i].as_str());
        i = i + 1;
        assert(out@ =~= joined(texts(parts@).take(i as int), sep@));
    }
    assert(texts(parts@).take(parts@.len() as int) =~= texts(parts@));
    out
}

/// Whether a text is among the texts.
pub fn has_text(list: &[String], s: &str) -> (r: bool)
    ensures
        r == texts(list@).contains(s@),
{
    let mut i: usize = 0;
    while i < list.len()
        invariant
            i <= list@.len(),
            forall|j: int| 0 <= j < i ==> texts(list@)[j] != s@,
        decreases list@.len() - i,
    {
        if same_str(list[i].as_str(), s) {
            assert(texts(list@)[i as int] == s@);
            return true;
        }
        i = i + 1;
    }
    false
}

/// The words of `s`: its maximal runs without white space.
pub fn split_words(s: &[char]) -> (r: Vec<Vec<char>>)
    ensures
        rows(r@) == words(s@),
{
    let parts = split(s, Separator::Space);
    let mut out: Vec<Vec<char>> = Vec::new();
    let mut i: usize = 0;
    assert(rows(parts@).take(0) =~= Seq::<Seq<char>>::empty());
    assert(rows(out@) =~= Seq::<Seq<char>>::empty());
    while i < parts.len()
        invariant
            i <= parts@.len(),
            rows(out@) == nonempty(rows(parts@).take(i as int)),
        decreases parts@.len() - i,
    {
        proof {
            assert(rows(parts@).take(i + 1).drop_last() =~= rows(parts@).take(i as int));
        }
        if parts[i].len() > 0 {
            let ghost done = out@;
            let mut word: Vec<char> = Vec::new();
            extend(&mut word, parts[i].as_slice());
            assert(word@ =~= parts@[i as int]@);
            out.push(word);
            assert(rows(out@) =~= rows(done).push(rows(parts@)[i as int]));
        }
        i = i + 1;
    }
    assert(rows(parts@).take(parts@.len() as int) =~= rows(parts@));
    out
}

/// `s` with every run of white space collapsed to one space, and none at
/// either end.
pub open spec fn collapsed(s: Seq<char>) -> Seq<char> {
    joined(words(s), seq![' '])
}

/// `s` with every run of white space collapsed to one space, and none at
/// either end.
pub fn collapse(s: &[char]) -> (r: Vec<char>)
    ensures
        r@ == collapsed(s@),
{
    let gap: Vec<char> = vec![' '];
    assert(gap@ =~= seq![' ']);
    join(&split_words(s), gap.as_slice())
}

/// Whether the only white space in `s` is single spaces between other
/// characters.
pub open spec fn is_collapsed(s: Seq<char>) -> bool {
    &&& forall|i: int| 0 <= i < s.len() && is_space(#[trigger] s[i]) ==> s[i] == ' '
    &&& forall|i: int|
        0 <= i < s.len() && is_space(#[trigger] s[i]) ==> 0 < i < s.len() - 1 && !is_space(s[i - 1])
}

/// Whether `s` is a word: not empty, and without white space.
pub open spec fn is_word(s: Seq<char>) -> bool {
    s.len() > 0 && forall|i: int| 0 <= i < s.len() ==> !is_space(#[trigger] s[i])
}

proof fn lemma_pieces_spaceless(s: Seq<char>)
    ensures
        forall|k: int, i: int|
            0 <= k < pieces(s, Separator::Space).len() && 0 <= i < pieces(
                s,
                Separator::Space,
            )[k].len() ==> !is_space(#[trigger] pieces(s, Separator::Space)[k][i]),
    decreases s.len(),
{
    lemma_pieces_nonempty(s, Separator::Space);
    if s.len() > 0 {
        let front = pieces(s.drop_last(), Separator::Space);
        let all = pieces(s, Separator::Space);
        lemma_pieces_spaceless(s.drop_last());
        lemma_pieces_nonempty(s.drop_last(), Separator::Space);
        assert forall|k: int, i: int|
            0 <= k < all.len() && 0 <= i < all[k].len() implies !is_space(
            #[trigger] all[k][i],
        ) by {
            if k < front.len() - 1 || is_space(s.last()) {
                assert(all[k][i] == front[k][i]);
            } else if i < front.last().len() {
                assert(front[k][i] == all[k][i]);
            }
        }
    }
}

proof fn lemma_nonempty_words(parts: Seq<Seq<char>>)
    requires
        forall|k: int, i: int|
            0 <= k < parts.len() && 0 <= i < parts[k].len() ==> !is_space(
                #[trigger] parts[k][i],
            ),
    ensures
        forall|k: int| 0 <= k < nonempty(parts).len() ==> is_word(#[trigger] nonempty(parts)[k]),
    decreases parts.len(),
{
    if parts.len() > 0 {
        let front = parts.drop_last();
        assert forall|k: int, i: int|
            0 <= k < front.len() && 0 <= i < front[k].len() implies !is_space(
            #[trigger] front[k][i],
        ) by {
            assert(front[k][i] == parts[k][i]);
        }
        lemma_nonempty_words(front);
        let last = parts.last();
        assert forall|i: int| 0 <= i < last.len() implies !is_space(#[trigger] last[i]) by {
            assert(last[i] == parts[parts.len() - 1][i]);
        }
        assert forall|k: int| 0 <= k < nonempty(parts).len() implies is_word(
            #[trigger] nonempty(parts)[k],
        ) by {
            if k < nonempty(front).len() {
                assert(nonempty(parts)[k] == nonempty(front)[k]);
            }
        }
    }
}

proof fn lemma_joined_words(parts: Seq<Seq<char>>)
    requires
        forall|k: int| 0 <= k < parts.len() ==> is_word(#[trigger] parts[k]),
    ensures
        is_collapsed(joined(parts, seq![' '])),
        parts.len() > 0 ==> joined(parts, seq![' ']).len() > 0,
    decreases parts.len(),
{
    if parts.len() > 0 {
        let front = parts.drop_last();
        assert forall|k: int| 0 <= k < front.len() implies is_word(#[trigger] front[k]) by {
            assert(front[k] == parts[k]);
        }
        lemma_joined_words(front);
        let last = parts.last();
        assert(is_word(parts[parts.len() - 1]));
        let head = joined(front, seq![' ']);
        let all = joined(parts, seq![' ']);
        if parts.len() == 1 {
            assert(head =~= Seq::<char>::empty());
            assert(all =~= last);
        } else {
            assert(all =~= head.push(' ') + last);
            assert forall|i: int| 0 <= i < all.len() && is_space(#[trigger] all[i]) implies all[i]
                == ' ' && 0 < i < all.len() - 1 && !is_space(all[i - 1]) by {
                if i < head.len() {
                    assert(all[i] == head[i]);
                    assert(all[i - 1] == head[i - 1]);
                } else if i == head.len() {
                    assert(all[i - 1] == head[head.len() - 1]);
                    assert(!is_space(head[head.len() - 1]));
                } else {
                    assert(all[i] == last[i - head.len() - 1]);
                }
            }
        }
    }
}

/// Law: collapsing leaves no white space but single spaces between words.
pub proof fn law_collapsed(s: Seq<char>)
    ensures
        is_collapsed(collapsed(s)),
{
    lemma_pieces_spaceless(s);
    lemma_nonempty_words(pieces(s, Separator::Space));
    lemma_joined_words(words(s));
}

/// A cut and a piece without cuts behind a text add that piece to its pieces.
pub proof fn lemma_piece_appended(s: Seq<char>, cut: char, piece: Seq<char>, sep: Separator)
    requires
        sep.cuts(cut),
        forall|i: int| 0 <= i < piece.len() ==> !sep.cuts(#[trigger] piece[i]),
    ensures
        pieces(s.push(cut) + piece, sep) == pieces(s, sep).push(piece),
    decreases piece.len(),
{
    let all = s.push(cut) + piece;
    if piece.len() == 0 {
        assert(all.drop_last() =~= s);
        assert(piece =~= Seq::<char>::empty());
    } else {
        let front = piece.drop_last();
        assert forall|i: int| 0 <= i < front.len() implies !sep.cuts(#[trigger] front[i]) by {
            assert(front[i] == piece[i]);
        }
        lemma_piece_appended(s, cut, front, sep);
        assert(all.drop_last() =~= s.push(cut) + front);
        assert(!sep.cuts(piece[piece.len() - 1]));
        let before = pieces(s, sep).push(front);
        assert(before.drop_last() =~= pieces(s, sep));
        assert(front.push(piece.last()) =~= piece);
    }
}

proof fn lemma_words_of_word(word: Seq<char>)
    requires
        is_word(word),
    ensures
        words(word) == seq![word],
{
    lemma_piece_alone(word, Separator::Space);
    assert(seq![word].drop_last() =~= Seq::<Seq<char>>::empty());
    assert(nonempty(Seq::<Seq<char>>::empty()) =~= Seq::<Seq<char>>::empty());
    assert(words(word) =~= seq![word]);
}

proof fn lemma_piece_alone(piece: Seq<char>, sep: Separator)
    requires
        forall|i: int| 0 <= i < piece.len() ==> !sep.cuts(#[trigger] piece[i]),
    ensures
        pieces(piece, sep) == seq![piece],
    decreases piece.len(),
{
    if piece.len() == 0 {
        assert(piece =~= Seq::<char>::empty());
    } else {
        let front = piece.drop_last();
        assert forall|i: int| 0 <= i < front.len() implies !sep.cuts(#[trigger] front[i]) by {
            assert(front[i] == piece[i]);
        }
        lemma_piece_alone(front, sep);
        assert(!sep.cuts(piece[piece.len() - 1]));
        assert(front.push(piece.last()) =~= piece);
        assert(seq![front].drop_last().push(piece) =~= seq![piece]);
    }
}

proof fn lemma_words_of_joined(parts: Seq<Seq<char>>)
    requires
        forall|k: int| 0 <= k < parts.len() ==> is_word(#[trigger] parts[k]),
    ensures
        words(joined(parts, seq![' '])) == parts,
    decreases parts.len(),
{
    if parts.len() == 0 {
        assert(joined(parts, seq![' ']) =~= Seq::<char>::empty());
        reveal_with_fuel(nonempty, 2);
        assert(pieces(Seq::<char>::empty(), Separator::Space).drop_last() =~= Seq::<
            Seq<char>,
        >::empty());
        assert(words(Seq::<char>::empty()) =~= parts);
    } else {
        let front = parts.drop_last();
        let last = parts.last();
        assert forall|k: int| 0 <= k < front.len() implies is_word(#[trigger] front[k]) by {
            assert(front[k] == parts[k]);
        }
        assert(is_word(parts[parts.len() - 1]));
        lemma_words_of_joined(front);
        let head = joined(front, seq![' ']);
        let all = joined(parts, seq![' ']);
        if parts.len() == 1 {
            assert(head =~= Seq::<char>::empty());
            assert(all =~= last);
            lemma_words_of_word(last);
            assert(parts =~= seq![last]);
        } else {
            assert(all =~= head.push(' ') + last);
            lemma_piece_appended(head, ' ', last, Separator::Space);
            let before = pieces(head, Separator::Space);
            assert(before.push(last).drop_last() =~= before);
            assert(words(all) =~= words(head).push(last));
            assert(front.push(last) =~= parts);
        }
    }
}

/// Law: collapsing white space once more changes nothing.
pub proof fn law_collapse_idempotent(s: Seq<char>)
    ensures
        collapsed(collapsed(s)) == collapsed(s),
{
    lemma_pieces_spaceless(s);
    lemma_nonempty_words(pieces(s, Separator::Space));
    lemma_words_of_joined(words(s));
}

/// `s` without any occurrence of `c`.
pub open spec fn without(s: Seq<char>, c: char) -> Seq<char>
    decreases s.len(),
{
    if s.len() == 0 {
        s
    } else if s.last() == c {
        without(s.drop_last(), c)
    } else {
        without(s.drop_last(), c).push(s.last())
    }
}

/// `s` without any occurrence of `c`.
pub fn remove_char(s: &[char], c: char) -> (r: Vec<char>)
    ensures
        r@ == without(s@, c),
{
    let mut out: Vec<char> = Vec::new();
    let mut i: usize = 0;
    while i < s.len()
        invariant
            i <= s@.len(),
            out@ == without(s@.take(i as int), c),
        decreases s@.len() - i,
    {
        assert(s@.take(i + 1).drop_last() =~= s@.take(i as int));
        if s[i] != c {
            out.push(s[i]);
        }
        i = i + 1;
    }
    assert(s@.take(s@.len() as int) =~= s@);
    out
}

/// The parts, trimmed, without the empty ones.
pub open spec fn trimmed_parts(parts: Seq<Seq<char>>) -> Seq<Seq<char>>
    decreases parts.len(),
{
    if parts.len() == 0 {
        parts
    } else {
        let before = trimmed_parts(parts.drop_last());
        let part = trimmed(parts.last());
        if part.len() == 0 {
            before
        } else {
            before.push(part)
        }
    }
}

/// The items of a comma-separated list, trimmed, without the empty ones.
pub open spec fn list_items(list: Seq<char>) -> Seq<Seq<char>> {
    trimmed_parts(pieces(list, Separator::Char(',')))
}

/// The items of a comma-separated list, trimmed, without the empty ones.
pub fn split_list(list: &str) -> (r: Vec<String>)
    ensures
        texts(r@) == list_items(list@),
{
    let chars = to_chars(list);
    let parts = split(chars.as_slice(), Separator::Char(','));
    let ghost all = rows(parts@);
    let mut out: Vec<String> = Vec::new();
    let mut i: usize = 0;
    assert(all.take(0) =~= Seq::<Seq<char>>::empty());
    assert(texts(out@) =~= Seq::<Seq<char>>::empty());
    while i < parts.len()
        invariant
            i <= parts@.len(),
            all == rows(parts@),
            texts(out@) == trimmed_parts(all.take(i as int)),
        decreases parts@.len() - i,
    {
        assert(all.take(i + 1).drop_last() =~= all.take(i as int));
        assert(all.take(i + 1).last() == parts@[i as int]@);
        let part = trim(parts[i].as_slice());
        if part.len() > 0 {
            let ghost before = out@;
            out.push(from_chars(part));
            assert(texts(out@) =~= texts(before).push(part@));
        }
        i = i + 1;
    }
    assert(all.take(all.len() as int) =~= all);
    out
}

/// Whether `a` comes before `b` in the order of their characters, a text before
/// its extensions. UTF-8 keeps this order, so it is that of the bytes too.
pub open spec fn precedes(a: Seq<char>, b: Seq<char>) -> bool
    decreases a.len(),
{
    if b.len() == 0 {
        false
    } else if a.len() == 0 {
        true
    } else if a[0] != b[0] {
        a[0] < b[0]
    } else {
        precedes(a.drop_first(), b.drop_first())
    }
}

/// Whether `a` comes before `b` in the order of their characters.
pub fn comes_before(a: &[char], b: &[char]) -> (r: bool)
    ensures
        r == precedes(a@, b@),
{
    let mut i: usize = 0;
    assert(a@.skip(0) =~= a@);
    assert(b@.skip(0) =~= b@);
    while i < a.len() && i < b.len() && a[i] == b[i]
        invariant
            i <= a@.len(),
            i <= b@.len(),
            precedes(a@, b@) == precedes(a@.skip(i as int), b@.skip(i as int)),
        decreases a@.len() - i,
    {
        assert(a@.skip(i as int).drop_first() =~= a@.skip(i + 1));
        assert(b@.skip(i as int).drop_first() =~= b@.skip(i + 1));
        i = i + 1;
    }
    if i >= b.len() {
        false
    } else if i >= a.len() {
        true
    } else {
        a[i] < b[i]
    }
}

/// Law: of two different texts exactly one comes before the other, and none
/// comes before itself.
pub proof fn law_order_total(a: Seq<char>, b: Seq<char>)
    ensures
        a == b ==> !precedes(a, b) && !precedes(b, a),
        a != b ==> precedes(a, b) != precedes(b, a),
    decreases a.len(),
{
    if a.len() > 0 && b.len() > 0 && a[0] == b[0] {
        law_order_total(a.drop_first(), b.drop_first());
        if a.drop_first() == b.drop_first() {
            assert(a =~= seq![a[0]] + a.drop_first());
            assert(b =~= seq![b[0]] + b.drop_first());
        }
    } else if a.len() == 0 && b.len() == 0 {
        assert(a =~= b);
    }
}

/// Law: the order of texts is transitive.
pub proof fn law_order_transitive(a: Seq<char>, b: Seq<char>, c: Seq<char>)
    requires
        precedes(a, b),
        precedes(b, c),
    ensures
        precedes(a, c),
    decreases a.len(),
{
    if a.len() > 0 && a[0] == b[0] && b[0] == c[0] {
        law_order_transitive(a.drop_first(), b.drop_first(), c.drop_first());
    }
}

/// The empty literal adds nothing.
pub proof fn lemma_empty_literal()
    ensures
        forall|s: Seq<char>| #[trigger] (s + ""@) == s,
{
    reveal_strlit("");
    assert forall|s: Seq<char>| #[trigger] (s + ""@) == s by {
        assert(s + ""@ =~= s);
    }
}

/// The two texts one after the other.
pub fn concat2(a: &str, b: &str) -> (r: String)
    ensures
        r@ == a@ + b@,
{
    let mut out = String::new();
    out.append(a);
    out.append(b);
    assert(out@ =~= a@ + b@);
    out
}

/// The three texts one after the other.
pub fn concat3(a: &str, b: &str, c: &str) -> (r: String)
    ensures
        r@ == a@ + b@ + c@,
{
    let mut out = String::new();
    out.append(a);
    out.append(b);
    out.append(c);
    assert(out@ =~= a@ + b@ + c@);
    out
}

/// Law: the white space is these characters and no others.
pub proof fn law_white_space(c: char)
    ensures
        is_space(c) <==> seq![
            '\t',
            '\n',
            '\u{b}',
            '\u{c}',
            '\r',
            ' ',
            '\u{85}',
            '\u{a0}',
            '\u{1680}',
            '\u{2000}',
            '\u{2001}',
            '\u{2002}',
            '\u{2003}',
            '\u{2004}',
            '\u{2005}',
            '\u{2006}',
            '\u{2007}',
            '\u{2008}',
            '\u{2009}',
            '\u{200a}',
            '\u{2028}',
            '\u{2029}',
            '\u{202f}',
            '\u{205f}',
            '\u{3000}',
        ].contains(c),
{
    let all = seq![
        '\t',
        '\n',
        '\u{b}',
        '\u{c}',
        '\r',
        ' ',
        '\u{85}',
        '\u{a0}',
        '\u{1680}',
        '\u{2000}',
        '\u{2001}',
        '\u{2002}',
        '\u{2003}',
        '\u{2004}',
        '\u{2005}',
        '\u{2006}',
        '\u{2007}',
        '\u{2008}',
        '\u{2009}',
        '\u{200a}',
        '\u{2028}',
        '\u{2029}',
        '\u{202f}',
        '\u{205f}',
        '\u{3000}',
    ];
    assert(all[0] == '\t' && all[1] == '\n' && all[2] == '\u{b}');
    assert(all[3] == '\u{c}' && all[4] == '\r');
    assert(all[5] == ' ' && all[6] == '\u{85}' && all[7] == '\u{a0}');
    assert(all[8] == '\u{1680}' && all[9] == '\u{2000}');
    assert(all[10] == '\u{2001}' && all[11] == '\u{2002}' && all[12] == '\u{2003}');
    assert(all[13] == '\u{2004}' && all[14] == '\u{2005}');
    assert(all[15] == '\u{2006}' && all[16] == '\u{2007}' && all[17] == '\u{2008}');
    assert(all[18] == '\u{2009}' && all[19] == '\u{200a}');
    assert(all[20] == '\u{2028}' && all[21] == '\u{2029}' && all[22] == '\u{202f}');
    assert(all[23] == '\u{205f}' && all[24] == '\u{3000}');
}

/// Law: the control characters are those up to U+001F and those from U+007F to
/// U+009F.
pub proof fn law_control_characters(c: char)
    ensures
        is_control(c) <==> c < ' ' || '\u{7f}' <= c <= '\u{9f}',
{
}

/// Law: the digits are these ten, and a text is all digits if it holds no other
/// character.
pub proof fn law_digits(s: Seq<char>)
    ensures
        all_digits(s) <==> forall|c: char| s.contains(c) ==> #[trigger] "0123456789"@.contains(c),
{
    reveal_strlit("0123456789");
    let ten = "0123456789"@;
    assert(ten[0] == '0' && ten[1] == '1' && ten[2] == '2' && ten[3] == '3' && ten[4] == '4'
        && ten[5] == '5' && ten[6] == '6' && ten[7] == '7' && ten[8] == '8' && ten[9] == '9');
    if all_digits(s) {
        assert forall|c: char| s.contains(c) implies #[trigger] ten.contains(c) by {
            let i = choose|i: int| 0 <= i < s.len() && s[i] == c;
            assert(is_digit(s[i]));
        }
    }
    if forall|c: char| s.contains(c) ==> #[trigger] ten.contains(c) {
        assert forall|i: int| 0 <= i < s.len() implies is_digit(#[trigger] s[i]) by {
            assert(s.contains(s[i]));
            assert(ten.contains(s[i]));
        }
    }
}

/// Law: of the letters of ASCII each changes to its other case, and every other
/// character stays as it is.
pub proof fn law_case_mapping(c: char, i: int)
    requires
        0 <= i < 26,
    ensures
        ascii_lower("ABCDEFGHIJKLMNOPQRSTUVWXYZ"@[i]) == "abcdefghijklmnopqrstuvwxyz"@[i],
        ascii_upper("abcdefghijklmnopqrstuvwxyz"@[i]) == "ABCDEFGHIJKLMNOPQRSTUVWXYZ"@[i],
        !(c >= 'A' && c <= 'Z') ==> ascii_lower(c) == c,
        !(c >= 'a' && c <= 'z') ==> ascii_upper(c) == c,
{
    reveal_strlit("ABCDEFGHIJKLMNOPQRSTUVWXYZ");
    reveal_strlit("abcdefghijklmnopqrstuvwxyz");
    let upper = "ABCDEFGHIJKLMNOPQRSTUVWXYZ"@;
    let lower = "abcdefghijklmnopqrstuvwxyz"@;
    if i < 13 {
        assert(upper[i] as u32 == 65 + i && lower[i] as u32 == 97 + i);
    } else {
        assert(upper[i] as u32 == 65 + i && lower[i] as u32 == 97 + i);
    }
}

/// Law: a text in lower or upper case has as many characters, each in that case.
pub proof fn law_cased_text(s: Seq<char>)
    ensures
        lowered(s).len() == s.len(),
        uppered(s).len() == s.len(),
        forall|i: int| 0 <= i < s.len() ==> #[trigger] lowered(s)[i] == ascii_lower(s[i]),
        forall|i: int| 0 <= i < s.len() ==> #[trigger] uppered(s)[i] == ascii_upper(s[i]),
{
}

/// Law: a part occurs in a text exactly if the text is something, the part and
/// something more.
pub proof fn law_has_part(s: Seq<char>, part: Seq<char>)
    ensures
        has_part(s, part) <==> exists|a: Seq<char>, b: Seq<char>| s == #[trigger] (a + part + b),
{
    if has_part(s, part) {
        let i = choose|i: int|
            0 <= i <= s.len() - part.len() && #[trigger] s.subrange(i, i + part.len()) == part;
        assert(s =~= s.take(i) + part + s.skip(i + part.len()));
    }
    if exists|a: Seq<char>, b: Seq<char>| s == #[trigger] (a + part + b) {
        let (a, b) = choose|a: Seq<char>, b: Seq<char>| s == #[trigger] (a + part + b);
        let i = a.len() as int;
        assert(s.subrange(i, i + part.len()) =~= part);
    }
}

/// What is trimmed off the start is white space.
proof fn lemma_trimmed_start_split(s: Seq<char>) -> (a: Seq<char>)
    ensures
        s == a + trimmed_start(s),
        forall|i: int| 0 <= i < a.len() ==> is_space(#[trigger] a[i]),
        trimmed_start(s).len() > 0 ==> !is_space(trimmed_start(s)[0]),
    decreases s.len(),
{
    if s.len() > 0 && is_space(s[0]) {
        let rest = lemma_trimmed_start_split(s.drop_first());
        let a = seq![s[0]] + rest;
        assert(s =~= seq![s[0]] + s.drop_first());
        assert(a + trimmed_start(s) =~= seq![s[0]] + (rest + trimmed_start(s)));
        a
    } else {
        assert(s =~= Seq::<char>::empty() + s);
        Seq::<char>::empty()
    }
}

/// What is trimmed off the end is white space.
proof fn lemma_trimmed_end_split(s: Seq<char>) -> (b: Seq<char>)
    ensures
        s == trimmed_end(s) + b,
        forall|i: int| 0 <= i < b.len() ==> is_space(#[trigger] b[i]),
        trimmed_end(s).len() > 0 ==> !is_space(trimmed_end(s).last()),
    decreases s.len(),
{
    if s.len() > 0 && is_space(s.last()) {
        let rest = lemma_trimmed_end_split(s.drop_last());
        let b = rest.push(s.last());
        assert(s =~= s.drop_last().push(s.last()));
        assert(trimmed_end(s) + b =~= (trimmed_end(s) + rest).push(s.last()));
        b
    } else {
        assert(s =~= s + Seq::<char>::empty());
        Seq::<char>::empty()
    }
}

/// Law: trimming takes white space off the ends of a text, all of it and nothing
/// else.
pub proof fn law_trimmed(s: Seq<char>)
    ensures
        exists|a: Seq<char>, b: Seq<char>|
            s == #[trigger] (a + trimmed(s) + b) && (forall|i: int|
                0 <= i < a.len() ==> is_space(#[trigger] a[i])) && (forall|i: int|
                0 <= i < b.len() ==> is_space(#[trigger] b[i])),
        exists|a: Seq<char>|
            s == #[trigger] (a + trimmed_start(s)) && (forall|i: int|
                0 <= i < a.len() ==> is_space(#[trigger] a[i])),
        trimmed_start(s).len() > 0 ==> !is_space(trimmed_start(s)[0]),
        trimmed(s).len() > 0 ==> !is_space(trimmed(s)[0]) && !is_space(trimmed(s).last()),
{
    let a = lemma_trimmed_start_split(s);
    let rest = trimmed_start(s);
    let b = lemma_trimmed_end_split(rest);
    assert(s == a + trimmed_start(s));
    assert(s =~= a + trimmed(s) + b);
    if trimmed(s).len() > 0 {
        assert(trimmed(s)[0] == rest[0]);
    }
}

/// Trimming a text with white space round it leaves the text.
pub proof fn lemma_trimmed_of(a: Seq<char>, s: Seq<char>, b: Seq<char>)
    requires
        s.len() > 0,
        !is_space(s[0]),
        !is_space(s.last()),
        forall|i: int| 0 <= i < a.len() ==> is_space(#[trigger] a[i]),
        forall|i: int| 0 <= i < b.len() ==> is_space(#[trigger] b[i]),
    ensures
        trimmed(a + s + b) == s,
        trimmed_start(a + s + b) == s + b,
    decreases a.len() + b.len(),
{
    let all = a + s + b;
    if a.len() > 0 {
        let rest = a.drop_first();
        assert forall|i: int| 0 <= i < rest.len() implies is_space(#[trigger] rest[i]) by {
            assert(rest[i] == a[i + 1]);
        }
        lemma_trimmed_of(rest, s, b);
        assert(all.drop_first() =~= rest + s + b);
        assert(all[0] == a[0]);
    } else {
        assert(all =~= s + b);
        assert(all[0] == s[0]);
        assert(trimmed_start(all) == all);
        if b.len() > 0 {
            let front = b.drop_last();
            assert forall|i: int| 0 <= i < front.len() implies is_space(#[trigger] front[i]) by {
                assert(front[i] == b[i]);
            }
            lemma_trimmed_of(a, s, front);
            assert(is_space(b[b.len() - 1]));
            assert(all.drop_last() =~= s + front);
            assert(a + s + front =~= s + front);
            assert(trimmed_start(s + front) == s + front);
        } else {
            assert(all =~= s);
        }
    }
}

/// Law: what a text is cut at is the character itself, white space, or white space
/// and what delimits a bare link.
pub proof fn law_separators(c: char, sep: char)
    ensures
        Separator::Char(sep).cuts(c) <==> c == sep,
        Separator::Space.cuts(c) <==> is_space(c),
        Separator::LinkEdge.cuts(c) <==> is_space(c) || "<>\""@.contains(c),
{
    reveal_strlit("<>\"");
    let edges = "<>\""@;
    assert(edges[0] == '<' && edges[1] == '>' && edges[2] == '"');
}

/// Law: a text without cuts is one piece, and a cut between two texts parts the
/// pieces of one from those of the other.
pub proof fn law_pieces(a: Seq<char>, cut: char, b: Seq<char>, sep: Separator)
    requires
        sep.cuts(cut),
    ensures
        pieces(a + seq![cut] + b, sep) == pieces(a, sep) + pieces(b, sep),
        (forall|i: int| 0 <= i < a.len() ==> !sep.cuts(#[trigger] a[i])) ==> pieces(a, sep)
            == seq![a],
    decreases b.len(),
{
    let all = a + seq![cut] + b;
    if forall|i: int| 0 <= i < a.len() ==> !sep.cuts(#[trigger] a[i]) {
        lemma_piece_alone(a, sep);
    }
    lemma_pieces_nonempty(a, sep);
    lemma_pieces_nonempty(b, sep);
    if b.len() == 0 {
        assert(all.drop_last() =~= a);
        assert(b =~= Seq::<char>::empty());
        assert(pieces(all, sep) =~= pieces(a, sep) + pieces(b, sep));
    } else {
        law_pieces(a, cut, b.drop_last(), sep);
        lemma_pieces_nonempty(b.drop_last(), sep);
        assert(all.drop_last() =~= a + seq![cut] + b.drop_last());
        let front = pieces(b.drop_last(), sep);
        let whole = pieces(a, sep) + front;
        assert(whole.drop_last() =~= pieces(a, sep) + front.drop_last());
        assert(whole.last() == front.last());
        assert(pieces(all, sep) =~= pieces(a, sep) + pieces(b, sep));
    }
}

/// Law: cutting a text at a character and joining the pieces with it gives back
/// the text.
pub proof fn law_pieces_rejoin(s: Seq<char>, sep: char)
    ensures
        joined(pieces(s, Separator::Char(sep)), seq![sep]) == s,
    decreases s.len(),
{
    lemma_pieces_nonempty(s, Separator::Char(sep));
    let all = pieces(s, Separator::Char(sep));
    let none = Seq::<Seq<char>>::empty();
    assert(joined(none, seq![sep]) =~= Seq::<char>::empty());
    if s.len() == 0 {
        assert(all.drop_last() =~= none);
        assert(joined(all, seq![sep]) =~= s);
    } else {
        let front = pieces(s.drop_last(), Separator::Char(sep));
        lemma_pieces_nonempty(s.drop_last(), Separator::Char(sep));
        law_pieces_rejoin(s.drop_last(), sep);
        if s.last() == sep {
            assert(all.drop_last() =~= front);
        } else {
            assert(all.drop_last() =~= front.drop_last());
            assert(joined(all, seq![sep]) =~= joined(front, seq![sep]).push(s.last()));
        }
        assert(s =~= s.drop_last().push(s.last()));
        assert(joined(all, seq![sep]) =~= s);
    }
}

/// Texts without a character, joined with it, are the pieces between its
/// occurrences.
pub proof fn lemma_pieces_of_joined(parts: Seq<Seq<char>>, sep: char)
    requires
        parts.len() > 0,
        forall|k: int| 0 <= k < parts.len() ==> !(#[trigger] parts[k]).contains(sep),
    ensures
        pieces(joined(parts, seq![sep]), Separator::Char(sep)) == parts,
    decreases parts.len(),
{
    let cut = Separator::Char(sep);
    let front = parts.drop_last();
    let last = parts.last();
    assert(!parts[parts.len() - 1].contains(sep));
    assert forall|i: int| 0 <= i < last.len() implies !cut.cuts(#[trigger] last[i]) by {
        assert(last.contains(last[i]));
    }
    lemma_piece_alone(last, cut);
    if parts.len() == 1 {
        assert(front =~= Seq::<Seq<char>>::empty());
        assert(joined(front, seq![sep]) =~= Seq::<char>::empty());
        assert(joined(parts, seq![sep]) =~= last);
        assert(parts =~= seq![last]);
    } else {
        assert forall|k: int| 0 <= k < front.len() implies !(#[trigger] front[k]).contains(sep) by {
            assert(front[k] == parts[k]);
        }
        lemma_pieces_of_joined(front, sep);
        law_pieces(joined(front, seq![sep]), sep, last, cut);
        assert(parts =~= front + seq![last]);
    }
}

/// Law: no parts joined are nothing, one part is itself, and two lists of parts
/// come one behind the other with the separator between them.
pub proof fn law_joined(a: Seq<Seq<char>>, b: Seq<Seq<char>>, part: Seq<char>, sep: Seq<char>)
    ensures
        joined(Seq::<Seq<char>>::empty(), sep).len() == 0,
        joined(seq![part], sep) == part,
        a.len() > 0 && b.len() > 0 ==> joined(a + b, sep) == joined(a, sep) + sep + joined(b, sep),
    decreases b.len(),
{
    let none = Seq::<Seq<char>>::empty();
    assert(joined(none, sep) =~= Seq::<char>::empty());
    assert(seq![part].drop_last() =~= none);
    assert(joined(seq![part], sep) =~= part);
    if a.len() > 0 && b.len() > 0 {
        assert((a + b).drop_last() =~= a + b.drop_last());
        if b.len() == 1 {
            assert(b.drop_last() =~= none);
            assert(a + none =~= a);
            assert(joined(b, sep) =~= b.last());
            assert(joined(a + b, sep) =~= joined(a, sep) + sep + joined(b, sep));
        } else {
            law_joined(a, b.drop_last(), part, sep);
            assert(joined(a + b, sep) =~= joined(a, sep) + sep + joined(b, sep));
        }
    }
}

/// Law: of parts, those that are not empty stay, all of them and in order.
pub proof fn law_nonempty(parts: Seq<Seq<char>>)
    ensures
        nonempty(parts) == parts.filter(|part: Seq<char>| part.len() > 0),
    decreases parts.len(),
{
    reveal(Seq::filter);
    if parts.len() > 0 {
        law_nonempty(parts.drop_last());
    }
}

/// The parts of two lists that are not empty are those of one and those of the other.
pub proof fn lemma_nonempty_concat(a: Seq<Seq<char>>, b: Seq<Seq<char>>)
    ensures
        nonempty(a + b) == nonempty(a) + nonempty(b),
    decreases b.len(),
{
    if b.len() == 0 {
        assert(a + b =~= a);
        assert(nonempty(a) + nonempty(b) =~= nonempty(a));
    } else {
        assert((a + b).drop_last() =~= a + b.drop_last());
        lemma_nonempty_concat(a, b.drop_last());
        assert(nonempty(a + b) =~= nonempty(a) + nonempty(b));
    }
}

/// Law: a text without white space is one word or, if empty, none, and white space
/// between two texts parts the words of one from those of the other.
pub proof fn law_words(a: Seq<char>, gap: char, b: Seq<char>)
    requires
        is_space(gap),
    ensures
        words(a + seq![gap] + b) == words(a) + words(b),
        a.len() == 0 ==> words(a).len() == 0,
        a.len() > 0 && (forall|i: int| 0 <= i < a.len() ==> !is_space(#[trigger] a[i])) ==> words(a)
            == seq![a],
{
    law_pieces(a, gap, b, Separator::Space);
    lemma_nonempty_concat(pieces(a, Separator::Space), pieces(b, Separator::Space));
    if a.len() == 0 {
        reveal_with_fuel(nonempty, 2);
        assert(pieces(a, Separator::Space).drop_last() =~= Seq::<Seq<char>>::empty());
    }
    if a.len() > 0 && forall|i: int| 0 <= i < a.len() ==> !is_space(#[trigger] a[i]) {
        lemma_words_of_word(a);
    }
}

/// Law: collapsing white space keeps the words, all of them and in order.
pub proof fn law_collapse_keeps_words(s: Seq<char>)
    ensures
        words(collapsed(s)) == words(s),
{
    lemma_pieces_spaceless(s);
    lemma_nonempty_words(pieces(s, Separator::Space));
    lemma_words_of_joined(words(s));
}

/// Law: of a text, the other characters stay when one is taken out, all of them
/// and in order.
pub proof fn law_without(s: Seq<char>, c: char)
    ensures
        without(s, c) == s.filter(|x: char| x != c),
    decreases s.len(),
{
    reveal(Seq::filter);
    if s.len() > 0 {
        law_without(s.drop_last(), c);
    }
}

proof fn lemma_trimmed_parts_concat(a: Seq<Seq<char>>, b: Seq<Seq<char>>)
    ensures
        trimmed_parts(a + b) == trimmed_parts(a) + trimmed_parts(b),
    decreases b.len(),
{
    if b.len() == 0 {
        assert(a + b =~= a);
        assert(trimmed_parts(a) + trimmed_parts(b) =~= trimmed_parts(a));
    } else {
        assert((a + b).drop_last() =~= a + b.drop_last());
        lemma_trimmed_parts_concat(a, b.drop_last());
        assert(trimmed_parts(a + b) =~= trimmed_parts(a) + trimmed_parts(b));
    }
}

/// Law: a comma between two lists parts the items of one from those of the other;
/// without a comma there is one item, the list trimmed, or none if that is empty.
pub proof fn law_list_items(a: Seq<char>, b: Seq<char>)
    ensures
        list_items(a + seq![','] + b) == list_items(a) + list_items(b),
        !a.contains(',') && trimmed(a).len() == 0 ==> list_items(a).len() == 0,
        !a.contains(',') && trimmed(a).len() > 0 ==> list_items(a) == seq![trimmed(a)],
{
    let sep = Separator::Char(',');
    law_pieces(a, ',', b, sep);
    lemma_trimmed_parts_concat(pieces(a, sep), pieces(b, sep));
    if !a.contains(',') {
        assert forall|i: int| 0 <= i < a.len() implies !sep.cuts(#[trigger] a[i]) by {
            assert(a.contains(a[i]));
        }
        lemma_piece_alone(a, sep);
        let none = Seq::<Seq<char>>::empty();
        assert(seq![a].drop_last() =~= none);
        assert(trimmed_parts(none) =~= none);
        if trimmed(a).len() > 0 {
            assert(list_items(a) =~= seq![trimmed(a)]);
        }
    }
}

/// Law: the order of texts is that of their first difference, a text coming before
/// its extensions.
pub proof fn law_order_first_difference(a: Seq<char>, b: Seq<char>)
    ensures
        precedes(a, b) <==> exists|k: int|
            0 <= k <= a.len() && k < b.len() && #[trigger] a.take(k) == b.take(k) && (k == a.len()
                || a[k] < b[k]),
    decreases a.len(),
{
    if precedes(a, b) {
        if a.len() == 0 || a[0] != b[0] {
            assert(a.take(0) =~= b.take(0));
        } else {
            let x = a.drop_first();
            let y = b.drop_first();
            law_order_first_difference(x, y);
            let k = choose|k: int|
                0 <= k <= x.len() && k < y.len() && #[trigger] x.take(k) == y.take(k) && (k
                    == x.len() || x[k] < y[k]);
            assert(a.take(k + 1) =~= seq![a[0]] + x.take(k));
            assert(b.take(k + 1) =~= seq![b[0]] + y.take(k));
        }
    }
    if exists|k: int|
        0 <= k <= a.len() && k < b.len() && #[trigger] a.take(k) == b.take(k) && (k == a.len()
            || a[k] < b[k]) {
        let k = choose|k: int|
            0 <= k <= a.len() && k < b.len() && #[trigger] a.take(k) == b.take(k) && (k == a.len()
                || a[k] < b[k]);
        if k > 0 {
            assert(a.take(k)[0] == a[0] && b.take(k)[0] == b[0]);
            let x = a.drop_first();
            let y = b.drop_first();
            law_order_first_difference(x, y);
            assert(x.take(k - 1) =~= a.take(k).drop_first());
            assert(y.take(k - 1) =~= b.take(k).drop_first());
        }
    }
}

/// Law: texts are held as their characters, each in its place, and an optional one as
/// such.
pub proof fn law_text_views(
    parts: Seq<String>,
    lists: Seq<Vec<char>>,
    o: Option<String>,
    b: Option<&str>,
)
    ensures
        texts(parts).len() == parts.len(),
        forall|i: int| 0 <= i < parts.len() ==> #[trigger] texts(parts)[i] == parts[i]@,
        rows(lists).len() == lists.len(),
        forall|i: int| 0 <= i < lists.len() ==> #[trigger] rows(lists)[i] == lists[i]@,
        opt_text(o) is Some <==> o is Some,
        o is Some ==> opt_text(o)->0 == o->0@,
        opt_str(b) is Some <==> b is Some,
        b is Some ==> opt_str(b)->0 == b->0@,
{
}

/// Law: a text takes as many bytes as its characters take together, which are those of
/// UTF-8.
pub proof fn law_octets(s: Seq<char>, c: char)
    ensures
        octets(s) == encode_utf8(s).len(),
        octets(s.push(c)) == octets(s) + width(c),
        width(c) == encode_utf8(seq![c]).len(),
{
    lemma_octets_push(s, c);
    lemma_octets_one(c);
}

proof fn lemma_ascii_char(c: char)
    ensures
        (c as u32) < 128 <==> c <= '\u{7f}',
{
}

/// Law: a text is ASCII if it holds no character beyond U+007F.
pub proof fn law_ascii(s: Seq<char>)
    ensures
        is_ascii_text(s) <==> forall|c: char| #[trigger] s.contains(c) ==> c <= '\u{7f}',
{
    if is_ascii_text(s) {
        assert forall|c: char| #[trigger] s.contains(c) implies c <= '\u{7f}' by {
            let i = choose|i: int| 0 <= i < s.len() && s[i] == c;
            assert((s[i] as u32) < 128);
            lemma_ascii_char(c);
        }
    }
    if forall|c: char| #[trigger] s.contains(c) ==> c <= '\u{7f}' {
        assert forall|i: int| 0 <= i < s.len() implies (#[trigger] s[i] as u32) < 128 by {
            assert(s.contains(s[i]));
            lemma_ascii_char(s[i]);
        }
    }
}

} // verus!
