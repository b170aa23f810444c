//! Percent-encoding of path segments.

use vstd::prelude::*;
use vstd::string::*;
use vstd::utf8::*;

verus! {

/// Whether a byte of a path segment is written as it is. Control characters,
/// bytes outside ASCII and the characters that would end or restructure a path
/// are not.
pub open spec fn is_path_safe(b: u8) -> bool {
    let c = b as char;
    &&& 0x20 < b < 0x7f
    &&& c != '"' && c != '<' && c != '>' && c != '`'
    &&& c != '#' && c != '?' && c != '{' && c != '}'
    &&& c != '/' && c != '%'
}

/// The upper-case hexadecimal digit for a number below 16.
pub open spec fn hex_digit(n: int) -> char {
    if n < 10 {
        (n + '0' as u32) as char
    } else {
        (n - 10 + 'A' as u32) as char
    }
}

/// `percent_encoding::percent_encode_byte` writes any byte as `%` and its two
/// upper-case hexadecimal digits.
pub assume_specification[ percent_encoding::percent_encode_byte ](byte: u8) -> (r: &'static str)
    ensures
        r@ == seq!['%', hex_digit(byte as int / 16), hex_digit(byte as int % 16)],
;

/// What a byte of a path segment is written as.
pub open spec fn percent_of(b: u8) -> Seq<char> {
    if is_path_safe(b) {
        seq![b as char]
    } else {
        seq!['%', hex_digit(b as int / 16), hex_digit(b as int % 16)]
    }
}

/// The bytes of a path segment as they are written.
pub open spec fn percent_encoded(bytes: Seq<u8>) -> Seq<char>
    decreases bytes.len(),
{
    if bytes.len() == 0 {
        Seq::<char>::empty()
    } else {
        percent_encoded(bytes.drop_last()) + percent_of(bytes.last())
    }
}

/// A text as it is written in a path segment.
pub open spec fn path_segment(s: Seq<char>) -> Seq<char> {
    percent_encoded(encode_utf8(s))
}

fn path_safe(b: u8) -> (r: bool)
    ensures
        r == is_path_safe(b),
{
    let c = b as char;
    0x20 < b && b < 0x7f && c != '"' && c != '<' && c != '>' && c != '`' && c != '#' && c != '?'
        && c != '{' && c != '}' && c != '/' && c != '%'
}

/// Writes a text as a path segment: its UTF-8 bytes, each but the safe ones as
/// `%` and two hexadecimal digits.
pub fn encode_path_segment(s: &str) -> (r: String)
    ensures
        r@ == path_segment(s@),
{
    let bytes = s.as_bytes();
    let mut out = String::new();
    let mut i: usize = 0;
    assert(bytes@.take(0) =~= Seq::<u8>::empty());
    while i < bytes.len()
        invariant
            i <= bytes@.len(),
            out@ == percent_encoded(bytes@.take(i as int)),
        decreases bytes@.len() - i,
    {
        let b: u8 = bytes[i];
        let ghost before = out@;
        if path_safe(b) {
            out.push(b as char);
        } else {
            out.append(percent_encoding::percent_encode_byte(b));
        }
        assert(out@ =~= before + percent_of(b));
        assert(bytes@.take(i + 1).drop_last() =~= bytes@.take(i as int));
        i = i + 1;
    }
    assert(bytes@.take(bytes@.len() as int) =~= bytes@);
    out
}

/// Law: a written path segment holds only printable ASCII characters, and none
/// that ends the segment, the path or the query.
pub proof fn law_path_segment_safe(s: Seq<char>)
    ensures
        forall|i: int|
            0 <= i < path_segment(s).len() ==> {
                let c = #[trigger] path_segment(s)[i];
                0x20 < c as u32 && (c as u32) < 0x7f && c != '/' && c != '?' && c != '#'
            },
{
    lemma_encoded_safe(encode_utf8(s));
}

proof fn lemma_encoded_safe(bytes: Seq<u8>)
    ensures
        forall|i: int|
            0 <= i < percent_encoded(bytes).len() ==> {
                let c = #[trigger] percent_encoded(bytes)[i];
                0x20 < c as u32 && (c as u32) < 0x7f && c != '/' && c != '?' && c != '#'
            },
    decreases bytes.len(),
{
    if bytes.len() > 0 {
        lemma_encoded_safe(bytes.drop_last());
        let head = percent_encoded(bytes.drop_last());
        let tail = percent_of(bytes.last());
        assert forall|i: int| 0 <= i < percent_encoded(bytes).len() implies ({
            let c = #[trigger] percent_encoded(bytes)[i];
            0x20 < c as u32 && (c as u32) < 0x7f && c != '/' && c != '?' && c != '#'
        }) by {
            if i < head.len() {
                assert(percent_encoded(bytes)[i] == head[i]);
            } else {
                assert(percent_encoded(bytes)[i] == tail[i - head.len()]);
            }
        }
    }
}

/// The number that an upper-case hexadecimal digit stands for.
pub open spec fn hex_value(c: char) -> int {
    if c <= '9' {
        c as u32 - '0' as u32
    } else {
        c as u32 - 'A' as u32 + 10
    }
}

/// The bytes that a written path segment stands for.
pub open spec fn percent_decoded(s: Seq<char>) -> Seq<u8>
    decreases s.len(),
{
    if s.len() == 0 {
        Seq::<u8>::empty()
    } else if s[0] == '%' && s.len() >= 3 {
        seq![(hex_value(s[1]) * 16 + hex_value(s[2])) as u8] + percent_decoded(s.skip(3))
    } else {
        seq![s[0] as u8] + percent_decoded(s.skip(1))
    }
}

proof fn lemma_hex(n: int)
    requires
        0 <= n < 16,
    ensures
        hex_value(hex_digit(n)) == n,
{
}

proof fn lemma_decoded_step(b: u8, rest: Seq<char>)
    ensures
        percent_decoded(percent_of(b) + rest) == seq![b] + percent_decoded(rest),
{
    let s = percent_of(b) + rest;
    if is_path_safe(b) {
        assert(s[0] == b as char);
        assert(s[0] != '%');
        assert(s.skip(1) =~= rest);
        assert(s[0] as u8 == b);
    } else {
        lemma_hex(b as int / 16);
        lemma_hex(b as int % 16);
        assert(s[0] == '%');
        assert(s.skip(3) =~= rest);
        assert((b as int / 16) * 16 + b as int % 16 == b);
    }
}

proof fn lemma_decoded(bytes: Seq<u8>, rest: Seq<char>)
    ensures
        percent_decoded(percent_encoded(bytes) + rest) == bytes + percent_decoded(rest),
    decreases bytes.len(),
{
    if bytes.len() == 0 {
        assert(percent_encoded(bytes) + rest =~= rest);
        assert(bytes + percent_decoded(rest) =~= percent_decoded(rest));
    } else {
        let front = bytes.drop_last();
        let last = bytes.last();
        lemma_decoded(front, percent_of(last) + rest);
        lemma_decoded_step(last, rest);
        assert(percent_encoded(bytes) + rest =~= percent_encoded(front) + (percent_of(last)
            + rest));
        assert(front + (seq![last] + percent_decoded(rest)) =~= bytes + percent_decoded(rest));
    }
}

/// Law: a written path segment stands for the bytes of the text that was written,
/// so that no two texts are written alike.
pub proof fn law_path_segment_reads_back(s: Seq<char>)
    ensures
        percent_decoded(path_segment(s)) == encode_utf8(s),
{
    lemma_decoded(encode_utf8(s), Seq::<char>::empty());
    assert(path_segment(s) + Seq::<char>::empty() =~= path_segment(s));
    assert(encode_utf8(s) + percent_decoded(Seq::<char>::empty()) =~= encode_utf8(s));
}

/// Law: a path segment is written byte by byte: a printable ASCII character as it is,
/// unless it could end or restructure a path, and every other byte as `%` and two
/// upper-case hexadecimal digits.
pub proof fn law_path_segment_bytes(bytes: Seq<u8>, b: u8)
    ensures
        percent_encoded(bytes.push(b)) == percent_encoded(bytes) + (if 0x21 <= b <= 0x7e
            && !"\"<>`#?{}/%"@.contains(b as char) {
            seq![b as char]
        } else {
            seq!['%', "0123456789ABCDEF"@[b as int / 16], "0123456789ABCDEF"@[b as int % 16]]
        }),
        percent_encoded(Seq::<u8>::empty()).len() == 0,
{
    reveal_strlit("\"<>`#?{}/%");
    reveal_strlit("0123456789ABCDEF");
    let marks = "\"<>`#?{}/%"@;
    assert(marks[0] == '"' && marks[1] == '<' && marks[2] == '>' && marks[3] == '`' && marks[4]
        == '#' && marks[5] == '?' && marks[6] == '{' && marks[7] == '}' && marks[8] == '/'
        && marks[9] == '%');
    assert(bytes.push(b).drop_last() =~= bytes);
    lemma_hex_digits(b as int / 16);
    lemma_hex_digits(b as int % 16);
}

proof fn lemma_hex_digits(n: int)
    requires
        0 <= n < 16,
    ensures
        "0123456789ABCDEF"@[n] == hex_digit(n),
{
    reveal_strlit("0123456789ABCDEF");
    let all = "0123456789ABCDEF"@;
    assert(all[0] == '0' && all[1] == '1' && all[2] == '2' && all[3] == '3' && all[4] == '4'
        && all[5] == '5' && all[6] == '6' && all[7] == '7');
    assert(all[8] == '8' && all[9] == '9' && all[10] == 'A' && all[11] == 'B' && all[12] == 'C'
        && all[13] == 'D' && all[14] == 'E' && all[15] == 'F');
}

/// Law: a text is written as a path segment by the bytes of its UTF-8 form.
pub proof fn law_path_segment_utf8(s: Seq<char>)
    ensures
        path_segment(s) == percent_encoded(encode_utf8(s)),
{
}

} // verus!
