//! iCalendar text: escaping and line folding.

use crate::text;
use vstd::prelude::*;

verus! {

/// What a character of a TEXT value is written as: backslashes, semicolons and
/// commas get a backslash before them, a line feed becomes `\n`, and a carriage
/// return is dropped.
pub open spec fn escape_of(c: char) -> Seq<char> {
    if c == '\\' || c == ';' || c == ',' {
        seq!['\\', c]
    } else if c == '\n' {
        seq!['\\', 'n']
    } else if c == '\r' {
        Seq::<char>::empty()
    } else {
        seq![c]
    }
}

/// A TEXT value as it is written (RFC 5545, section 3.3.11).
pub open spec fn escaped(s: Seq<char>) -> Seq<char>
    decreases s.len(),
{
    if s.len() == 0 {
        s
    } else {
        escaped(s.drop_last()) + escape_of(s.last())
    }
}

/// Escapes a TEXT value (RFC 5545, section 3.3.11).
pub fn ical_escape(text: &str) -> (r: String)
    ensures
        r@ == escaped(text@),
{
    let chars = text::to_chars(text);
    let mut out = String::new();
    let mut i: usize = 0;
    while i < chars.len()
        invariant
            i <= chars@.len(),
            out@ == escaped(chars@.take(i as int)),
        decreases chars@.len() - i,
    {
        let c = chars[i];
        let ghost before = out@;
        assert(chars@.take(i + 1).drop_last() =~= chars@.take(i as int));
        if c == '\\' || c == ';' || c == ',' {
            out.push('\\');
            out.push(c);
        } else if c == '\n' {
            out.push('\\');
            out.push('n');
        } else if c != '\r' {
            out.push(c);
        }
        assert(out@ =~= before + escape_of(c));
        i = i + 1;
    }
    assert(chars@.take(chars@.len() as int) =~= chars@);
    out
}

/// The longest content line, in bytes.
pub const LIMIT: usize = 75;

/// What a folded line is broken with: CRLF and a space.
pub open spec fn line_break() -> Seq<char> {
    seq!['\r', '\n', ' ']
}

/// How many bytes of a line's own text fit in the last of `n` segments. The
/// space that a continuation line starts with takes one.
pub open spec fn room(n: nat) -> nat {
    if n <= 1 {
        LIMIT as nat
    } else {
        (LIMIT - 1) as nat
    }
}

/// The segments that a content line is folded into: each takes as many whole
/// characters as fit.
pub open spec fn segments(line: Seq<char>) -> Seq<Seq<char>>
    decreases line.len(),
{
    if line.len() == 0 {
        seq![Seq::<char>::empty()]
    } else {
        let before = segments(line.drop_last());
        let c = line.last();
        if text::octets(before.last()) + text::width(c) > room(before.len()) {
            before.push(seq![c])
        } else {
            before.drop_last().push(before.last().push(c))
        }
    }
}

/// A content line folded at 75 bytes (RFC 5545, section 3.1).
pub open spec fn folded(line: Seq<char>) -> Seq<char> {
    text::joined(segments(line), line_break())
}

/// Every segment fits, holds a character unless the line is empty, and the
/// segments together are the line.
pub proof fn lemma_segments(line: Seq<char>)
    ensures
        segments(line).len() > 0,
        segments(line).flatten() == line,
        forall|i: int|
            0 <= i < segments(line).len() ==> text::octets(#[trigger] segments(line)[i])
                <= room((i + 1) as nat),
    decreases line.len(),
{
    if line.len() == 0 {
        assert(segments(line).flatten() =~= line) by {
            segments(line).lemma_flatten_one_element();
        }
    } else {
        let before = segments(line.drop_last());
        let c = line.last();
        lemma_segments(line.drop_last());
        assert(line =~= line.drop_last().push(c));
        if text::octets(before.last()) + text::width(c) > room(before.len()) {
            text::lemma_octets_one(c);
            before.lemma_flatten_push(seq![c]);
            assert(segments(line).flatten() =~= line);
        } else {
            text::lemma_octets_push(before.last(), c);
            assert(before =~= before.drop_last().push(before.last()));
            before.drop_last().lemma_flatten_push(before.last());
            before.drop_last().lemma_flatten_push(before.last().push(c));
            assert(segments(line).flatten() =~= line);
        }
    }
}

/// The first segment of a line that is not empty is not empty.
pub proof fn lemma_first_segment(line: Seq<char>)
    requires
        line.len() > 0,
    ensures
        segments(line)[0].len() > 0,
    decreases line.len(),
{
    let front = line.drop_last();
    lemma_segments(front);
    if front.len() == 0 {
        let none = Seq::<char>::empty();
        assert(front =~= none);
        assert(segments(front) =~= seq![none]);
        assert(text::octets(none) == 0);
        assert(segments(line)[0] =~= none.push(line.last()));
    } else {
        lemma_first_segment(front);
    }
}

/// A line that fits is one segment.
proof fn lemma_short(line: Seq<char>)
    requires
        text::octets(line) <= LIMIT,
    ensures
        segments(line) == seq![line],
        folded(line) == line,
    decreases line.len(),
{
    if line.len() == 0 {
        assert(line =~= Seq::<char>::empty());
    } else {
        let c = line.last();
        assert(line =~= line.drop_last().push(c));
        text::lemma_octets_push(line.drop_last(), c);
        lemma_short(line.drop_last());
        assert(segments(line) =~= seq![line]);
    }
    assert(segments(line).drop_last() =~= Seq::<Seq<char>>::empty());
    assert(text::joined(Seq::<Seq<char>>::empty(), line_break()) =~= Seq::<char>::empty());
    assert(folded(line) =~= line);
}

/// Folds a content line at 75 bytes (RFC 5545, section 3.1), breaking only
/// between characters.
pub fn fold_ical_line(line: &str) -> (r: String)
    ensures
        r@ == folded(line@),
{
    if text::octet_len(line) <= LIMIT {
        proof {
            lemma_short(line@);
        }
        return line.to_owned();
    }
    let chars = text::to_chars(line);
    let mut out = String::new();
    let mut budget: usize = LIMIT;
    let mut i: usize = 0;
    proof {
        lemma_segments(chars@.take(0));
        lemma_short(chars@.take(0));
    }
    while i < chars.len()
        invariant
            i <= chars@.len(),
            segments(chars@.take(i as int)).len() > 0,
            out@ == folded(chars@.take(i as int)),
            budget <= LIMIT,
            budget == room(segments(chars@.take(i as int)).len()) - text::octets(
                segments(chars@.take(i as int)).last(),
            ),
        decreases chars@.len() - i,
    {
        let c = chars[i];
        let w = text::char_width(c);
        let ghost before = segments(chars@.take(i as int));
        let ghost text_before = out@;
        proof {
            assert(chars@.take(i + 1).drop_last() =~= chars@.take(i as int));
            text::lemma_octets_push(before.last(), c);
            text::lemma_octets_one(c);
        }
        if w > budget {
            out.push('\r');
            out.push('\n');
            out.push(' ');
            budget = LIMIT - 1;
            out.push(c);
            budget = budget - w;
            proof {
                let after = before.push(seq![c]);
                assert(after.drop_last() =~= before);
                assert(out@ =~= text_before + line_break() + seq![c]);
            }
        } else {
            out.push(c);
            budget = budget - w;
            proof {
                let after = before.drop_last().push(before.last().push(c));
                assert(after.drop_last() =~= before.drop_last());
                assert(out@ =~= text::joined(after, line_break()));
            }
        }
        i = i + 1;
    }
    assert(chars@.take(chars@.len() as int) =~= chars@);
    out
}

/// `s` with every CRLF and space taken out, from left to right: what a folded
/// text is read as.
pub open spec fn unfolded(s: Seq<char>) -> Seq<char>
    decreases s.len(),
{
    if s.len() == 0 {
        s
    } else if line_break().is_prefix_of(s) {
        unfolded(s.skip(3))
    } else {
        seq![s[0]] + unfolded(s.drop_first())
    }
}

/// Text in which the break does not occur stays, before a carriage return or at
/// the end.
pub proof fn lemma_unfold_past(a: Seq<char>, rest: Seq<char>)
    requires
        !text::has_part(a, line_break()),
        rest.len() == 0 || rest[0] == '\r',
    ensures
        unfolded(a + rest) == a + unfolded(rest),
    decreases a.len(),
{
    let whole = a + rest;
    let brk = line_break();
    if a.len() == 0 {
        assert(whole =~= rest);
        assert(a + unfolded(rest) =~= unfolded(rest));
    } else {
        if brk.is_prefix_of(whole) {
            assert(whole.subrange(0, 3) =~= brk);
            assert(whole[0] == brk[0] && whole[1] == brk[1] && whole[2] == brk[2]);
            if a.len() >= 3 {
                assert(a.subrange(0int, 0int + brk.len()) =~= brk);
                assert(false);
            }
            assert(false);
        }
        assert(whole.drop_first() =~= a.drop_first() + rest);
        assert(!text::has_part(a.drop_first(), brk)) by {
            if text::has_part(a.drop_first(), brk) {
                let i = choose|i: int|
                    0 <= i <= a.drop_first().len() - brk.len() && #[trigger] a.drop_first().subrange(
                        i,
                        i + brk.len(),
                    ) == brk;
                assert(a.subrange(i + 1, i + 1 + brk.len()) =~= a.drop_first().subrange(
                    i,
                    i + brk.len(),
                ));
            }
        }
        lemma_unfold_past(a.drop_first(), rest);
        assert(seq![a[0]] + (a.drop_first() + unfolded(rest)) =~= a + unfolded(rest));
    }
}

/// The segments joined with breaks read back as the segments joined with
/// nothing, followed by what `rest` reads as.
pub proof fn lemma_unfold_joined(parts: Seq<Seq<char>>, rest: Seq<char>)
    requires
        parts.len() > 0,
        forall|i: int|
            0 <= i < parts.len() ==> !text::has_part(#[trigger] parts[i], line_break()),
        rest.len() == 0 || rest[0] == '\r',
    ensures
        unfolded(text::joined(parts, line_break()) + rest) == parts.flatten() + unfolded(rest),
    decreases parts.len(),
{
    let brk = line_break();
    let last = parts.last();
    let init = parts.drop_last();
    assert(parts =~= init.push(last));
    init.lemma_flatten_push(last);
    lemma_unfold_past(last, rest);
    if parts.len() == 1 {
        assert(init =~= Seq::<Seq<char>>::empty());
        assert(text::joined(parts, brk) + rest =~= last + rest);
        assert(parts.flatten() + unfolded(rest) =~= last + unfolded(rest));
    } else {
        let tail = brk + (last + rest);
        assert(brk.is_prefix_of(tail)) by {
            assert(tail.subrange(0, 3) =~= brk);
        }
        lemma_unfold_joined(init, tail);
        assert(text::joined(parts, brk) + rest =~= text::joined(init, brk) + tail);
        assert(tail.skip(3) =~= last + rest);
        assert(parts.flatten() + unfolded(rest) =~= init.flatten() + unfolded(tail));
    }
}

/// Law: a folded line is made of segments joined by CRLF and a space; no
/// physical line is longer than 75 bytes, the space included, and the segments
/// together are the line.
pub proof fn law_fold_limit(line: Seq<char>)
    ensures
        folded(line) == text::joined(segments(line), line_break()),
        segments(line).flatten() == line,
        forall|i: int|
            0 <= i < segments(line).len() ==> text::octets(#[trigger] segments(line)[i]) + (if i
                == 0 {
                0int
            } else {
                1
            }) <= 75,
{
    lemma_segments(line);
}

/// Whether no segment of a line holds CRLF and a space itself.
pub open spec fn is_unbroken(line: Seq<char>) -> bool {
    forall|i: int|
        0 <= i < segments(line).len() ==> !text::has_part(
            #[trigger] segments(line)[i],
            line_break(),
        )
}

/// Law: unfolding a folded line restores it, unless a segment of the line
/// itself holds CRLF and a space.
pub proof fn law_unfold_restores(line: Seq<char>)
    requires
        is_unbroken(line),
    ensures
        unfolded(folded(line)) == line,
{
    lemma_segments(line);
    let none = Seq::<char>::empty();
    lemma_unfold_joined(segments(line), none);
    assert(folded(line) + none =~= folded(line));
    assert(segments(line).flatten() + unfolded(none) =~= line);
}

/// A run that holds no carriage return holds no break.
proof fn lemma_no_break(s: Seq<char>)
    requires
        !s.contains('\r'),
    ensures
        !text::has_part(s, line_break()),
{
    let brk = line_break();
    if text::has_part(s, brk) {
        let i = choose|i: int|
            0 <= i <= s.len() - brk.len() && #[trigger] s.subrange(i, i + brk.len()) == brk;
        assert(s.subrange(i, i + brk.len())[0] == s[i]);
        assert(s[i] == '\r');
    }
}

/// The characters of a part are among those of the whole.
pub proof fn lemma_flatten_contains(parts: Seq<Seq<char>>, i: int, c: char)
    requires
        0 <= i < parts.len(),
        parts[i].contains(c),
    ensures
        parts.flatten().contains(c),
    decreases parts.len(),
{
    let init = parts.drop_last();
    assert(parts =~= init.push(parts.last()));
    init.lemma_flatten_push(parts.last());
    let whole = init.flatten() + parts.last();
    if i == parts.len() - 1 {
        let k = choose|k: int| 0 <= k < parts[i].len() && parts[i][k] == c;
        assert(whole[init.flatten().len() + k] == c);
    } else {
        assert(init[i] == parts[i]);
        lemma_flatten_contains(init, i, c);
        let k = choose|k: int| 0 <= k < init.flatten().len() && init.flatten()[k] == c;
        assert(whole[k] == c);
    }
}

/// A line without a carriage return has no break in its segments.
pub proof fn lemma_plain_segments(line: Seq<char>)
    requires
        !line.contains('\r'),
    ensures
        is_unbroken(line),
{
    lemma_segments(line);
    assert forall|i: int| 0 <= i < segments(line).len() implies !text::has_part(
        #[trigger] segments(line)[i],
        line_break(),
    ) by {
        if segments(line)[i].contains('\r') {
            lemma_flatten_contains(segments(line), i, '\r');
        }
        lemma_no_break(segments(line)[i]);
    }
}

/// Law: unfolding a folded line restores it when the line holds no carriage
/// return.
pub proof fn law_unfold_restores_plain(line: Seq<char>)
    requires
        !line.contains('\r'),
    ensures
        unfolded(folded(line)) == line,
{
    lemma_plain_segments(line);
    law_unfold_restores(line);
}

/// A folded line, ended by CRLF and not continued, reads back as the line, its
/// end and what `rest` reads as.
pub proof fn lemma_unfold_line(line: Seq<char>, rest: Seq<char>)
    requires
        is_unbroken(line),
        rest.len() == 0 || rest[0] != ' ',
    ensures
        unfolded(folded(line) + (seq!['\r', '\n'] + rest)) == line + (seq!['\r', '\n'] + unfolded(
            rest,
        )),
{
    let tail = seq!['\r', '\n'] + rest;
    lemma_segments(line);
    lemma_unfold_joined(segments(line), tail);
    assert(!line_break().is_prefix_of(tail)) by {
        if line_break().is_prefix_of(tail) {
            assert(tail.subrange(0, 3)[2] == tail[2]);
            assert(tail[2] == rest[0]);
        }
    }
    let second = seq!['\n'] + rest;
    assert(tail.drop_first() =~= second);
    assert(!line_break().is_prefix_of(second)) by {
        if line_break().is_prefix_of(second) {
            assert(second.subrange(0, 3)[0] == second[0]);
        }
    }
    assert(second.drop_first() =~= rest);
    assert(unfolded(second) == seq!['\n'] + unfolded(rest));
    assert(unfolded(tail) =~= seq!['\r', '\n'] + unfolded(rest));
}

/// A written TEXT value as it is read: a backslash makes the next character
/// stand for itself, or for a line feed if it is `n`.
pub open spec fn unescaped(s: Seq<char>) -> Seq<char>
    decreases s.len(),
{
    if s.len() == 0 {
        s
    } else if s[0] == '\\' && s.len() > 1 {
        seq![
            if s[1] == 'n' {
                '\n'
            } else {
                s[1]
            },
        ] + unescaped(s.skip(2))
    } else {
        seq![s[0]] + unescaped(s.drop_first())
    }
}

/// Escaping goes character by character, so it distributes over concatenation.
proof fn lemma_escaped_concat(a: Seq<char>, b: Seq<char>)
    ensures
        escaped(a + b) == escaped(a) + escaped(b),
    decreases b.len(),
{
    if b.len() == 0 {
        assert(a + b =~= a);
        assert(escaped(a) + escaped(b) =~= escaped(a));
    } else {
        assert((a + b).drop_last() =~= a + b.drop_last());
        lemma_escaped_concat(a, b.drop_last());
        assert(escaped(a + b) =~= escaped(a) + escaped(b));
    }
}

/// Taking characters out goes character by character.
proof fn lemma_without_concat(a: Seq<char>, b: Seq<char>, c: char)
    ensures
        text::without(a + b, c) == text::without(a, c) + text::without(b, c),
    decreases b.len(),
{
    if b.len() == 0 {
        assert(a + b =~= a);
        assert(text::without(a, c) + text::without(b, c) =~= text::without(a, c));
    } else {
        assert((a + b).drop_last() =~= a + b.drop_last());
        lemma_without_concat(a, b.drop_last(), c);
        assert(text::without(a + b, c) =~= text::without(a, c) + text::without(b, c));
    }
}

/// Law: reading an escaped TEXT value gives back the text without its carriage
/// returns.
pub proof fn law_escape_round_trip(s: Seq<char>)
    ensures
        unescaped(escaped(s)) == text::without(s, '\r'),
    decreases s.len(),
{
    if s.len() > 0 {
        let c = s[0];
        let one = seq![c];
        let rest = s.drop_first();
        assert(s =~= one + rest);
        assert(one.drop_last() =~= Seq::<char>::empty());
        lemma_escaped_concat(one, rest);
        lemma_without_concat(one, rest, '\r');
        assert(escaped(one) =~= escape_of(c)) by {
            reveal_with_fuel(escaped, 2);
        }
        assert(text::without(one, '\r') =~= (if c == '\r' {
            Seq::<char>::empty()
        } else {
            one
        })) by {
            reveal_with_fuel(text::without, 2);
        }
        law_escape_round_trip(rest);
        let written = escape_of(c) + escaped(rest);
        if c == '\r' {
            assert(written =~= escaped(rest));
            assert(text::without(s, '\r') =~= text::without(rest, '\r'));
        } else if c == '\\' || c == ';' || c == ',' || c == '\n' {
            assert(written.skip(2) =~= escaped(rest));
            assert(unescaped(written) =~= one + text::without(rest, '\r'));
        } else {
            assert(written.drop_first() =~= escaped(rest));
            assert(unescaped(written) =~= one + text::without(rest, '\r'));
        }
    }
}

/// Law: an escaped TEXT value stays on its line: it holds neither a line feed
/// nor a carriage return.
pub proof fn law_escape_one_line(s: Seq<char>)
    ensures
        !escaped(s).contains('\n'),
        !escaped(s).contains('\r'),
    decreases s.len(),
{
    if s.len() > 0 {
        law_escape_one_line(s.drop_last());
        let head = escaped(s.drop_last());
        let tail = escape_of(s.last());
        assert forall|i: int| 0 <= i < (head + tail).len() implies (head + tail)[i] != '\n' && (head
            + tail)[i] != '\r' by {
            if i < head.len() {
                assert(head.contains(head[i]));
            }
        }
    }
}

/// Law: in a TEXT value a backslash is put before a backslash, a semicolon and a
/// comma, a line feed is written as a backslash and `n`, a carriage return is left
/// out, and every other character is written as it is; texts that follow each other
/// are written one behind the other.
pub proof fn law_escape_characters(a: Seq<char>, b: Seq<char>, c: char)
    ensures
        escaped(a + b) == escaped(a) + escaped(b),
        escaped(seq![c]) == if "\\;,"@.contains(c) {
            seq!['\\', c]
        } else if c == '\n' {
            seq!['\\', 'n']
        } else if c == '\r' {
            Seq::<char>::empty()
        } else {
            seq![c]
        },
{
    reveal_strlit("\\;,");
    let marks = "\\;,"@;
    assert(marks[0] == '\\' && marks[1] == ';' && marks[2] == ',');
    lemma_escaped_concat(a, b);
    reveal_with_fuel(escaped, 2);
    assert(seq![c].drop_last() =~= Seq::<char>::empty());
    assert(escaped(seq![c]) =~= escape_of(c));
}

/// Law: a line of at most 75 bytes is not folded.
pub proof fn law_fold_short(line: Seq<char>)
    requires
        text::octets(line) <= 75,
    ensures
        folded(line) == line,
{
    lemma_short(line);
}

/// Law: a line is broken only where the next character would not fit any more.
pub proof fn law_fold_full(line: Seq<char>, i: int)
    requires
        0 <= i < segments(line).len() - 1,
    ensures
        segments(line)[i + 1].len() > 0,
        text::octets(segments(line)[i]) + text::width(segments(line)[i + 1][0]) > (if i == 0 {
            75int
        } else {
            74
        }),
    decreases line.len(),
{
    if line.len() > 0 {
        let before = segments(line.drop_last());
        let c = line.last();
        lemma_segments(line.drop_last());
        if i < before.len() - 1 {
            law_fold_full(line.drop_last(), i);
        }
    }
}

} // verus!
