//! Decimal numerals: writing numbers out, padded or not, and reading them.

use crate::text;
use vstd::prelude::*;
use vstd::slice::slice_subrange;

verus! {

/// The numeral of a number below ten.
pub open spec fn digit_char(d: int) -> char {
    (d + '0' as u32) as char
}

/// The number that a digit stands for.
pub open spec fn digit_value(c: char) -> int {
    c as u32 - '0' as u32
}

/// The decimal numeral of `n`, without leading zeros.
pub open spec fn numeral(n: nat) -> Seq<char>
    decreases n,
{
    if n < 10 {
        seq![digit_char(n as int)]
    } else {
        numeral(n / 10).push(digit_char(n as int % 10))
    }
}

/// `count` zeros.
pub open spec fn zeros(count: int) -> Seq<char> {
    Seq::new(
        if count < 0 {
            0
        } else {
            count as nat
        },
        |i: int| '0',
    )
}

/// The decimal numeral of `n` with leading zeros up to `size` characters; a
/// longer numeral is kept whole.
pub open spec fn padded(n: nat, size: int) -> Seq<char> {
    zeros(size - numeral(n).len()) + numeral(n)
}

/// The decimal numeral of `n` with its sign, if negative, and leading zeros up
/// to `size` characters, the sign among them.
pub open spec fn signed_padded(n: int, size: int) -> Seq<char> {
    if n < 0 {
        seq!['-'] + padded((-n) as nat, size - 1)
    } else {
        padded(n as nat, size)
    }
}

/// The number that a sequence of digits stands for.
pub open spec fn value(digits: Seq<char>) -> nat
    decreases digits.len(),
{
    if digits.len() == 0 {
        0
    } else {
        (value(digits.drop_last()) * 10 + digit_value(digits.last())) as nat
    }
}

/// Law: reading a numeral gives back the number.
pub proof fn law_numeral_round_trip(n: nat)
    ensures
        text::all_digits(numeral(n)),
        numeral(n).len() > 0,
        value(numeral(n)) == n,
    decreases n,
{
    reveal_with_fuel(value, 2);
    if n >= 10 {
        law_numeral_round_trip(n / 10);
        assert(numeral(n).drop_last() =~= numeral(n / 10));
    } else {
        assert(numeral(n).drop_last() =~= Seq::<char>::empty());
    }
}

/// The decimal numeral of `n`.
pub fn write_number(n: u64) -> (r: Vec<char>)
    ensures
        r@ == numeral(n as nat),
    decreases n,
{
    let last: char = ('0' as u8 + (n % 10) as u8) as char;
    if n < 10 {
        let out: Vec<char> = vec![last];
        assert(out@ =~= numeral(n as nat));
        out
    } else {
        let mut out = write_number(n / 10);
        out.push(last);
        out
    }
}

/// The decimal numeral of `n` with leading zeros up to `size` characters.
pub fn write_padded(n: u64, size: usize) -> (r: Vec<char>)
    ensures
        r@ == padded(n as nat, size as int),
{
    let number = write_number(n);
    let mut out: Vec<char> = Vec::new();
    let mut left: usize = if size > number.len() {
        size - number.len()
    } else {
        0
    };
    let ghost all = left as int;
    while left > 0
        invariant
            left <= all,
            out@ == zeros(all - left),
        decreases left,
    {
        out.push('0');
        left = left - 1;
        assert(out@ =~= zeros(all - left));
    }
    assert(zeros(all) =~= zeros(size - number@.len()));
    text::extend(&mut out, number.as_slice());
    out
}

/// The decimal numeral of `n` with its sign, if negative, and leading zeros up
/// to `size` characters.
pub fn write_signed_padded(n: i64, size: usize) -> (r: Vec<char>)
    requires
        size > 0,
    ensures
        r@ == signed_padded(n as int, size as int),
{
    if n < 0 {
        let mut out: Vec<char> = vec!['-'];
        assert(out@ =~= seq!['-']);
        let rest = write_padded((-(n + 1)) as u64 + 1, size - 1);
        text::extend(&mut out, rest.as_slice());
        out
    } else {
        write_padded(n as u64, size)
    }
}

/// More digits stand for at least as large a number.
proof fn lemma_value_grows(digits: Seq<char>, n: int)
    requires
        text::all_digits(digits),
        0 <= n <= digits.len(),
    ensures
        value(digits.take(n)) <= value(digits),
    decreases digits.len() - n,
{
    if n == digits.len() {
        assert(digits.take(n) =~= digits);
    } else {
        assert(digits.take(n + 1).drop_last() =~= digits.take(n));
        lemma_value_grows(digits, n + 1);
    }
}

/// The number that the digits stand for, where it is below 2^64.
pub fn read_number(digits: &[char]) -> (r: Option<u64>)
    ensures
        r is Some <==> digits@.len() > 0 && text::all_digits(digits@) && value(digits@) <= u64::MAX,
        r matches Some(n) ==> n == value(digits@),
{
    if digits.len() == 0 || !text::digits_only(digits) {
        return None;
    }
    let mut n: u64 = 0;
    let mut i: usize = 0;
    while i < digits.len()
        invariant
            i <= digits@.len(),
            text::all_digits(digits@),
            n == value(digits@.take(i as int)),
        decreases digits@.len() - i,
    {
        let d: u64 = (digits[i] as u32 - '0' as u32) as u64;
        proof {
            assert(digits@.take(i + 1).drop_last() =~= digits@.take(i as int));
            lemma_value_grows(digits@, i + 1);
        }
        if n > (u64::MAX - d) / 10 {
            return None;
        }
        n = n * 10 + d;
        i = i + 1;
    }
    assert(digits@.take(digits@.len() as int) =~= digits@);
    Some(n)
}

/// A number below a power of ten has no more digits than the power.
proof fn lemma_numeral_len(n: nat)
    requires
        n <= 9999,
    ensures
        n <= 99 ==> numeral(n).len() <= 2,
        n <= 999 ==> numeral(n).len() <= 3,
        numeral(n).len() <= 4,
{
    reveal_with_fuel(numeral, 4);
}

/// Leading zeros do not change the number.
proof fn lemma_value_padded(k: int, digits: Seq<char>)
    requires
        k >= 0,
        text::all_digits(digits),
    ensures
        value(zeros(k) + digits) == value(digits),
        text::all_digits(zeros(k) + digits),
    decreases k + digits.len(),
{
    let whole = zeros(k) + digits;
    if digits.len() > 0 {
        assert(whole.drop_last() =~= zeros(k) + digits.drop_last());
        assert forall|i: int| 0 <= i < digits.drop_last().len() implies text::is_digit(
            #[trigger] digits.drop_last()[i],
        ) by {
            assert(digits.drop_last()[i] == digits[i]);
        }
        lemma_value_padded(k, digits.drop_last());
        assert(whole.last() == digits.last());
    } else if k > 0 {
        assert(whole.drop_last() =~= zeros(k - 1) + digits);
        lemma_value_padded(k - 1, digits);
        assert(whole.last() == '0');
    } else {
        assert(whole =~= digits);
    }
}

/// A number that fits is written with exactly the given size, in digits that
/// stand for it.
pub proof fn law_padded_round_trip(n: nat, size: int)
    requires
        (size == 2 && n <= 99) || (size == 3 && n <= 999) || (size == 4 && n <= 9999),
    ensures
        padded(n, size).len() == size,
        text::all_digits(padded(n, size)),
        value(padded(n, size)) == n,
{
    lemma_numeral_len(n);
    law_numeral_round_trip(n);
    lemma_value_padded(size - numeral(n).len(), numeral(n));
}

/// The number that a numeral with an optional plus sign stands for.
pub open spec fn unsigned_value(s: Seq<char>) -> Option<nat> {
    let digits = if s.len() > 0 && s[0] == '+' {
        s.drop_first()
    } else {
        s
    };
    if digits.len() > 0 && text::all_digits(digits) {
        Some(value(digits))
    } else {
        None
    }
}

/// The number that a numeral with an optional sign stands for.
pub open spec fn signed_value(s: Seq<char>) -> Option<int> {
    if s.len() > 0 && s[0] == '-' {
        let digits = s.drop_first();
        if digits.len() > 0 && text::all_digits(digits) {
            Some(-(value(digits) as int))
        } else {
            None
        }
    } else {
        match unsigned_value(s) {
            Some(n) => Some(n as int),
            None => None,
        }
    }
}

/// Few digits stand for a small number.
pub proof fn lemma_short_value(digits: Seq<char>)
    requires
        digits.len() <= 4,
        text::all_digits(digits),
    ensures
        value(digits) <= 9999,
        digits.len() <= 2 ==> value(digits) <= 99,
{
    reveal_with_fuel(value, 5);
}

/// A numeral of at most four characters stands for a small number.
pub proof fn lemma_short_numeral(s: Seq<char>)
    requires
        s.len() <= 4,
    ensures
        unsigned_value(s) matches Some(n) ==> n <= 9999,
        signed_value(s) matches Some(n) ==> -9999 <= n <= 9999,
{
    if text::all_digits(s) {
        lemma_short_value(s);
    }
    if s.len() > 0 && text::all_digits(s.drop_first()) {
        lemma_short_value(s.drop_first());
    }
}

/// Reads a numeral with an optional plus sign, where the number is below 2^64.
fn read_plain(s: &[char]) -> (r: Option<u64>)
    ensures
        match unsigned_value(s@) {
            Some(n) => if n <= u64::MAX {
                r == Some(n as u64)
            } else {
                r is None
            },
            None => r is None,
        },
{
    let digits = if s.len() > 0 && s[0] == '+' {
        slice_subrange(s, 1, s.len())
    } else {
        s
    };
    assert(digits@ =~= (if s@.len() > 0 && s@[0] == '+' {
        s@.drop_first()
    } else {
        s@
    }));
    read_number(digits)
}

/// Reads a numeral with an optional plus sign, where the number fits the type.
pub fn read_unsigned(s: &[char]) -> (r: Option<u32>)
    ensures
        match unsigned_value(s@) {
            Some(n) => if n <= u32::MAX {
                r == Some(n as u32)
            } else {
                r is None
            },
            None => r is None,
        },
{
    match read_plain(s) {
        Some(n) => {
            if n <= u32::MAX as u64 {
                Some(n as u32)
            } else {
                None
            }
        },
        None => None,
    }
}

/// Reads a numeral with an optional sign, where the number fits the type.
pub fn read_signed(s: &[char]) -> (r: Option<i64>)
    ensures
        match signed_value(s@) {
            Some(n) => if i64::MIN <= n <= i64::MAX {
                r == Some(n as i64)
            } else {
                r is None
            },
            None => r is None,
        },
{
    if s.len() > 0 && s[0] == '-' {
        let digits = slice_subrange(s, 1, s.len());
        assert(digits@ =~= s@.drop_first());
        match read_number(digits) {
            Some(n) => {
                if n <= i64::MAX as u64 {
                    Some(-(n as i64))
                } else if n - 1 <= i64::MAX as u64 {
                    Some(i64::MIN)
                } else {
                    None
                }
            },
            None => None,
        }
    } else {
        match read_plain(s) {
            Some(n) => {
                if n <= i64::MAX as u64 {
                    Some(n as i64)
                } else {
                    None
                }
            },
            None => None,
        }
    }
}

/// Law: a number below ten is written as one digit, and any other as what ten goes
/// into it, followed by the digit of the rest.
pub proof fn law_numeral_digits(n: nat, d: int)
    requires
        0 <= d < 10,
    ensures
        numeral(d as nat) == seq!["0123456789"@[d]],
        n > 0 ==> numeral((10 * n + d) as nat) == numeral(n).push("0123456789"@[d]),
        value(seq!["0123456789"@[d]]) == d,
{
    reveal_strlit("0123456789");
    let ten = "0123456789"@;
    assert(ten[d] == digit_char(d)) by {
        assert(ten[0] == '0' && ten[1] == '1' && ten[2] == '2' && ten[3] == '3' && ten[4] == '4'
            && ten[5] == '5' && ten[6] == '6' && ten[7] == '7' && ten[8] == '8' && ten[9] == '9');
    }
    if n > 0 {
        assert(((10 * n + d) as nat) / 10 == n);
        assert(((10 * n + d) as nat) as int % 10 == d);
    }
    assert(seq![ten[d]].drop_last() =~= Seq::<char>::empty());
    reveal_with_fuel(value, 2);
}

/// Law: one more digit makes a number ten times what it was and adds the digit.
pub proof fn law_value_digits(digits: Seq<char>, d: int)
    requires
        0 <= d < 10,
    ensures
        value(digits.push("0123456789"@[d])) == 10 * value(digits) + d,
        value(Seq::<char>::empty()) == 0,
{
    reveal_strlit("0123456789");
    let ten = "0123456789"@;
    assert(digit_value(ten[d]) == d) by {
        assert(ten[0] == '0' && ten[1] == '1' && ten[2] == '2' && ten[3] == '3' && ten[4] == '4'
            && ten[5] == '5' && ten[6] == '6' && ten[7] == '7' && ten[8] == '8' && ten[9] == '9');
    }
    assert(digits.push(ten[d]).drop_last() =~= digits);
}

/// Law: digits are read as the number that they stand for, with a plus sign as
/// without, with a minus sign as its negative where a sign may stand. Nothing else
/// is read as a number.
pub proof fn law_signs(s: Seq<char>, digits: Seq<char>)
    requires
        digits.len() > 0,
        text::all_digits(digits),
    ensures
        unsigned_value(digits) == Some(value(digits)),
        unsigned_value(seq!['+'] + digits) == Some(value(digits)),
        unsigned_value(seq!['-'] + digits) is None,
        signed_value(digits) == Some(value(digits) as int),
        signed_value(seq!['+'] + digits) == Some(value(digits) as int),
        signed_value(seq!['-'] + digits) == Some(-(value(digits) as int)),
        unsigned_value(s) is Some || signed_value(s) is Some ==> exists|tail: Seq<char>|
            tail.len() > 0 && text::all_digits(tail) && (s == tail || s == #[trigger] (seq!['+']
                + tail) || s == seq!['-'] + tail),
{
    let plus = seq!['+'] + digits;
    let minus = seq!['-'] + digits;
    assert(text::is_digit(digits[0]));
    assert(plus.drop_first() =~= digits);
    assert(minus.drop_first() =~= digits);
    assert(!text::is_digit(minus[0]));
    if unsigned_value(s) is Some || signed_value(s) is Some {
        let tail = if s[0] == '+' || s[0] == '-' {
            s.drop_first()
        } else {
            s
        };
        assert(s[0] == '+' ==> s =~= seq!['+'] + tail);
        assert(s[0] == '-' ==> s =~= seq!['-'] + tail);
        assert((seq!['+'] + tail) == (seq!['+'] + tail));
    }
}

/// Law: a padded numeral is the numeral behind as many zeros as it falls short of the
/// size, and a negative one has its sign before them.
pub proof fn law_padded(n: nat, size: int)
    ensures
        exists|front: Seq<char>|
            padded(n, size) == #[trigger] (front + numeral(n)) && (forall|i: int|
                0 <= i < front.len() ==> #[trigger] front[i] == '0') && front.len() == if size
                > numeral(n).len() {
                size - numeral(n).len()
            } else {
                0
            },
        n > 0 ==> signed_padded(-(n as int), size) == seq!['-'] + padded(n, size - 1),
        signed_padded(n as int, size) == padded(n, size),
{
    let front = zeros(size - numeral(n).len());
    assert(padded(n, size) == front + numeral(n));
}

} // verus!
