//! Durations: `1h30m` as people write it, `PT1H30M` as iCalendar does.

use crate::decimal;
use crate::decimal::{read_number, write_number};
use crate::error;
use crate::error::{Error, Fault};
use crate::text;
use vstd::prelude::*;
use vstd::slice::slice_subrange;
use vstd::string::*;

verus! {

/// A unit of time.
#[derive(Clone, Copy, PartialEq, Eq, Structural)]
pub enum Unit {
    /// Days, written `d`.
    Day,
    /// Hours, written `h`.
    Hour,
    /// Minutes, written `m`.
    Minute,
    /// Seconds, written `s`.
    Second,
}

/// The unit that a letter, in either case, stands for.
pub open spec fn unit_of(c: char) -> Option<Unit> {
    let lower = text::ascii_lower(c);
    if lower == 'd' {
        Some(Unit::Day)
    } else if lower == 'h' {
        Some(Unit::Hour)
    } else if lower == 'm' {
        Some(Unit::Minute)
    } else if lower == 's' {
        Some(Unit::Second)
    } else {
        None
    }
}

/// How reading a duration comes to its end.
pub enum End {
    /// Everything was read.
    Done,
    /// The last number has no unit.
    Dangling,
    /// A unit has no number before it, or one of 2^64 or more.
    BadNumber,
    /// A number is followed by this character, which is no unit.
    BadUnit(char),
}

/// What reading a duration from left to right finds.
#[verifier::ext_equal]
pub struct Scan {
    /// The amounts that were read.
    pub amounts: Seq<(nat, Unit)>,
    /// How it ended.
    pub end: End,
}

/// The number of digits that `s` begins with.
pub open spec fn digit_run(s: Seq<char>) -> int
    decreases s.len(),
{
    if s.len() == 0 || !text::is_digit(s[0]) {
        0
    } else {
        1 + digit_run(s.drop_first())
    }
}

/// Reads `s` as numbers, each followed by its unit.
pub open spec fn scan(s: Seq<char>) -> Scan
    decreases s.len(),
{
    proof {
        lemma_digit_run(s);
    }
    let run = digit_run(s);
    let none = Seq::<(nat, Unit)>::empty();
    if s.len() == 0 {
        Scan { amounts: none, end: End::Done }
    } else if run == s.len() {
        Scan { amounts: none, end: End::Dangling }
    } else if run == 0 || decimal::value(s.take(run)) > u64::MAX {
        Scan { amounts: none, end: End::BadNumber }
    } else {
        match unit_of(s[run]) {
            None => Scan { amounts: none, end: End::BadUnit(s[run]) },
            Some(unit) => {
                let rest = scan(s.skip(run + 1));
                Scan {
                    amounts: seq![(decimal::value(s.take(run)), unit)] + rest.amounts,
                    end: rest.end,
                }
            },
        }
    }
}

/// The number of leading digits is at most the length; they are digits, and
/// what follows them is none.
pub proof fn lemma_digit_run(s: Seq<char>)
    ensures
        0 <= digit_run(s) <= s.len(),
        text::all_digits(s.take(digit_run(s))),
        digit_run(s) < s.len() ==> !text::is_digit(s[digit_run(s)]),
    decreases s.len(),
{
    if s.len() > 0 && text::is_digit(s[0]) {
        let rest = s.drop_first();
        lemma_digit_run(rest);
        let run = digit_run(s);
        assert forall|i: int| 0 <= i < run implies text::is_digit(#[trigger] s.take(run)[i]) by {
            if i > 0 {
                assert(s.take(run)[i] == rest.take(run - 1)[i - 1]);
            }
        }
    }
}

/// The sum of the amounts in `unit`.
pub open spec fn total(amounts: Seq<(nat, Unit)>, unit: Unit) -> nat
    decreases amounts.len(),
{
    if amounts.len() == 0 {
        0
    } else {
        total(amounts.drop_last(), unit) + (if amounts.last().1 == unit {
            amounts.last().0
        } else {
            0
        })
    }
}

/// Whether the amounts in each unit add up to less than 2^64.
pub open spec fn totals_fit(amounts: Seq<(nat, Unit)>) -> bool {
    forall|unit: Unit| #[trigger] total(amounts, unit) <= u64::MAX
}

/// Whether the amounts read from the input add up to less than 2^64 in each
/// unit.
pub open spec fn duration_fits(input: Seq<char>) -> bool {
    totals_fit(scan(text::trimmed(input)).amounts)
}

/// An amount with its letter, or nothing for zero.
pub open spec fn component(n: nat, letter: char) -> Seq<char> {
    if n > 0 {
        decimal::numeral(n).push(letter)
    } else {
        Seq::<char>::empty()
    }
}

/// An iCalendar DURATION value.
pub open spec fn ical_duration(days: nat, hours: nat, minutes: nat, seconds: nat) -> Seq<char> {
    let day_part = seq!['P'] + component(days, 'D');
    if hours > 0 || minutes > 0 || seconds > 0 {
        day_part + seq!['T'] + component(hours, 'H') + component(minutes, 'M') + component(
            seconds,
            'S',
        )
    } else {
        day_part
    }
}

/// The iCalendar DURATION value of a duration such as `1h30m`.
pub open spec fn duration_text(input: Seq<char>) -> Result<Seq<char>, Fault> {
    let found = scan(text::trimmed(input));
    match found.end {
        End::BadNumber => Err(Fault::Config("Invalid duration '"@ + input + "'"@)),
        End::BadUnit(c) => Err(
            Fault::Config(
                "Invalid duration unit '"@ + seq![c] + "' in '"@ + input + "' (use d/h/m/s)"@,
            ),
        ),
        End::Dangling => Err(
            Fault::Config(
                "Invalid duration '"@ + input + "': expected forms like 1h, 90m, 1h30m, 2d"@,
            ),
        ),
        End::Done => {
            let days = total(found.amounts, Unit::Day);
            let hours = total(found.amounts, Unit::Hour);
            let minutes = total(found.amounts, Unit::Minute);
            let seconds = total(found.amounts, Unit::Second);
            if found.amounts.len() == 0 {
                Err(
                    Fault::Config(
                        "Invalid duration '"@ + input
                            + "': expected forms like 1h, 90m, 1h30m, 2d"@,
                    ),
                )
            } else if days == 0 && hours == 0 && minutes == 0 && seconds == 0 {
                Err(Fault::Config("Duration '"@ + input + "' is zero"@))
            } else {
                Ok(ical_duration(days, hours, minutes, seconds))
            }
        },
    }
}

/// Amounts add up over concatenation.
proof fn lemma_total_concat(a: Seq<(nat, Unit)>, b: Seq<(nat, Unit)>, unit: Unit)
    ensures
        total(a + b, unit) == total(a, unit) + total(b, unit),
    decreases b.len(),
{
    if b.len() == 0 {
        assert(a + b =~= a);
    } else {
        assert((a + b).drop_last() =~= a + b.drop_last());
        lemma_total_concat(a, b.drop_last(), unit);
    }
}

/// The sums in the four units.
struct Totals {
    days: u64,
    hours: u64,
    minutes: u64,
    seconds: u64,
}

impl Totals {
    /// Whether these are the sums of `amounts`.
    spec fn sums(self, amounts: Seq<(nat, Unit)>) -> bool {
        &&& self.days == total(amounts, Unit::Day)
        &&& self.hours == total(amounts, Unit::Hour)
        &&& self.minutes == total(amounts, Unit::Minute)
        &&& self.seconds == total(amounts, Unit::Second)
    }

    /// Adds an amount, unless the sum would reach 2^64; says whether it did.
    fn include_amount(
        &mut self,
        n: u64,
        unit: Unit,
        Ghost(before): Ghost<Seq<(nat, Unit)>>,
    ) -> (r: bool)
        requires
            old(self).sums(before),
        ensures
            r == (total(before, unit) + n <= u64::MAX),
            r ==> final(self).sums(before.push((n as nat, unit))),
    {
        assert(before.push((n as nat, unit)).drop_last() =~= before);
        match unit {
            Unit::Day => {
                if self.days > u64::MAX - n {
                    return false;
                }
                self.days = self.days + n;
            },
            Unit::Hour => {
                if self.hours > u64::MAX - n {
                    return false;
                }
                self.hours = self.hours + n;
            },
            Unit::Minute => {
                if self.minutes > u64::MAX - n {
                    return false;
                }
                self.minutes = self.minutes + n;
            },
            Unit::Second => {
                if self.seconds > u64::MAX - n {
                    return false;
                }
                self.seconds = self.seconds + n;
            },
        }
        true
    }
}

/// The unit that a letter, in either case, stands for.
fn read_unit(c: char) -> (r: Option<Unit>)
    ensures
        r == unit_of(c),
{
    let lower = text::lower_char(c);
    if lower == 'd' {
        Some(Unit::Day)
    } else if lower == 'h' {
        Some(Unit::Hour)
    } else if lower == 'm' {
        Some(Unit::Minute)
    } else if lower == 's' {
        Some(Unit::Second)
    } else {
        None
    }
}

/// The number of digits that `s` begins with.
fn count_digits(s: &[char]) -> (r: usize)
    ensures
        r == digit_run(s@),
{
    let mut i: usize = 0;
    assert(s@.skip(0) =~= s@);
    while i < s.len() && text::digit(s[i])
        invariant
            i <= s@.len(),
            digit_run(s@) == i + digit_run(s@.skip(i as int)),
        decreases s@.len() - i,
    {
        assert(s@.skip(i as int).drop_first() =~= s@.skip(i + 1));
        i = i + 1;
    }
    i
}

/// Reads numbers, each followed by its unit, and adds them up: the sums,
/// whether there were any amounts, and how the reading ended. There is no
/// result where a sum reaches 2^64.
fn read_amounts(s: &[char]) -> (r: Option<(Totals, bool, End)>)
    ensures
        r is Some <==> totals_fit(scan(s@).amounts),
        r matches Some((sums, any, end)) ==> sums.sums(scan(s@).amounts) && any == (scan(
            s@,
        ).amounts.len() > 0) && end == scan(s@).end,
{
    let mut sums = Totals { days: 0, hours: 0, minutes: 0, seconds: 0 };
    let mut any = false;
    let mut at: usize = 0;
    let ghost mut done = Seq::<(nat, Unit)>::empty();
    let ghost all = scan(s@);
    assert(s@.skip(0) =~= s@);
    assert(done + all.amounts =~= all.amounts);
    while at < s.len()
        invariant
            at <= s@.len(),
            all == scan(s@),
            totals_fit(done),
            all.amounts == done + scan(s@.skip(at as int)).amounts,
            all.end == scan(s@.skip(at as int)).end,
            sums.sums(done),
            any == (done.len() > 0),
        decreases s@.len() - at,
    {
        let rest = slice_subrange(s, at, s.len());
        assert(rest@ =~= s@.skip(at as int));
        let run: usize = count_digits(rest);
        proof {
            lemma_digit_run(rest@);
            assert(done + Seq::<(nat, Unit)>::empty() =~= done);
        }
        if run == rest.len() {
            return Some((sums, any, End::Dangling));
        }
        let number = slice_subrange(rest, 0, run);
        assert(number@ =~= rest@.take(run as int));
        let n: u64 = match read_number(number) {
            Some(n) => n,
            None => {
                return Some((sums, any, End::BadNumber));
            },
        };
        let unit = match read_unit(rest[run]) {
            Some(unit) => unit,
            None => {
                return Some((sums, any, End::BadUnit(rest[run])));
            },
        };
        proof {
            let tail = scan(rest@.skip(run + 1)).amounts;
            let one = seq![(n as nat, unit)];
            assert(rest@.skip(run + 1) =~= s@.skip(at + run + 1));
            assert(done + (one + tail) =~= done.push((n as nat, unit)) + tail);
            lemma_total_concat(done.push((n as nat, unit)), tail, unit);
            assert(done.push((n as nat, unit)).drop_last() =~= done);
        }
        if !sums.include_amount(n, unit, Ghost(done)) {
            assert(total(all.amounts, unit) > u64::MAX);
            return None;
        }
        proof {
            let more = done.push((n as nat, unit));
            assert(more.drop_last() =~= done);
            assert forall|u: Unit| #[trigger] total(more, u) <= u64::MAX by {
                assert(total(done, u) <= u64::MAX);
            }
            done = more;
        }
        any = true;
        at = at + run + 1;
    }
    assert(done + Seq::<(nat, Unit)>::empty() =~= done);
    Some((sums, any, End::Done))
}

/// Appends an amount with its letter, or nothing for zero.
fn push_component(out: &mut Vec<char>, n: u64, letter: char)
    ensures
        final(out)@ == old(out)@ + component(n as nat, letter),
{
    let ghost before = out@;
    if n > 0 {
        text::extend(out, write_number(n).as_slice());
        out.push(letter);
    }
    assert(out@ =~= before + component(n as nat, letter));
}

/// Whether the amounts in each unit of the input add up to less than 2^64, so
/// that [`parse_duration`] can be asked for its value.
pub fn check_duration_fits(input: &str) -> (r: bool)
    ensures
        r == duration_fits(input@),
{
    let chars = text::to_chars(input);
    read_amounts(text::trim(chars.as_slice())).is_some()
}

/// Turns a duration such as `1h`, `90m`, `1h30m`, `2d` or `45s` into an
/// iCalendar DURATION value (`PT1H`, `PT90M`, `PT1H30M`, `P2D`, `PT45S`).
pub fn parse_duration(input: &str) -> (r: Result<String, Error>)
    requires
        duration_fits(input@),
    ensures
        error::outcome(r) == duration_text(input@),
{
    let chars = text::to_chars(input);
    let (sums, any, end) = read_amounts(text::trim(chars.as_slice())).unwrap();
    match end {
        End::BadNumber => {
            return Err(Error::Config(text::concat3("Invalid duration '", input, "'")));
        },
        End::BadUnit(c) => {
            let mut message = String::new();
            message.append("Invalid duration unit '");
            message.push(c);
            message.append("' in '");
            message.append(input);
            message.append("' (use d/h/m/s)");
            assert(message@ =~= "Invalid duration unit '"@ + seq![c] + "' in '"@ + input@
                + "' (use d/h/m/s)"@);
            return Err(Error::Config(message));
        },
        End::Done if any => {},
        _ => {
            return Err(
                Error::Config(
                    text::concat3(
                        "Invalid duration '",
                        input,
                        "': expected forms like 1h, 90m, 1h30m, 2d",
                    ),
                ),
            );
        },
    }
    if sums.days == 0 && sums.hours == 0 && sums.minutes == 0 && sums.seconds == 0 {
        return Err(Error::Config(text::concat3("Duration '", input, "' is zero")));
    }
    let mut out: Vec<char> = vec!['P'];
    assert(out@ =~= seq!['P']);
    push_component(&mut out, sums.days, 'D');
    if sums.hours > 0 || sums.minutes > 0 || sums.seconds > 0 {
        let ghost before = out@;
        out.push('T');
        assert(out@ =~= before + seq!['T']);
        push_component(&mut out, sums.hours, 'H');
        push_component(&mut out, sums.minutes, 'M');
        push_component(&mut out, sums.seconds, 'S');
    }
    Ok(text::from_chars(out.as_slice()))
}

/// Law: a DURATION value has a time part, marked by `T`, exactly if it has
/// hours, minutes or seconds.
pub proof fn law_time_part(days: nat, hours: nat, minutes: nat, seconds: nat)
    ensures
        ical_duration(days, hours, minutes, seconds).contains('T') <==> hours > 0 || minutes > 0
            || seconds > 0,
{
    let text = ical_duration(days, hours, minutes, seconds);
    let day_part = seq!['P'] + component(days, 'D');
    if hours > 0 || minutes > 0 || seconds > 0 {
        assert(text[day_part.len() as int] == 'T');
    } else {
        decimal::law_numeral_round_trip(days);
        assert forall|i: int| 0 <= i < text.len() implies text[i] != 'T' by {
            if 0 < i <= decimal::numeral(days).len() && days > 0 {
                assert(text[i] == decimal::numeral(days)[i - 1]);
                assert(text::is_digit(decimal::numeral(days)[i - 1]));
            }
        }
    }
}

/// Digits run on as long as they last.
proof fn lemma_run_of_digits(digits: Seq<char>, rest: Seq<char>)
    requires
        text::all_digits(digits),
        rest.len() > 0,
        !text::is_digit(rest[0]),
    ensures
        digit_run(digits + rest) == digits.len(),
    decreases digits.len(),
{
    if digits.len() == 0 {
        assert(digits + rest =~= rest);
    } else {
        assert((digits + rest).drop_first() =~= digits.drop_first() + rest);
        assert forall|i: int| 0 <= i < digits.drop_first().len() implies text::is_digit(
            #[trigger] digits.drop_first()[i],
        ) by {
            assert(digits.drop_first()[i] == digits[i + 1]);
        }
        lemma_run_of_digits(digits.drop_first(), rest);
    }
}

/// Law: one positive amount in one unit is written as that amount of that
/// unit.
pub proof fn law_single_amount(n: nat, letter: char)
    requires
        0 < n <= u64::MAX,
        unit_of(letter) is Some,
    ensures
        duration_fits(decimal::numeral(n).push(letter)),
        duration_text(decimal::numeral(n).push(letter)) == Ok::<Seq<char>, Fault>(
            match unit_of(letter)->Some_0 {
                Unit::Day => ical_duration(n, 0, 0, 0),
                Unit::Hour => ical_duration(0, n, 0, 0),
                Unit::Minute => ical_duration(0, 0, n, 0),
                Unit::Second => ical_duration(0, 0, 0, n),
            },
        ),
{
    let digits = decimal::numeral(n);
    let s = digits.push(letter);
    let unit = unit_of(letter)->Some_0;
    let none = Seq::<(nat, Unit)>::empty();
    decimal::law_numeral_round_trip(n);
    assert(text::is_digit(digits[0]));
    assert(!text::is_space(s[0]) && !text::is_space(s.last()));
    assert(text::trimmed(s) == s);
    assert(s =~= digits + seq![letter]);
    lemma_run_of_digits(digits, seq![letter]);
    assert(s.take(digits.len() as int) =~= digits);
    assert(s.skip(digits.len() as int + 1) =~= Seq::<char>::empty());
    reveal_with_fuel(scan, 2);
    let found = scan(s);
    assert(found.amounts =~= seq![(n, unit)]);
    assert(found.amounts.drop_last() =~= none);
    assert forall|u: Unit| #[trigger] total(found.amounts, u) == (if u == unit {
        n
    } else {
        0
    }) by {
        assert(total(none, u) == 0);
    }
}

/// Law: days, hours, minutes and seconds go by their first letters, in either case,
/// and no other letter is a unit.
pub proof fn law_units(c: char)
    ensures
        unit_of('d') == Some(Unit::Day) && unit_of('D') == Some(Unit::Day),
        unit_of('h') == Some(Unit::Hour) && unit_of('H') == Some(Unit::Hour),
        unit_of('m') == Some(Unit::Minute) && unit_of('M') == Some(Unit::Minute),
        unit_of('s') == Some(Unit::Second) && unit_of('S') == Some(Unit::Second),
        unit_of(c) is Some <==> "dDhHmMsS"@.contains(c),
{
    reveal_strlit("dDhHmMsS");
    let letters = "dDhHmMsS"@;
    assert(letters[0] == 'd' && letters[1] == 'D' && letters[2] == 'h' && letters[3] == 'H'
        && letters[4] == 'm' && letters[5] == 'M' && letters[6] == 's' && letters[7] == 'S');
}

/// Law: the sum of the amounts in a unit goes over all of them, each counted once.
pub proof fn law_total(a: Seq<(nat, Unit)>, b: Seq<(nat, Unit)>, n: nat, own: Unit, unit: Unit)
    ensures
        total(a + b, unit) == total(a, unit) + total(b, unit),
        total(seq![(n, own)], unit) == if own == unit {
            n
        } else {
            0
        },
        total(Seq::<(nat, Unit)>::empty(), unit) == 0,
{
    lemma_total_concat(a, b, unit);
    assert(seq![(n, own)].drop_last() =~= Seq::<(nat, Unit)>::empty());
    assert(total(Seq::<(nat, Unit)>::empty(), unit) == 0);
}

/// Law: a DURATION value is `P`, the days with a `D`, and where there is less than a
/// day `T` with the hours, minutes and seconds, each with its letter; what is zero is
/// left out.
pub proof fn law_duration_layout(days: nat, hours: nat, minutes: nat, seconds: nat)
    ensures
        ({
            let none = Seq::<char>::empty();
            let amount = |n: nat, letter: Seq<char>|
                if n > 0 {
                    decimal::numeral(n) + letter
                } else {
                    none
                };
            ical_duration(days, hours, minutes, seconds) == "P"@ + amount(days, "D"@) + (if hours
                + minutes + seconds > 0 {
                "T"@ + amount(hours, "H"@) + amount(minutes, "M"@) + amount(seconds, "S"@)
            } else {
                none
            })
        }),
{
    reveal_strlit("P");
    reveal_strlit("T");
    reveal_strlit("D");
    reveal_strlit("H");
    reveal_strlit("M");
    reveal_strlit("S");
    assert("P"@ =~= seq!['P']);
    assert("T"@ =~= seq!['T']);
    assert(component(days, 'D') =~= if days > 0 {
        decimal::numeral(days) + "D"@
    } else {
        Seq::<char>::empty()
    });
    assert(component(hours, 'H') =~= if hours > 0 {
        decimal::numeral(hours) + "H"@
    } else {
        Seq::<char>::empty()
    });
    assert(component(minutes, 'M') =~= if minutes > 0 {
        decimal::numeral(minutes) + "M"@
    } else {
        Seq::<char>::empty()
    });
    assert(component(seconds, 'S') =~= if seconds > 0 {
        decimal::numeral(seconds) + "S"@
    } else {
        Seq::<char>::empty()
    });
    let head = "P"@ + component(days, 'D');
    assert(head + Seq::<char>::empty() =~= head);
    assert(head + "T"@ + component(hours, 'H') + component(minutes, 'M') + component(seconds, 'S')
        =~= head + ("T"@ + component(hours, 'H') + component(minutes, 'M') + component(
        seconds,
        'S',
    )));
}

/// Amounts as people write them: each number followed by the letter of its unit.
pub open spec fn written(amounts: Seq<(nat, char)>) -> Seq<char>
    decreases amounts.len(),
{
    if amounts.len() == 0 {
        Seq::<char>::empty()
    } else {
        written(amounts.drop_last()) + decimal::numeral(amounts.last().0) + seq![amounts.last().1]
    }
}

proof fn lemma_written_first(amounts: Seq<(nat, char)>)
    requires
        amounts.len() > 0,
    ensures
        written(amounts) == decimal::numeral(amounts[0].0) + (seq![amounts[0].1] + written(
            amounts.drop_first(),
        )),
    decreases amounts.len(),
{
    if amounts.len() == 1 {
        assert(amounts.drop_last() =~= Seq::<(nat, char)>::empty());
        assert(amounts.drop_first() =~= Seq::<(nat, char)>::empty());
        assert(written(Seq::<(nat, char)>::empty()) =~= Seq::<char>::empty());
        assert(written(amounts) =~= decimal::numeral(amounts[0].0) + (seq![amounts[0].1] + written(
            amounts.drop_first(),
        )));
    } else {
        let front = amounts.drop_last();
        lemma_written_first(front);
        assert(front.drop_first() =~= amounts.drop_first().drop_last());
        assert(written(amounts) =~= decimal::numeral(amounts[0].0) + (seq![amounts[0].1] + written(
            amounts.drop_first(),
        )));
    }
}

proof fn lemma_scan_written(amounts: Seq<(nat, char)>)
    requires
        forall|i: int|
            0 <= i < amounts.len() ==> (#[trigger] amounts[i]).0 <= u64::MAX && unit_of(
                amounts[i].1,
            ) is Some,
    ensures
        scan(written(amounts)).end == End::Done,
        scan(written(amounts)).amounts == amounts.map_values(
            |amount: (nat, char)| (amount.0, unit_of(amount.1)->0),
        ),
    decreases amounts.len(),
{
    let units = |amount: (nat, char)| (amount.0, unit_of(amount.1)->0);
    let s = written(amounts);
    if amounts.len() == 0 {
        assert(amounts.map_values(units) =~= Seq::<(nat, Unit)>::empty());
        assert(scan(s).amounts =~= amounts.map_values(units));
    } else {
        let rest = amounts.drop_first();
        let (n, letter) = amounts[0];
        let digits = decimal::numeral(n);
        let tail = seq![letter] + written(rest);
        lemma_written_first(amounts);
        decimal::law_numeral_round_trip(n);
        assert(unit_of(amounts[0].1) is Some);
        assert(!text::is_digit(tail[0]));
        lemma_run_of_digits(digits, tail);
        assert forall|i: int| 0 <= i < rest.len() implies (#[trigger] rest[i]).0 <= u64::MAX
            && unit_of(rest[i].1) is Some by {
            assert(rest[i] == amounts[i + 1]);
        }
        lemma_scan_written(rest);
        let run = digits.len() as int;
        assert(s.take(run) =~= digits);
        assert(s[run] == letter);
        assert(s.skip(run + 1) =~= written(rest));
        assert(scan(s).amounts =~= amounts.map_values(units));
    }
}

/// Law: amounts written one behind the other, in any order and as often as may be, are
/// the duration of their sums in each unit, unless all are zero, with or without white
/// space round them.
pub proof fn law_amounts_add_up(
    before: Seq<char>,
    amounts: Seq<(nat, char)>,
    after: Seq<char>,
)
    requires
        amounts.len() > 0,
        forall|i: int|
            0 <= i < amounts.len() ==> (#[trigger] amounts[i]).0 <= u64::MAX && unit_of(
                amounts[i].1,
            ) is Some,
        forall|i: int| 0 <= i < before.len() ==> text::is_space(#[trigger] before[i]),
        forall|i: int| 0 <= i < after.len() ==> text::is_space(#[trigger] after[i]),
    ensures
        ({
            let read = amounts.map_values(|amount: (nat, char)| (amount.0, unit_of(amount.1)->0));
            let days = total(read, Unit::Day);
            let hours = total(read, Unit::Hour);
            let minutes = total(read, Unit::Minute);
            let seconds = total(read, Unit::Second);
            if days + hours + minutes + seconds > 0 {
                duration_text(before + written(amounts) + after) == Ok::<Seq<char>, Fault>(
                    ical_duration(days, hours, minutes, seconds),
                )
            } else {
                duration_text(before + written(amounts) + after) is Err
            }
        }),
{
    let s = written(amounts);
    lemma_scan_written(amounts);
    lemma_written_first(amounts);
    decimal::law_numeral_round_trip(amounts[0].0);
    assert(text::is_digit(decimal::numeral(amounts[0].0)[0]));
    assert(s[0] == decimal::numeral(amounts[0].0)[0]);
    assert(s.last() == amounts.last().1);
    assert(unit_of(amounts[amounts.len() - 1].1) is Some);
    assert(!text::is_space(s[0]) && !text::is_space(s.last()));
    text::lemma_trimmed_of(before, s, after);
}

/// What reading to the end finds in a text.
proof fn lemma_scan_done(s: Seq<char>)
    requires
        scan(s).end == End::Done,
    ensures
        s.len() > 0 ==> unit_of(s.last()) is Some,
        forall|i: int|
            0 <= i < s.len() ==> text::is_digit(#[trigger] s[i]) || (unit_of(s[i]) is Some && i > 0
                && text::is_digit(s[i - 1])),
        s.len() > 0 ==> scan(s).amounts.len() > 0,
    decreases s.len(),
{
    if s.len() > 0 {
        lemma_digit_run(s);
        let run = digit_run(s);
        let rest = s.skip(run + 1);
        lemma_scan_done(rest);
        if rest.len() > 0 {
            assert(s.last() == rest.last());
        }
        assert forall|i: int| 0 <= i < s.len() implies text::is_digit(#[trigger] s[i]) || (unit_of(
            s[i],
        ) is Some && i > 0 && text::is_digit(s[i - 1])) by {
            if i < run {
                assert(s[i] == s.take(run)[i]);
            } else if i == run {
                assert(s[i - 1] == s.take(run)[run - 1]);
                assert(text::is_digit(s.take(run)[run - 1]));
            } else {
                assert(s[i] == rest[i - run - 1]);
                assert(i > run + 1 ==> s[i - 1] == rest[i - run - 2]);
            }
        }
    }
}

/// Law: only numbers, each followed by the letter of its unit, are a duration: what can
/// be read as one is not empty, ends with such a letter, and holds nothing but digits
/// and such letters, each right behind a digit.
pub proof fn law_duration_only(input: Seq<char>)
    requires
        duration_text(input) is Ok,
    ensures
        ({
            let s = text::trimmed(input);
            &&& s.len() > 0 && unit_of(s.last()) is Some
            &&& forall|i: int|
                0 <= i < s.len() ==> text::is_digit(#[trigger] s[i]) || (unit_of(s[i]) is Some && i
                    > 0 && text::is_digit(s[i - 1]))
        }),
{
    lemma_scan_done(text::trimmed(input));
}

/// Reading goes on behind amounts from where they end.
proof fn lemma_scan_behind(amounts: Seq<(nat, char)>, rest: Seq<char>)
    requires
        forall|i: int|
            0 <= i < amounts.len() ==> (#[trigger] amounts[i]).0 <= u64::MAX && unit_of(
                amounts[i].1,
            ) is Some,
    ensures
        scan(written(amounts) + rest).end == scan(rest).end,
        scan(written(amounts) + rest).amounts == amounts.map_values(
            |amount: (nat, char)| (amount.0, unit_of(amount.1)->0),
        ) + scan(rest).amounts,
    decreases amounts.len(),
{
    let units = |amount: (nat, char)| (amount.0, unit_of(amount.1)->0);
    let s = written(amounts) + rest;
    if amounts.len() == 0 {
        assert(s =~= rest);
        assert(amounts.map_values(units) + scan(rest).amounts =~= scan(rest).amounts);
    } else {
        let tail = amounts.drop_first();
        let (n, letter) = amounts[0];
        let digits = decimal::numeral(n);
        lemma_written_first(amounts);
        decimal::law_numeral_round_trip(n);
        assert(unit_of(amounts[0].1) is Some);
        let behind = seq![letter] + (written(tail) + rest);
        assert(s =~= digits + behind);
        assert(!text::is_digit(behind[0]));
        lemma_run_of_digits(digits, behind);
        assert forall|i: int| 0 <= i < tail.len() implies (#[trigger] tail[i]).0 <= u64::MAX
            && unit_of(tail[i].1) is Some by {
            assert(tail[i] == amounts[i + 1]);
        }
        lemma_scan_behind(tail, rest);
        let run = digits.len() as int;
        assert(s.take(run) =~= digits);
        assert(s[run] == letter);
        assert(s.skip(run + 1) =~= written(tail) + rest);
        assert(scan(s).amounts =~= amounts.map_values(units) + scan(rest).amounts);
    }
}

/// Digits alone run to the end.
proof fn lemma_all_digits_run(digits: Seq<char>)
    requires
        text::all_digits(digits),
    ensures
        digit_run(digits) == digits.len(),
    decreases digits.len(),
{
    if digits.len() > 0 {
        let rest = digits.drop_first();
        assert(text::is_digit(digits[0]));
        assert forall|i: int| 0 <= i < rest.len() implies text::is_digit(#[trigger] rest[i]) by {
            assert(rest[i] == digits[i + 1]);
        }
        lemma_all_digits_run(rest);
    }
}

/// Law: a duration is refused for the first thing that is wrong with it, behind amounts
/// that are right: a number without a unit, nothing at all, a unit without a number, or
/// a character behind a number that is no unit. Amounts that are all zero are refused for
/// that.
pub proof fn law_duration_refused(
    input: Seq<char>,
    amounts: Seq<(nat, char)>,
    digits: Seq<char>,
    c: char,
    rest: Seq<char>,
)
    requires
        forall|i: int|
            0 <= i < amounts.len() ==> (#[trigger] amounts[i]).0 <= u64::MAX && unit_of(
                amounts[i].1,
            ) is Some,
        text::all_digits(digits),
        !text::is_digit(c),
    ensures
        text::trimmed(input).len() == 0 ==> duration_text(input) == Err::<Seq<char>, Fault>(
            Fault::Config(
                "Invalid duration '"@ + input + "': expected forms like 1h, 90m, 1h30m, 2d"@,
            ),
        ),
        digits.len() > 0 && text::trimmed(input) == written(amounts) + digits ==> duration_text(
            input,
        ) == Err::<Seq<char>, Fault>(
            Fault::Config(
                "Invalid duration '"@ + input + "': expected forms like 1h, 90m, 1h30m, 2d"@,
            ),
        ),
        text::trimmed(input) == written(amounts) + (seq![c] + rest) ==> duration_text(input)
            == Err::<Seq<char>, Fault>(Fault::Config("Invalid duration '"@ + input + "'"@)),
        digits.len() > 0 && decimal::value(digits) <= u64::MAX && unit_of(c) is None
            && text::trimmed(input) == written(amounts) + (digits + (seq![c] + rest))
            ==> duration_text(input) == Err::<Seq<char>, Fault>(
            Fault::Config(
                "Invalid duration unit '"@ + seq![c] + "' in '"@ + input + "' (use d/h/m/s)"@,
            ),
        ),
{
    lemma_scan_behind(amounts, digits);
    lemma_all_digits_run(digits);
    let odd = seq![c] + rest;
    assert(odd[0] == c);
    lemma_scan_behind(amounts, odd);
    let numbered = digits + odd;
    lemma_run_of_digits(digits, odd);
    lemma_scan_behind(amounts, numbered);
    assert(numbered.take(digits.len() as int) =~= digits);
    assert(numbered[digits.len() as int] == c);
}

/// Law: amounts can be added up if their sum in each unit is below 2^64.
pub proof fn law_duration_fits(amounts: Seq<(nat, char)>)
    requires
        amounts.len() > 0,
        forall|i: int|
            0 <= i < amounts.len() ==> (#[trigger] amounts[i]).0 <= u64::MAX && unit_of(
                amounts[i].1,
            ) is Some,
    ensures
        ({
            let read = amounts.map_values(|amount: (nat, char)| (amount.0, unit_of(amount.1)->0));
            duration_fits(written(amounts)) <==> total(read, Unit::Day) <= u64::MAX && total(
                read,
                Unit::Hour,
            ) <= u64::MAX && total(read, Unit::Minute) <= u64::MAX && total(read, Unit::Second)
                <= u64::MAX
        }),
{
    let s = written(amounts);
    lemma_scan_written(amounts);
    lemma_written_first(amounts);
    decimal::law_numeral_round_trip(amounts[0].0);
    assert(text::is_digit(decimal::numeral(amounts[0].0)[0]));
    assert(s[0] == decimal::numeral(amounts[0].0)[0]);
    assert(s.last() == amounts.last().1);
    assert(unit_of(amounts[amounts.len() - 1].1) is Some);
    let none = Seq::<char>::empty();
    text::lemma_trimmed_of(none, s, none);
    assert(none + s + none =~= s);
    let read = scan(s).amounts;
    if total(read, Unit::Day) <= u64::MAX && total(read, Unit::Hour) <= u64::MAX && total(
        read,
        Unit::Minute,
    ) <= u64::MAX && total(read, Unit::Second) <= u64::MAX {
        assert forall|unit: Unit| #[trigger] total(read, unit) <= u64::MAX by {
            match unit {
                Unit::Day => {},
                Unit::Hour => {},
                Unit::Minute => {},
                Unit::Second => {},
            }
        }
    }
}

/// Law: amounts that are all zero are refused as such.
pub proof fn law_zero_duration(amounts: Seq<(nat, char)>)
    requires
        amounts.len() > 0,
        forall|i: int|
            0 <= i < amounts.len() ==> (#[trigger] amounts[i]).0 == 0 && unit_of(
                amounts[i].1,
            ) is Some,
    ensures
        duration_text(written(amounts)) == Err::<Seq<char>, Fault>(
            Fault::Config("Duration '"@ + written(amounts) + "' is zero"@),
        ),
{
    let s = written(amounts);
    let read = amounts.map_values(|amount: (nat, char)| (amount.0, unit_of(amount.1)->0));
    lemma_scan_written(amounts);
    lemma_written_first(amounts);
    decimal::law_numeral_round_trip(amounts[0].0);
    assert(text::is_digit(decimal::numeral(amounts[0].0)[0]));
    assert(s[0] == decimal::numeral(amounts[0].0)[0]);
    assert(s.last() == amounts.last().1);
    assert(unit_of(amounts[amounts.len() - 1].1) is Some);
    let none = Seq::<char>::empty();
    text::lemma_trimmed_of(none, s, none);
    assert(none + s + none =~= s);
    assert forall|i: int| 0 <= i < read.len() implies (#[trigger] read[i]).0 == 0 by {
        assert(read[i].0 == amounts[i].0);
    }
    lemma_zero_total(read, Unit::Day);
    lemma_zero_total(read, Unit::Hour);
    lemma_zero_total(read, Unit::Minute);
    lemma_zero_total(read, Unit::Second);
}

proof fn lemma_zero_total(amounts: Seq<(nat, Unit)>, unit: Unit)
    requires
        forall|i: int| 0 <= i < amounts.len() ==> (#[trigger] amounts[i]).0 == 0,
    ensures
        total(amounts, unit) == 0,
    decreases amounts.len(),
{
    if amounts.len() > 0 {
        let front = amounts.drop_last();
        assert(amounts[amounts.len() - 1].0 == 0);
        assert forall|i: int| 0 <= i < front.len() implies (#[trigger] front[i]).0 == 0 by {
            assert(front[i] == amounts[i]);
        }
        lemma_zero_total(front, unit);
    }
}

} // verus!
