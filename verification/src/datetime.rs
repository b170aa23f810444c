//! Dates and times as iCalendar writes them.

use crate::civil;
use crate::civil::{civil_from_days, days_from_civil};
use crate::decimal;
use crate::decimal::{read_signed, read_unsigned, write_padded, write_signed_padded};
use crate::error;
use crate::error::{Error, Fault};
use crate::text;
use vstd::prelude::*;
use vstd::slice::slice_subrange;
use vstd::string::*;
use vstd::utf8::*;

verus! {

/// The iCalendar form `YYYYMMDD` of a date given with or without dashes.
pub open spec fn date_text(input: Seq<char>) -> Result<Seq<char>, Fault> {
    let compact = text::without(input, '-');
    if compact.len() == 8 && text::all_digits(compact) {
        Ok(compact)
    } else {
        Err(Fault::Config("Invalid date '"@ + input + "': expected YYYY-MM-DD"@))
    }
}

/// Normalizes a date (`YYYY-MM-DD` or `YYYYMMDD`) to iCalendar's `YYYYMMDD`.
pub fn parse_ical_date(input: &str) -> (r: Result<String, Error>)
    ensures
        error::outcome(r) == date_text(input@),
{
    let chars = text::to_chars(input);
    let compact = text::remove_char(chars.as_slice(), '-');
    if compact.len() == 8 && text::digits_only(compact.as_slice()) {
        Ok(text::from_chars(compact.as_slice()))
    } else {
        Err(Error::Config(text::concat3("Invalid date '", input, "': expected YYYY-MM-DD")))
    }
}

/// Whether `c` separates the date from the time.
pub open spec fn is_time_mark(c: char) -> bool {
    c == 'T' || c == 't'
}

/// Where the date ends: the position of the first time mark, or the length of
/// `s` where there is none.
pub open spec fn time_mark(s: Seq<char>) -> int
    decreases s.len(),
{
    if s.len() == 0 || is_time_mark(s[0]) {
        0
    } else {
        1 + time_mark(s.drop_first())
    }
}

/// Where the date ends.
pub fn find_time_mark(s: &[char]) -> (r: usize)
    ensures
        r == time_mark(s@),
        r <= s@.len(),
        r < s@.len() ==> is_time_mark(s@[r as int]),
        forall|j: int| 0 <= j < r ==> !is_time_mark(#[trigger] s@[j]),
{
    let mut i: usize = 0;
    assert(s@.skip(0) =~= s@);
    while i < s.len() && s[i] != 'T' && s[i] != 't'
        invariant
            i <= s@.len(),
            time_mark(s@) == i + time_mark(s@.skip(i as int)),
            forall|j: int| 0 <= j < i ==> !is_time_mark(#[trigger] s@[j]),
        decreases s@.len() - i,
    {
        assert(s@.skip(i as int).drop_first() =~= s@.skip(i + 1));
        i = i + 1;
    }
    i
}

/// Whether the time is marked as UTC, by a trailing `Z` in either case.
pub open spec fn is_utc(input: Seq<char>) -> bool {
    input.len() > 0 && (input.last() == 'Z' || input.last() == 'z')
}

/// The input without its UTC mark.
pub open spec fn local_part(input: Seq<char>) -> Seq<char> {
    if is_utc(input) {
        input.drop_last()
    } else {
        input
    }
}

/// The time of day `HHMMSS` of a time given with or without colons and with or
/// without seconds; `input` is the whole input, for the message.
pub open spec fn time_text(time_part: Seq<char>, input: Seq<char>) -> Result<Seq<char>, Fault> {
    let compact = text::without(time_part, ':');
    if text::octets(compact) != 4 && text::octets(compact) != 6 {
        Err(Fault::Config("Invalid time in '"@ + input + "': expected HH:MM or HH:MM:SS"@))
    } else if !text::all_digits(compact) {
        Err(Fault::Config("Invalid time in '"@ + input + "'"@))
    } else if text::octets(compact) == 4 {
        Ok(compact + seq!['0', '0'])
    } else {
        Ok(compact)
    }
}

/// The iCalendar form `YYYYMMDDTHHMMSS[Z]` of a date and time.
pub open spec fn datetime_text(input: Seq<char>) -> Result<Seq<char>, Fault> {
    let body = local_part(input);
    let mark = time_mark(body);
    if mark == body.len() {
        Err(
            Fault::Config(
                "Invalid datetime '"@ + input
                    + "': expected YYYY-MM-DDTHH:MM[:SS] (or a plain date with --all-day)"@,
            ),
        )
    } else {
        match date_text(body.take(mark)) {
            Err(fault) => Err(fault),
            Ok(date) => match time_text(body.skip(mark + 1), input) {
                Err(fault) => Err(fault),
                Ok(time) => Ok(
                    date + seq!['T'] + time + (if is_utc(input) {
                        seq!['Z']
                    } else {
                        Seq::<char>::empty()
                    }),
                ),
            },
        }
    }
}

/// Reads the time of day; `input` is the whole input, for the message.
fn parse_time(time_part: &[char], input: &str) -> (r: Result<String, Error>)
    ensures
        error::outcome(r) == time_text(time_part@, input@),
{
    let compact = text::remove_char(time_part, ':');
    let mut time = text::from_chars(compact.as_slice());
    let size = text::octet_len(time.as_str());
    if size != 4 && size != 6 {
        return Err(
            Error::Config(
                text::concat3("Invalid time in '", input, "': expected HH:MM or HH:MM:SS"),
            ),
        );
    }
    if !text::digits_only(compact.as_slice()) {
        return Err(Error::Config(text::concat3("Invalid time in '", input, "'")));
    }
    if size == 4 {
        time.push('0');
        time.push('0');
        assert(time@ =~= compact@ + seq!['0', '0']);
    }
    Ok(time)
}

/// Normalizes a date and time (`YYYY-MM-DDTHH:MM[:SS][Z]`, separators optional)
/// to iCalendar's `YYYYMMDDTHHMMSS[Z]`.
pub fn parse_ical_datetime(input: &str) -> (r: Result<String, Error>)
    ensures
        error::outcome(r) == datetime_text(input@),
{
    let chars = text::to_chars(input);
    let n: usize = chars.len();
    let utc = n > 0 && (chars[n - 1] == 'Z' || chars[n - 1] == 'z');
    let body = slice_subrange(
        chars.as_slice(),
        0,
        if utc {
            n - 1
        } else {
            n
        },
    );
    assert(body@ =~= local_part(input@));
    let mark: usize = find_time_mark(body);
    if mark == body.len() {
        return Err(
            Error::Config(
                text::concat3(
                    "Invalid datetime '",
                    input,
                    "': expected YYYY-MM-DDTHH:MM[:SS] (or a plain date with --all-day)",
                ),
            ),
        );
    }
    let date_part = text::from_chars(slice_subrange(body, 0, mark));
    assert(date_part@ =~= body@.take(mark as int));
    let date = match parse_ical_date(date_part.as_str()) {
        Ok(date) => date,
        Err(e) => {
            return Err(e);
        },
    };
    let time_part = slice_subrange(body, mark + 1, body.len());
    assert(time_part@ =~= body@.skip(mark + 1));
    let time = match parse_time(time_part, input) {
        Ok(time) => time,
        Err(e) => {
            return Err(e);
        },
    };
    let mut out = date;
    let ghost d = out@;
    out.push('T');
    out.append(time.as_str());
    if utc {
        out.push('Z');
    }
    assert(out@ =~= d + seq!['T'] + time@ + (if is_utc(input@) {
        seq!['Z']
    } else {
        Seq::<char>::empty()
    }));
    Ok(out)
}

/// Nothing is taken out of a text that does not hold the character.
proof fn lemma_without_absent(s: Seq<char>, c: char)
    requires
        !s.contains(c),
    ensures
        text::without(s, c) == s,
    decreases s.len(),
{
    if s.len() > 0 {
        assert(s.last() == s[s.len() - 1]);
        assert forall|i: int| 0 <= i < s.drop_last().len() implies s.drop_last()[i] != c by {
            assert(s.drop_last()[i] == s[i]);
        }
        lemma_without_absent(s.drop_last(), c);
        assert(s =~= s.drop_last().push(s.last()));
    }
}

/// A text of digits takes one byte for each.
proof fn lemma_digit_octets(s: Seq<char>)
    requires
        text::all_digits(s),
    ensures
        text::octets(s) == s.len(),
    decreases s.len(),
{
    if s.len() > 0 {
        assert(s =~= s.drop_last().push(s.last()));
        assert forall|i: int| 0 <= i < s.drop_last().len() implies text::is_digit(
            #[trigger] s.drop_last()[i],
        ) by {
            assert(s.drop_last()[i] == s[i]);
        }
        lemma_digit_octets(s.drop_last());
        text::lemma_octets_push(s.drop_last(), s.last());
        assert(text::is_digit(s[s.len() - 1]));
    }
}

/// The first time mark is where it is found.
proof fn lemma_time_mark(s: Seq<char>, k: int)
    requires
        0 <= k <= s.len(),
        k < s.len() ==> is_time_mark(s[k]),
        forall|j: int| 0 <= j < k ==> !is_time_mark(#[trigger] s[j]),
    ensures
        time_mark(s) == k,
    decreases k,
{
    if k > 0 {
        assert(!is_time_mark(s[0]));
        let rest = s.drop_first();
        assert forall|j: int| 0 <= j < k - 1 implies !is_time_mark(#[trigger] rest[j]) by {
            assert(rest[j] == s[j + 1]);
        }
        lemma_time_mark(rest, k - 1);
    }
}

/// Law: a normalized date is eight digits, and normalizing it again changes
/// nothing.
pub proof fn law_date_normal_form(input: Seq<char>)
    ensures
        date_text(input) matches Ok(date) ==> date.len() == 8 && text::all_digits(date)
            && date_text(date) == Ok::<Seq<char>, Fault>(date),
{
    if let Ok(date) = date_text(input) {
        lemma_without_absent(date, '-');
    }
}

/// Law: a normalized date and time has eight digits, a `T`, six digits and, for
/// UTC, a `Z`; normalizing it again changes nothing.
pub proof fn law_datetime_normal_form(input: Seq<char>)
    ensures
        datetime_text(input) matches Ok(stamp) ==> {
            &&& stamp.len() == (if is_utc(input) {
                16int
            } else {
                15
            })
            &&& text::all_digits(stamp.take(8))
            &&& stamp[8] == 'T'
            &&& text::all_digits(stamp.subrange(9, 15))
            &&& is_utc(input) ==> stamp[15] == 'Z'
            &&& datetime_text(stamp) == Ok::<Seq<char>, Fault>(stamp)
        },
{
    if let Ok(stamp) = datetime_text(input) {
        let body = local_part(input);
        let mark = time_mark(body);
        let date = date_text(body.take(mark))->Ok_0;
        let time = time_text(body.skip(mark + 1), input)->Ok_0;
        let compact = text::without(body.skip(mark + 1), ':');
        lemma_digit_octets(compact);
        assert(time.len() == 6 && text::all_digits(time));
        law_date_normal_form(body.take(mark));
        assert(stamp.take(8) =~= date);
        assert(stamp.subrange(9, 15) =~= time);
        let again = local_part(stamp);
        assert(text::is_digit(time[5]));
        assert(is_utc(stamp) == is_utc(input)) by {
            if !is_utc(input) {
                assert(stamp.last() == time[5]);
            }
        }
        assert(again =~= date + seq!['T'] + time);
        assert forall|j: int| 0 <= j < 8 implies !is_time_mark(#[trigger] again[j]) by {
            assert(again[j] == date[j]);
        }
        lemma_time_mark(again, 8);
        assert(again.take(8) =~= date);
        assert(again.skip(9) =~= time);
        lemma_without_absent(time, ':');
        lemma_digit_octets(time);
    }
}

/// A day and the seconds since its start, both in UTC, as `YYYYMMDDTHHMMSSZ`.
pub open spec fn utc_stamp(unix_secs: nat) -> Seq<char> {
    let date = civil::date_of((unix_secs / 86_400) as int);
    let rem = unix_secs % 86_400;
    decimal::signed_padded(date.0, 4) + decimal::padded(date.1 as nat, 2) + decimal::padded(
        date.2 as nat,
        2,
    ) + seq!['T'] + decimal::padded(rem / 3600, 2) + decimal::padded(rem % 3600 / 60, 2)
        + decimal::padded(rem % 60, 2) + seq!['Z']
}

/// Writes seconds since 1970 as an iCalendar UTC timestamp `YYYYMMDDTHHMMSSZ`.
pub fn format_utc_timestamp(unix_secs: u64) -> (r: String)
    ensures
        r@ == utc_stamp(unix_secs as nat),
{
    let days: i64 = (unix_secs / 86_400) as i64;
    let rem: u64 = unix_secs % 86_400;
    let (y, m, d) = civil_from_days(days);
    let mut out = write_signed_padded(y, 4);
    text::extend(&mut out, write_padded(m as u64, 2).as_slice());
    text::extend(&mut out, write_padded(d as u64, 2).as_slice());
    let ghost before = out@;
    out.push('T');
    assert(out@ =~= before + seq!['T']);
    text::extend(&mut out, write_padded(rem / 3600, 2).as_slice());
    text::extend(&mut out, write_padded(rem % 3600 / 60, 2).as_slice());
    text::extend(&mut out, write_padded(rem % 60, 2).as_slice());
    let ghost before = out@;
    out.push('Z');
    assert(out@ =~= before + seq!['Z']);
    text::from_chars(out.as_slice())
}

/// `std::time::SystemTime`: a reading of the system clock.
#[verifier::external_type_specification]
#[verifier::external_body]
pub struct ExSystemTime(std::time::SystemTime);

/// `std::time::SystemTimeError`: a reading that is earlier than it should be.
#[verifier::external_type_specification]
#[verifier::external_body]
pub struct ExSystemTimeError(std::time::SystemTimeError);

/// `std::time::SystemTime::now` reads the system clock. Nothing is known of what
/// it tells.
pub assume_specification[ std::time::SystemTime::now ]() -> std::time::SystemTime;

/// `std::time::SystemTime::duration_since` gives the time from one reading to a
/// later one, or an error where it is not later. Nothing is known of either.
pub assume_specification[ std::time::SystemTime::duration_since ](
    time: &std::time::SystemTime,
    earlier: std::time::SystemTime,
) -> Result<core::time::Duration, std::time::SystemTimeError>;

/// `std::time::Duration::as_secs` gives the whole seconds of a duration. Nothing
/// is known of how many they are.
pub assume_specification[ core::time::Duration::as_secs ](time: &core::time::Duration) -> u64;

/// `std::time::UNIX_EPOCH`: the start of 1970 in UTC.
#[verifier::external_body]
fn epoch() -> (r: std::time::SystemTime) {
    std::time::UNIX_EPOCH
}

/// Whether a time that was measured counts for that many seconds: for its whole
/// seconds, or for 0 where it could not be measured because the clock is set to
/// an earlier time.
pub closed spec fn counts_for(
    elapsed: Result<core::time::Duration, std::time::SystemTimeError>,
    unix_secs: u64,
) -> bool {
    match elapsed {
        Ok(time) => call_ensures(core::time::Duration::as_secs, (&time,), unix_secs),
        Err(_) => unix_secs == 0,
    }
}

/// Whether that is what was measured from the start of 1970 to some reading of
/// the system clock.
pub closed spec fn is_measured(elapsed: Result<core::time::Duration, std::time::SystemTimeError>) -> bool {
    exists|now: std::time::SystemTime, start: std::time::SystemTime|
        call_ensures(std::time::SystemTime::now, (), now) && call_ensures(epoch, (), start)
            && #[trigger] call_ensures(
            std::time::SystemTime::duration_since,
            (&now, start),
            elapsed,
        )
}

/// Whether that many seconds are what some reading of the system clock counts
/// for.
pub open spec fn is_clock_reading(unix_secs: u64) -> bool {
    exists|elapsed: Result<core::time::Duration, std::time::SystemTimeError>|
        #[trigger] is_measured(elapsed) && counts_for(elapsed, unix_secs)
}

/// Seconds since 1970 by the system clock, or 0 where the clock is set to an
/// earlier time.
fn unix_now() -> (r: u64)
    ensures
        is_clock_reading(r),
{
    let elapsed = std::time::SystemTime::now().duration_since(epoch());
    assert(is_measured(elapsed));
    match elapsed {
        Ok(time) => time.as_secs(),
        Err(_) => 0,
    }
}

/// The current time as an iCalendar DTSTAMP value: the timestamp of whatever
/// the clock tells.
pub fn dtstamp_now() -> (r: String)
    ensures
        exists|unix_secs: u64|
            is_clock_reading(unix_secs) && r@ == #[trigger] utc_stamp(unix_secs as nat),
{
    format_utc_timestamp(unix_now())
}

/// The bytes of `s` in UTF-8, each as the character of that number, so that
/// digits stand for themselves.
pub open spec fn byte_chars(s: Seq<char>) -> Seq<char> {
    encode_utf8(s).map_values(|b: u8| b as char)
}

/// A date as `YYYYMMDD`.
pub open spec fn compact_date(date: (int, int, int)) -> Seq<char> {
    decimal::signed_padded(date.0, 4) + decimal::padded(date.1 as nat, 2) + decimal::padded(
        date.2 as nat,
        2,
    )
}

/// The day after a `YYYYMMDD` date. The year may carry a sign, a day past the
/// end of its month counts on into the next.
pub open spec fn next_day_text(s: Seq<char>) -> Result<Seq<char>, Fault> {
    let b = byte_chars(s);
    let invalid = Err(Fault::Config("Invalid date '"@ + s + "'"@));
    match decimal::signed_value(b.subrange(0, 4)) {
        Some(y) => match decimal::unsigned_value(b.subrange(4, 6)) {
            Some(m) => match decimal::unsigned_value(b.subrange(6, 8)) {
                Some(d) => if 1 <= m <= 12 && 1 <= d <= 31 {
                    Ok(compact_date(civil::date_of(civil::day_number(y, m as int, d as int) + 1)))
                } else {
                    invalid
                },
                None => invalid,
            },
            None => invalid,
        },
        None => invalid,
    }
}

/// Whether `s` can be cut after that byte.
pub open spec fn can_cut(s: Seq<char>, at: int) -> bool {
    encode_utf8(s).len() >= at && is_char_boundary(encode_utf8(s), at)
}

/// Whether the fields of a date can be cut out of `s`, as far as they are needed:
/// the month only behind a year, the day only behind a month.
pub open spec fn has_date_fields(s: Seq<char>) -> bool {
    let b = byte_chars(s);
    &&& can_cut(s, 4)
    &&& decimal::signed_value(b.subrange(0, 4)) is Some ==> {
        &&& can_cut(s, 6)
        &&& decimal::unsigned_value(b.subrange(4, 6)) is Some ==> can_cut(s, 8)
    }
}

/// The day after an iCalendar `YYYYMMDD` date, for the exclusive end of an
/// all-day event.
pub fn next_day(yyyymmdd: &str) -> (r: Result<String, Error>)
    requires
        has_date_fields(yyyymmdd@),
    ensures
        error::outcome(r) == next_day_text(yyyymmdd@),
{
    let bytes = yyyymmdd.as_bytes();
    let mut chars: Vec<char> = Vec::new();
    let mut i: usize = 0;
    while i < bytes.len()
        invariant
            i <= bytes@.len(),
            bytes@ == encode_utf8(yyyymmdd@),
            chars@ == byte_chars(yyyymmdd@).take(i as int),
        decreases bytes@.len() - i,
    {
        chars.push(bytes[i] as char);
        i = i + 1;
        assert(chars@ =~= byte_chars(yyyymmdd@).take(i as int));
    }
    assert(chars@ =~= byte_chars(yyyymmdd@));
    let s = chars.as_slice();
    match read_date(s) {
        Some((y, m, d)) => {
            if 1 <= m && m <= 12 && 1 <= d && d <= 31 {
                let days: i64 = days_from_civil(y, m, d);
                let (ny, nm, nd) = civil_from_days(days + 1);
                let mut out = write_signed_padded(ny, 4);
                text::extend(&mut out, write_padded(nm as u64, 2).as_slice());
                text::extend(&mut out, write_padded(nd as u64, 2).as_slice());
                return Ok(text::from_chars(out.as_slice()));
            }
        },
        None => {},
    }
    Err(Error::Config(text::concat3("Invalid date '", yyyymmdd, "'")))
}

/// Reads the fields of a `YYYYMMDD` date one after the other, up to the first
/// that is no number.
fn read_date(s: &[char]) -> (r: Option<(i64, u32, u32)>)
    requires
        s@.len() >= 4,
        decimal::signed_value(s@.subrange(0, 4)) is Some ==> s@.len() >= 6 && (
        decimal::unsigned_value(s@.subrange(4, 6)) is Some ==> s@.len() >= 8),
    ensures
        match r {
            Some((y, m, d)) => {
                &&& decimal::signed_value(s@.subrange(0, 4)) == Some(y as int)
                &&& decimal::unsigned_value(s@.subrange(4, 6)) == Some(m as nat)
                &&& decimal::unsigned_value(s@.subrange(6, 8)) == Some(d as nat)
                &&& -9999 <= y <= 9999
            },
            None => {
                ||| decimal::signed_value(s@.subrange(0, 4)) is None
                ||| decimal::unsigned_value(s@.subrange(4, 6)) is None
                ||| decimal::unsigned_value(s@.subrange(6, 8)) is None
            },
        },
{
    proof {
        decimal::lemma_short_numeral(s@.subrange(0, 4));
    }
    match read_signed(slice_subrange(s, 0, 4)) {
        Some(y) => {
            proof {
                decimal::lemma_short_numeral(s@.subrange(4, 6));
            }
            match read_unsigned(slice_subrange(s, 4, 6)) {
                Some(m) => {
                    proof {
                        decimal::lemma_short_numeral(s@.subrange(6, 8));
                    }
                    match read_unsigned(slice_subrange(s, 6, 8)) {
                        Some(d) => Some((y, m, d)),
                        None => None,
                    }
                },
                None => None,
            }
        },
        None => None,
    }
}

/// Eight digits can be cut anywhere, and their bytes are the digits.
pub proof fn lemma_digit_fields(s: Seq<char>)
    requires
        s.len() == 8,
        text::all_digits(s),
    ensures
        has_date_fields(s),
        byte_chars(s) == s,
{
    assert(is_ascii_chars(s)) by {
        assert forall|i: int| 0 <= i < s.len() implies (#[trigger] s[i]) as u32 <= 0x7f by {
            assert(text::is_digit(s[i]));
        }
    }
    is_ascii_chars_encode_utf8(s);
    let b = encode_utf8(s);
    encode_utf8_valid_utf8(s);
    assert forall|i: int| 0 <= i < 8 implies #[trigger] byte_chars(s)[i] == s[i] by {
        assert(s[i] as u8 == b[i]);
        assert(text::is_digit(s[i]));
    }
    assert(byte_chars(s) =~= s);
    assert(text::is_digit(s[4]) && text::is_digit(s[6]));
    assert(b[4] <= 0x7f && b[6] <= 0x7f);
    is_char_boundary_iff_is_leading_byte(b, 4);
    is_char_boundary_iff_is_leading_byte(b, 6);
    is_char_boundary_start_end_of_seq(b);
}

/// Law: the day after a date of a four-character year, written as `YYYYMMDD`,
/// is the calendar's following date.
pub proof fn law_next_day(y: int, m: int, d: int)
    requires
        civil::is_date(y, m, d),
        -999 <= y <= 9999,
    ensures
        next_day_text(compact_date((y, m, d))) == Ok::<Seq<char>, Fault>(
            compact_date(civil::following_date(y, m, d)),
        ),
{
    let s = compact_date((y, m, d));
    let year = decimal::signed_padded(y, 4);
    let month = decimal::padded(m as nat, 2);
    let day = decimal::padded(d as nat, 2);
    if y < 0 {
        decimal::law_padded_round_trip((-y) as nat, 3);
    } else {
        decimal::law_padded_round_trip(y as nat, 4);
    }
    decimal::law_padded_round_trip(m as nat, 2);
    decimal::law_padded_round_trip(d as nat, 2);
    assert(is_ascii_chars(s)) by {
        assert forall|i: int| 0 <= i < s.len() implies '\0' <= #[trigger] s[i] <= '\u{7f}' by {
            if i < 4 {
                assert(s[i] == year[i]);
                if y < 0 && i > 0 {
                    assert(year[i] == decimal::padded((-y) as nat, 3)[i - 1]);
                }
            } else if i < 6 {
                assert(s[i] == month[i - 4]);
            } else {
                assert(s[i] == day[i - 6]);
            }
        }
    }
    is_ascii_chars_encode_utf8(s);
    let b = byte_chars(s);
    assert forall|i: int| 0 <= i < s.len() implies #[trigger] b[i] == s[i] by {
        assert(s[i] as u8 == encode_utf8(s)[i]);
    }
    assert(b =~= s);
    assert(b.subrange(0, 4) =~= year);
    assert(b.subrange(4, 6) =~= month);
    assert(b.subrange(6, 8) =~= day);
    assert(text::is_digit(month[0]) && text::is_digit(day[0]));
    if y < 0 {
        assert(year.drop_first() =~= decimal::padded((-y) as nat, 3));
    } else {
        assert(text::is_digit(year[0]));
    }
    civil::law_date_round_trip(y, m, d);
    civil::law_following_day(civil::day_number(y, m, d));
}

/// Law: a timestamp of a year up to 9999 is itself a normalized UTC date and
/// time.
#[verifier::rlimit(30)]
#[verifier::spinoff_prover]
pub proof fn law_stamp_normal_form(unix_secs: nat)
    requires
        civil::date_of((unix_secs / 86_400) as int).0 <= 9999,
    ensures
        datetime_text(utc_stamp(unix_secs)) == Ok::<Seq<char>, Fault>(utc_stamp(unix_secs)),
{
    let stamp = utc_stamp(unix_secs);
    let z = (unix_secs / 86_400) as int;
    let date = civil::date_of(z);
    let rem = unix_secs % 86_400;
    civil::law_days_round_trip(z);
    assert(0 <= date.0) by {
        civil::lemma_year_not_before(date.0, date.1, date.2);
    }
    decimal::law_padded_round_trip(date.0 as nat, 4);
    decimal::law_padded_round_trip(date.1 as nat, 2);
    decimal::law_padded_round_trip(date.2 as nat, 2);
    decimal::law_padded_round_trip(rem / 3600, 2);
    decimal::law_padded_round_trip(rem % 3600 / 60, 2);
    decimal::law_padded_round_trip(rem % 60, 2);
    let day = compact_date(date);
    let time = decimal::padded(rem / 3600, 2) + decimal::padded(rem % 3600 / 60, 2)
        + decimal::padded(rem % 60, 2);
    assert(stamp =~= day + seq!['T'] + time + seq!['Z']);
    assert(text::all_digits(day));
    assert(text::all_digits(time));
    let body = local_part(stamp);
    assert(body =~= day + seq!['T'] + time);
    assert forall|j: int| 0 <= j < 8 implies !is_time_mark(#[trigger] body[j]) by {
        assert(body[j] == day[j]);
    }
    lemma_time_mark(body, 8);
    assert(body.take(8) =~= day);
    assert(body.skip(9) =~= time);
    lemma_without_absent(day, '-');
    lemma_without_absent(time, ':');
    lemma_digit_octets(time);
    assert(day + seq!['T'] + time + seq!['Z'] =~= stamp);
}

/// Law: a date is valid exactly if it is eight digits without its dashes, and those
/// digits are what it is normalized to.
pub proof fn law_date_digits(input: Seq<char>)
    ensures
        date_text(input) is Ok <==> input.filter(|c: char| c != '-').len() == 8 && text::all_digits(
            input.filter(|c: char| c != '-'),
        ),
        date_text(input) matches Ok(date) ==> date == input.filter(|c: char| c != '-'),
{
    text::law_without(input, '-');
}

/// Law: year, month and day with dashes between them, or with none, are the date of
/// their digits.
pub proof fn law_date_forms(y: Seq<char>, m: Seq<char>, d: Seq<char>)
    requires
        y.len() == 4 && text::all_digits(y),
        m.len() == 2 && text::all_digits(m),
        d.len() == 2 && text::all_digits(d),
    ensures
        date_text(y + seq!['-'] + m + seq!['-'] + d) == Ok::<Seq<char>, Fault>(y + m + d),
        date_text(y + m + d) == Ok::<Seq<char>, Fault>(y + m + d),
{
    let keep = |c: char| c != '-';
    let dash = seq!['-'];
    lemma_digits_filtered(y, '-');
    lemma_digits_filtered(m, '-');
    lemma_digits_filtered(d, '-');
    assert(dash.filter(keep) =~= Seq::<char>::empty()) by {
        reveal(Seq::filter);
        assert(dash.drop_last() =~= Seq::<char>::empty());
        assert(dash.drop_last().filter(keep) =~= Seq::<char>::empty());
        assert(!keep(dash.last()));
    }
    Seq::filter_distributes_over_add(y, dash, keep);
    Seq::filter_distributes_over_add(y + dash, m, keep);
    Seq::filter_distributes_over_add(y + dash + m, dash, keep);
    Seq::filter_distributes_over_add(y + dash + m + dash, d, keep);
    Seq::filter_distributes_over_add(y, m, keep);
    Seq::filter_distributes_over_add(y + m, d, keep);
    assert((y + dash + m + dash + d).filter(keep) =~= y + m + d);
    assert((y + m + d).filter(keep) =~= y + m + d);
    law_date_digits(y + dash + m + dash + d);
    law_date_digits(y + m + d);
    assert(text::all_digits(y + m + d));
}

/// Digits hold no other character.
proof fn lemma_digits_filtered(s: Seq<char>, c: char)
    requires
        text::all_digits(s),
        !text::is_digit(c),
    ensures
        s.filter(|x: char| x != c) == s,
{
    assert forall|i: int| 0 <= i < s.len() implies s[i] != c by {
        assert(text::is_digit(s[i]));
    }
    lemma_without_absent(s, c);
    text::law_without(s, c);
}

/// Law: a date, a `T` in either case and a time of hours and minutes, with or without
/// colons, seconds and a `Z` in either case, is normalized to the digits of the date,
/// `T`, the digits of the time, 00 for the seconds that are missing, and `Z` if it was
/// there.
pub proof fn law_datetime_forms(
    date: Seq<char>,
    mark: char,
    time: Seq<char>,
    utc: Seq<char>,
)
    requires
        !date.contains('T') && !date.contains('t'),
        mark == 'T' || mark == 't',
        utc.len() == 0 || utc == seq!['Z'] || utc == seq!['z'],
        ({
            let digits = date.filter(|c: char| c != '-');
            digits.len() == 8 && text::all_digits(digits)
        }),
        ({
            let digits = time.filter(|c: char| c != ':');
            (digits.len() == 4 || digits.len() == 6) && text::all_digits(digits)
        }),
    ensures
        ({
            let day = date.filter(|c: char| c != '-');
            let digits = time.filter(|c: char| c != ':');
            datetime_text(date + seq![mark] + time + utc) == Ok::<Seq<char>, Fault>(
                day + seq!['T'] + digits + (if digits.len() == 4 {
                    seq!['0', '0']
                } else {
                    Seq::<char>::empty()
                }) + (if utc.len() == 0 {
                    Seq::<char>::empty()
                } else {
                    seq!['Z']
                }),
            )
        }),
{
    let input = date + seq![mark] + time + utc;
    let body = date + seq![mark] + time;
    let n = date.len() as int;
    let digits = time.filter(|c: char| c != ':');
    text::law_without(time, ':');
    text::law_without(date, '-');
    assert(time.len() > 0) by {
        time.lemma_filter_len(|c: char| c != ':');
    }
    let last = time.last();
    assert(last == ':' || text::is_digit(last)) by {
        if last != ':' {
            assert(time[time.len() - 1] == last);
            time.lemma_filter_contains(|c: char| c != ':', time.len() - 1);
            let k = choose|k: int| 0 <= k < digits.len() && digits[k] == last;
            assert(text::is_digit(digits[k]));
        }
    }
    if utc.len() == 0 {
        assert(input =~= body);
        assert(input.last() == last);
        assert(!is_utc(input));
    } else {
        assert(input.last() == utc[0]);
        assert(input.drop_last() =~= body);
    }
    assert(local_part(input) == body);
    assert forall|j: int| 0 <= j < n implies !is_time_mark(#[trigger] body[j]) by {
        assert(date.contains(date[j]));
        assert(body[j] == date[j]);
    }
    assert(body[n] == mark);
    lemma_time_mark(body, n);
    assert(body.take(n) =~= date);
    assert(body.skip(n + 1) =~= time);
    lemma_digit_octets(digits);
    let day = date.filter(|c: char| c != '-');
    assert(day + seq!['T'] + (digits + seq!['0', '0']) =~= day + seq!['T'] + digits + seq![
        '0',
        '0',
    ]);
    assert(day + seq!['T'] + digits + Seq::<char>::empty() =~= day + seq!['T'] + digits);
}

/// Law: nothing else is a date and time: what can be normalized is made of a date, a
/// `T`, a time and perhaps a `Z`.
pub proof fn law_datetime_only(input: Seq<char>)
    requires
        datetime_text(input) is Ok,
    ensures
        exists|date: Seq<char>, mark: char, time: Seq<char>, utc: Seq<char>|
            {
                let day = date.filter(|c: char| c != '-');
                let digits = time.filter(|c: char| c != ':');
                &&& input == #[trigger] (date + seq![mark] + time + utc)
                &&& !date.contains('T') && !date.contains('t')
                &&& mark == 'T' || mark == 't'
                &&& utc.len() == 0 || utc == seq!['Z'] || utc == seq!['z']
                &&& day.len() == 8 && text::all_digits(day)
                &&& digits.len() == 4 || digits.len() == 6
                &&& text::all_digits(digits)
            },
{
    let body = local_part(input);
    let n = time_mark(body);
    lemma_time_mark_found(body);
    let date = body.take(n);
    let mark = body[n];
    let time = body.skip(n + 1);
    let utc = if is_utc(input) {
        seq![input.last()]
    } else {
        Seq::<char>::empty()
    };
    text::law_without(time, ':');
    text::law_without(date, '-');
    assert(date + seq![mark] + time =~= body);
    assert(input =~= body + utc);
    lemma_digit_octets(text::without(time, ':'));
    assert forall|j: int| 0 <= j < date.len() implies !is_time_mark(#[trigger] date[j]) by {
        assert(date[j] == body[j]);
    }
    assert(input == date + seq![mark] + time + utc);
}

/// Before the first time mark there is none, and at it there is one.
proof fn lemma_time_mark_found(s: Seq<char>)
    ensures
        0 <= time_mark(s) <= s.len(),
        time_mark(s) < s.len() ==> is_time_mark(s[time_mark(s)]),
        forall|j: int| 0 <= j < time_mark(s) ==> !is_time_mark(#[trigger] s[j]),
    decreases s.len(),
{
    if s.len() > 0 && !is_time_mark(s[0]) {
        let rest = s.drop_first();
        lemma_time_mark_found(rest);
        assert forall|j: int| 0 <= j < time_mark(s) implies !is_time_mark(#[trigger] s[j]) by {
            if j > 0 {
                assert(s[j] == rest[j - 1]);
            }
        }
        if time_mark(s) < s.len() {
            assert(s[time_mark(s)] == rest[time_mark(rest)]);
        }
    }
}

/// Law: a date of a year from 0 to 9999 is written as eight digits: four for the year,
/// two for the month and two for the day.
pub proof fn law_compact_date(y: int, m: int, d: int)
    requires
        0 <= y <= 9999,
        0 <= m <= 99,
        0 <= d <= 99,
    ensures
        ({
            let s = compact_date((y, m, d));
            &&& s.len() == 8 && text::all_digits(s)
            &&& decimal::value(s.subrange(0, 4)) == y
            &&& decimal::value(s.subrange(4, 6)) == m
            &&& decimal::value(s.subrange(6, 8)) == d
        }),
{
    decimal::law_padded_round_trip(y as nat, 4);
    decimal::law_padded_round_trip(m as nat, 2);
    decimal::law_padded_round_trip(d as nat, 2);
    let s = compact_date((y, m, d));
    assert(s.subrange(0, 4) =~= decimal::padded(y as nat, 4));
    assert(s.subrange(4, 6) =~= decimal::padded(m as nat, 2));
    assert(s.subrange(6, 8) =~= decimal::padded(d as nat, 2));
}

/// Law: seconds since 1970 are written as the date of their day, `T`, two digits each
/// for hours, minutes and seconds, and `Z`.
pub proof fn law_stamp_fields(day: nat, hours: nat, minutes: nat, seconds: nat)
    requires
        hours < 24,
        minutes < 60,
        seconds < 60,
    ensures
        utc_stamp(86_400 * day + 3600 * hours + 60 * minutes + seconds) == compact_date(
            civil::date_of(day as int),
        ) + seq!['T'] + decimal::padded(hours, 2) + decimal::padded(minutes, 2) + decimal::padded(
            seconds,
            2,
        ) + seq!['Z'],
{
    let all = 86_400 * day + 3600 * hours + 60 * minutes + seconds;
    assert(all / 86_400 == day);
    assert(all % 86_400 == 3600 * hours + 60 * minutes + seconds);
    let rem = all % 86_400;
    assert(rem / 3600 == hours);
    assert(rem % 3600 / 60 == minutes);
    assert(rem % 60 == seconds);
}

/// Law: eight digits are a date that has a day after it exactly if the month is from 1
/// to 12 and the day from 1 to 31.
pub proof fn law_next_day_range(s: Seq<char>)
    requires
        s.len() == 8,
        text::all_digits(s),
    ensures
        next_day_text(s) is Ok <==> 1 <= decimal::value(s.subrange(4, 6)) <= 12 && 1
            <= decimal::value(s.subrange(6, 8)) <= 31,
{
    lemma_digit_fields(s);
    let y = s.subrange(0, 4);
    let m = s.subrange(4, 6);
    let d = s.subrange(6, 8);
    assert(text::all_digits(y) && text::all_digits(m) && text::all_digits(d));
    assert(text::is_digit(y[0]) && text::is_digit(m[0]) && text::is_digit(d[0]));
}

/// Law: a day past the end of its month counts on into the next.
pub proof fn law_next_day_counts_on(y: int, m: int, d: int)
    requires
        0 <= y <= 9999,
        1 <= m <= 12,
        civil::month_len(y, m) < d <= 31,
    ensures
        m < 12,
        next_day_text(compact_date((y, m, d))) == Ok::<Seq<char>, Fault>(
            compact_date((y, m + 1, d + 1 - civil::month_len(y, m))),
        ),
{
    let s = compact_date((y, m, d));
    law_compact_date(y, m, d);
    lemma_digit_fields(s);
    assert(text::all_digits(s.subrange(0, 4)) && text::all_digits(s.subrange(4, 6))
        && text::all_digits(s.subrange(6, 8)));
    assert(text::is_digit(s[0]) && text::is_digit(s[4]) && text::is_digit(s[6]));
    civil::lemma_day_counts_on(y, m, d + 1);
    civil::law_date_round_trip(y, m + 1, d + 1 - civil::month_len(y, m));
}

/// Law: what cannot be read as a date is told as it was given.
pub proof fn law_date_refused(input: Seq<char>)
    requires
        date_text(input) is Err,
    ensures
        date_text(input) == Err::<Seq<char>, Fault>(
            Fault::Config("Invalid date '"@ + input + "': expected YYYY-MM-DD"@),
        ),
{
}

/// Law: a date and time is refused for what is wrong with it: that it has no time at all,
/// that its date is none, that its time has neither four nor six characters, or that they
/// are not digits.
pub proof fn law_datetime_refused(
    whole: Seq<char>,
    date: Seq<char>,
    mark: char,
    time: Seq<char>,
    utc: Seq<char>,
)
    requires
        !date.contains('T') && !date.contains('t'),
        mark == 'T' || mark == 't',
        utc == seq!['Z'] || utc == seq!['z'],
        whole == date + seq![mark] + time + utc,
    ensures
        datetime_text(date + utc) == Err::<Seq<char>, Fault>(
            Fault::Config(
                "Invalid datetime '"@ + (date + utc)
                    + "': expected YYYY-MM-DDTHH:MM[:SS] (or a plain date with --all-day)"@,
            ),
        ),
        date_text(date) is Err ==> datetime_text(whole) == Err::<Seq<char>, Fault>(
            Fault::Config("Invalid date '"@ + date + "': expected YYYY-MM-DD"@),
        ),
        ({
            let size = encode_utf8(time.filter(|c: char| c != ':')).len();
            date_text(date) is Ok && size != 4 && size != 6 ==> datetime_text(whole) == Err::<
                Seq<char>,
                Fault,
            >(
                Fault::Config("Invalid time in '"@ + whole + "': expected HH:MM or HH:MM:SS"@),
            )
        }),
        ({
            let size = encode_utf8(time.filter(|c: char| c != ':')).len();
            date_text(date) is Ok && (size == 4 || size == 6) && !text::all_digits(
                time.filter(|c: char| c != ':'),
            ) ==> datetime_text(whole) == Err::<Seq<char>, Fault>(
                Fault::Config("Invalid time in '"@ + whole + "'"@),
            )
        }),
{
    text::law_without(time, ':');
    let body = date + seq![mark] + time;
    let n = date.len() as int;
    assert(whole.drop_last() =~= body);
    assert(whole.last() == utc[0]);
    assert forall|j: int| 0 <= j < n implies !is_time_mark(#[trigger] body[j]) by {
        assert(date.contains(date[j]));
        assert(body[j] == date[j]);
    }
    assert(body[n] == mark);
    lemma_time_mark(body, n);
    assert(body.take(n) =~= date);
    assert(body.skip(n + 1) =~= time);
    let short = date + utc;
    assert(short.drop_last() =~= date);
    assert(short.last() == utc[0]);
    assert forall|j: int| 0 <= j < n implies !is_time_mark(#[trigger] date[j]) by {
        assert(date.contains(date[j]));
    }
    lemma_time_mark(date, n);
}

/// Law: a day after what is no date is refused, and told as it was given.
pub proof fn law_next_day_refused(s: Seq<char>)
    ensures
        next_day_text(s) is Err ==> next_day_text(s) == Err::<Seq<char>, Fault>(
            Fault::Config("Invalid date '"@ + s + "'"@),
        ),
        decimal::signed_value(byte_chars(s).subrange(0, 4)) is None ==> next_day_text(s) is Err,
        decimal::unsigned_value(byte_chars(s).subrange(4, 6)) is None ==> next_day_text(s) is Err,
        decimal::unsigned_value(byte_chars(s).subrange(6, 8)) is None ==> next_day_text(s) is Err,
{
}

/// Law: the characters that the fields of a date are read from are its bytes.
pub proof fn law_byte_chars(s: Seq<char>)
    ensures
        byte_chars(s).len() == encode_utf8(s).len(),
        forall|i: int|
            0 <= i < encode_utf8(s).len() ==> #[trigger] byte_chars(s)[i] as u32 == encode_utf8(
                s,
            )[i],
{
}

/// Law: a time that was measured counts for its whole seconds, and one that could not be
/// measured, because the clock is set to an earlier time, for none.
pub proof fn law_counts_for(
    time: core::time::Duration,
    fault: std::time::SystemTimeError,
    unix_secs: u64,
)
    ensures
        counts_for(Ok(time), unix_secs) <==> call_ensures(
            core::time::Duration::as_secs,
            (&time,),
            unix_secs,
        ),
        counts_for(Err(fault), unix_secs) <==> unix_secs == 0,
{
}

} // verus!
