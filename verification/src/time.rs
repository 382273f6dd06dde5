//! Timestamps: between the text `HH:MM:SS,mmm` and a count of milliseconds.
//!
//! A count is a `u64`. Each part of a written timestamp is read as a 32-bit
//! number, so the count that a text denotes always fits and reading never
//! overflows; a part too large for 32 bits is not a number.

use crate::decimal::{
    all_digits, is_digit, lemma_padded, lemma_parse_padded, padded, parse_number, read_number,
    write_padded,
};
use crate::diagnostic::{field_failure, field_message, Diagnostic, ParseError, Reason};
use crate::text::{
    collect_chars, has_char, lemma_split_after, split_once, split_once_at, string_from_chars,
};
use crate::width::{display_width, str_width};
use vstd::prelude::*;

verus! {

/// Milliseconds in a second.
pub const SECOND: u64 = 1000;

/// Milliseconds in a minute.
pub const MINUTE: u64 = 60_000;

/// Milliseconds in an hour.
pub const HOUR: u64 = 3_600_000;

/// The parts of a written timestamp, as texts. Hours and minutes may be
/// left out; milliseconds that are left out read as `0`.
pub struct TimeFields {
    pub hours: Option<Seq<char>>,
    pub minutes: Option<Seq<char>>,
    pub seconds: Seq<char>,
    pub millis: Seq<char>,
}

/// Cuts a timestamp into its parts. The text is cut at its first colon and
/// at the next one: with two colons the parts are hours, minutes and the
/// rest, with one colon minutes and the rest. The rest is cut at its first
/// comma into seconds and milliseconds. A third colon is left where it
/// stands, in the seconds or the milliseconds, which then are no number.
#[verifier::opaque]
pub open spec fn time_fields(text: Seq<char>) -> TimeFields {
    let (hours, minutes, rest) = match split_once(text, seq![':']) {
        None => (None::<Seq<char>>, None::<Seq<char>>, text),
        Some((first, rest)) => match split_once(rest, seq![':']) {
            None => (None::<Seq<char>>, Some(first), rest),
            Some((second, rest)) => (Some(first), Some(second), rest),
        },
    };
    match split_once(rest, seq![',']) {
        Some((seconds, millis)) => TimeFields { hours, minutes, seconds, millis },
        None => TimeFields { hours, minutes, seconds: rest, millis: seq!['0'] },
    }
}

/// Why a timestamp could not be read, and the part that is no number.
pub struct TimeFault {
    pub reason: Reason,
    pub field: Seq<char>,
}

/// The number that an optional part denotes: 0 where the part is left out.
pub open spec fn optional_number(field: Option<Seq<char>>) -> Option<u32> {
    match field {
        None => Some(0u32),
        Some(text) => parse_number(text),
    }
}

/// The count of milliseconds that a timestamp denotes. The parts are looked
/// at in the order seconds, milliseconds, minutes, hours, and the first that
/// is no number decides the reason.
#[verifier::opaque]
pub open spec fn decode_time(text: Seq<char>) -> Result<nat, TimeFault> {
    let fields = time_fields(text);
    if parse_number(fields.seconds) is None {
        Err(TimeFault { reason: Reason::InvalidSeconds, field: fields.seconds })
    } else if parse_number(fields.millis) is None {
        Err(TimeFault { reason: Reason::InvalidMillis, field: fields.millis })
    } else if optional_number(fields.minutes) is None {
        Err(TimeFault { reason: Reason::InvalidMinutes, field: fields.minutes->0 })
    } else if optional_number(fields.hours) is None {
        Err(TimeFault { reason: Reason::InvalidHours, field: fields.hours->0 })
    } else {
        Ok(
            (optional_number(fields.hours)->0 * 3_600_000 + optional_number(fields.minutes)->0
                * 60_000 + parse_number(fields.seconds)->0 * 1000 + parse_number(
                fields.millis,
            )->0) as nat,
        )
    }
}

/// What reading a timestamp gives when the timestamp stands at column
/// `base` of a larger text and is `width` columns wide: the count, or a
/// failure that covers the whole timestamp.
pub open spec fn timestamp_at(text: Seq<char>, base: int, width: int) -> Result<nat, Diagnostic> {
    match decode_time(text) {
        Ok(millis) => Ok(millis),
        Err(fault) => Err(
            Diagnostic {
                message: field_message(fault.field),
                reason: fault.reason,
                start: base,
                end: base + width,
            },
        ),
    }
}

/// A count of milliseconds written as `HH:MM:SS,mmm`: hours, minutes and
/// seconds with at least two digits, milliseconds with at least three.
/// Hours of a hundred or more take the digits they need.
#[verifier::opaque]
pub open spec fn time_text(millis: nat) -> Seq<char> {
    let hours = millis / 3_600_000;
    let below_hour = millis % 3_600_000;
    let minutes = below_hour / 60_000;
    let below_minute = below_hour % 60_000;
    padded(hours, 2) + seq![':'] + padded(minutes, 2) + seq![':'] + padded(below_minute / 1000, 2)
        + seq![','] + padded(below_minute % 1000, 3)
}

/// A run of digits holds no other character.
pub proof fn lemma_digits_lack(text: Seq<char>, c: char)
    requires
        all_digits(text),
        !is_digit(c),
    ensures
        !has_char(text, c),
{
}

/// Reading a written count gives the count back, as long as its hours fit
/// in 32 bits. Every count below a hundred hours is among these.
pub proof fn lemma_time_round_trip(millis: nat)
    requires
        millis / 3_600_000 <= u32::MAX,
    ensures
        decode_time(time_text(millis)) == Ok::<nat, TimeFault>(millis),
{
    reveal(decode_time);
    reveal(time_fields);
    reveal(time_text);
    let hours = millis / 3_600_000;
    let below_hour = millis % 3_600_000;
    let minutes = below_hour / 60_000;
    let below_minute = below_hour % 60_000;
    let seconds = below_minute / 1000;
    let rest = below_minute % 1000;
    let h = padded(hours, 2);
    let m = padded(minutes, 2);
    let s = padded(seconds, 2);
    let r = padded(rest, 3);
    lemma_padded(hours, 2);
    lemma_padded(minutes, 2);
    lemma_padded(seconds, 2);
    lemma_padded(rest, 3);
    lemma_parse_padded(hours, 2);
    lemma_parse_padded(minutes, 2);
    lemma_parse_padded(seconds, 2);
    lemma_parse_padded(rest, 3);
    let last = s + seq![','] + r;
    let tail = m + seq![':'] + last;
    let text = time_text(millis);
    assert(text =~= h + seq![':'] + tail);
    lemma_digits_lack(h, ':');
    lemma_split_after(h, seq![':'], tail);
    lemma_digits_lack(m, ':');
    lemma_split_after(m, seq![':'], last);
    lemma_digits_lack(s, ',');
    lemma_split_after(s, seq![','], r);
    let fields = time_fields(text);
    assert(fields.hours == Some(h));
    assert(fields.minutes == Some(m));
    assert(fields.seconds == s);
    assert(fields.millis == r);
}

/// The parts of a written timestamp, as they are cut out of its characters.
pub struct TimeParts<'a> {
    pub hours: Option<&'a [char]>,
    pub minutes: Option<&'a [char]>,
    pub seconds: &'a [char],
    pub millis: &'a [char],
}

impl<'a> View for TimeParts<'a> {
    type V = TimeFields;

    open spec fn view(&self) -> TimeFields {
        TimeFields {
            hours: match self.hours {
                Some(part) => Some(part@),
                None => None,
            },
            minutes: match self.minutes {
                Some(part) => Some(part@),
                None => None,
            },
            seconds: self.seconds@,
            millis: self.millis@,
        }
    }
}

/// Cuts a timestamp into its parts. `zero` is the text that stands for
/// milliseconds that are left out.
pub fn cut_time<'a>(text: &'a [char], zero: &'a [char]) -> (parts: TimeParts<'a>)
    requires
        zero@ == seq!['0'],
    ensures
        parts@ == time_fields(text@),
{
    proof {
        reveal(time_fields);
    }
    let colon: Vec<char> = vec![':'];
    let comma: Vec<char> = vec![','];
    assert(colon@ =~= seq![':']);
    assert(comma@ =~= seq![',']);
    let (hours, minutes, rest): (
        Option<&[char]>,
        Option<&[char]>,
        &[char],
    ) = match split_once_at(text, colon.as_slice()) {
        None => (None, None, text),
        Some((first, rest)) => match split_once_at(rest, colon.as_slice()) {
            None => (None, Some(first), rest),
            Some((second, rest)) => (Some(first), Some(second), rest),
        },
    };
    match split_once_at(rest, comma.as_slice()) {
        Some((seconds, millis)) => TimeParts { hours, minutes, seconds, millis },
        None => TimeParts { hours, minutes, seconds: rest, millis: zero },
    }
}

/// Reads a part of a timestamp that may be left out.
fn read_optional(part: Option<&[char]>) -> (value: Option<u32>)
    ensures
        value == optional_number(
            match part {
                Some(text) => Some(text@),
                None => None,
            },
        ),
{
    match part {
        Some(text) => read_number(text),
        None => Some(0),
    }
}

/// Reads the timestamp that `text` holds. `index` is the column at which the
/// timestamp stands in a larger text and `width` the number of columns it
/// takes there; a failure covers those columns.
pub fn time_at(text: &[char], index: usize, width: usize) -> (result: Result<u64, ParseError>)
    requires
        index + width <= usize::MAX,
    ensures
        match result {
            Ok(millis) => timestamp_at(text@, index as int, width as int) == Ok::<nat, Diagnostic>(
                millis as nat,
            ),
            Err(error) => error.well_formed() && timestamp_at(text@, index as int, width as int)
                == Err::<nat, Diagnostic>(error@),
        },
{
    proof {
        reveal(decode_time);
    }
    let zero: Vec<char> = vec!['0'];
    assert(zero@ =~= seq!['0']);
    let parts: TimeParts = cut_time(text, zero.as_slice());
    let end: usize = index + width;
    let seconds: u32 = match read_number(parts.seconds) {
        Some(seconds) => seconds,
        None => {
            return Err(field_failure(Reason::InvalidSeconds, parts.seconds, index, end));
        },
    };
    let millis: u32 = match read_number(parts.millis) {
        Some(millis) => millis,
        None => {
            return Err(field_failure(Reason::InvalidMillis, parts.millis, index, end));
        },
    };
    let minutes: u32 = match read_optional(parts.minutes) {
        Some(minutes) => minutes,
        None => {
            return Err(field_failure(Reason::InvalidMinutes, field_of(parts.minutes), index, end));
        },
    };
    let hours: u32 = match read_optional(parts.hours) {
        Some(hours) => hours,
        None => {
            return Err(field_failure(Reason::InvalidHours, field_of(parts.hours), index, end));
        },
    };
    Ok(hours as u64 * HOUR + minutes as u64 * MINUTE + seconds as u64 * SECOND + millis as u64)
}

/// The text of a part that stands in the timestamp.
fn field_of<'a>(part: Option<&'a [char]>) -> (text: &'a [char])
    requires
        part is Some,
    ensures
        text == part->0,
{
    match part {
        Some(text) => text,
        None => vstd::pervasive::unreached(),
    }
}

/// Reads a timestamp of the form `[[H:]MM:]SS[,mmm]`. `index` is the column
/// at which the timestamp stands in a larger text, 0 where it stands alone.
///
/// The result is `hours * 3_600_000 + minutes * 60_000 + seconds * 1000 +
/// millis`. A part that is no 32-bit number gives a failure with the reason
/// for that part, over the columns from `index` to the end of the timestamp,
/// which is as many columns wide as its text is displayed. Those columns
/// must fit in a `usize`, as they always do for an `index` of 0;
/// [`parse_time_checked`] tests that first.
pub fn parse_time(text: &str, index: usize) -> (result: Result<u64, ParseError>)
    requires
        index + display_width(text@) <= usize::MAX,
    ensures
        match result {
            Ok(millis) => timestamp_at(text@, index as int, display_width(text@) as int) == Ok::<
                nat,
                Diagnostic,
            >(millis as nat),
            Err(error) => error.well_formed() && timestamp_at(
                text@,
                index as int,
                display_width(text@) as int,
            ) == Err::<nat, Diagnostic>(error@),
        },
{
    let chars: Vec<char> = collect_chars(text);
    let width: usize = str_width(text);
    time_at(chars.as_slice(), index, width)
}

/// Reads a timestamp as [`parse_time`] does, after testing that the columns
/// from `index` to the end of the timestamp fit in a `usize`. `None` where
/// they do not, and only there.
pub fn parse_time_checked(text: &str, index: usize) -> (result: Option<Result<u64, ParseError>>)
    ensures
        result is Some <==> index + display_width(text@) <= usize::MAX,
        match result {
            Some(Ok(millis)) => timestamp_at(text@, index as int, display_width(text@) as int)
                == Ok::<nat, Diagnostic>(millis as nat),
            Some(Err(error)) => error.well_formed() && timestamp_at(
                text@,
                index as int,
                display_width(text@) as int,
            ) == Err::<nat, Diagnostic>(error@),
            None => true,
        },
{
    let width: usize = str_width(text);
    match index.checked_add(width) {
        Some(_) => Some(parse_time(text, index)),
        None => None,
    }
}

/// Appends `millis`, written as `HH:MM:SS,mmm`, to `out`.
pub fn write_time(out: &mut Vec<char>, millis: u64)
    ensures
        final(out)@ == old(out)@ + time_text(millis as nat),
{
    let ghost start: Seq<char> = out@;
    let hours: u64 = millis / HOUR;
    let mut leftover: u64 = millis - hours * HOUR;
    let minutes: u64 = leftover / MINUTE;
    leftover = leftover - minutes * MINUTE;
    let seconds: u64 = leftover / SECOND;
    leftover = leftover - seconds * SECOND;
    write_padded(out, hours, 2);
    out.push(':');
    write_padded(out, minutes, 2);
    out.push(':');
    write_padded(out, seconds, 2);
    out.push(',');
    write_padded(out, leftover, 3);
    proof {
        reveal(time_text);
        let m: nat = millis as nat;
        let below_hour: nat = m % 3_600_000;
        let below_minute: nat = below_hour % 60_000;
        assert(hours == m / 3_600_000);
        assert(minutes == below_hour / 60_000);
        assert(seconds == below_minute / 1000);
        assert(leftover == below_minute % 1000);
        assert(out@ =~= start + time_text(m));
    }
}

/// Writes a count of milliseconds as `HH:MM:SS,mmm`.
pub fn print_time(millis: u64) -> (text: String)
    ensures
        text@ == time_text(millis as nat),
{
    let mut out: Vec<char> = Vec::new();
    write_time(&mut out, millis);
    assert(Seq::<char>::empty() + time_text(millis as nat) =~= time_text(millis as nat));
    string_from_chars(out.as_slice())
}

} // verus!
