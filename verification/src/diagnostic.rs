//! What a failed parse reports: a message, a short reason, and the place in
//! the text that the message is about.

use crate::text::string_from_chars;
use std::ops::Range;
use vstd::prelude::*;
use vstd::string::StringExecFns;

verus! {

/// Why a text could not be read.
#[derive(Clone, Copy, Debug, PartialEq, Eq, Structural)]
pub enum Reason {
    /// The first line of a record is not a number.
    InvalidNumber,
    /// The text ends after the number of a record.
    MissingTimeLine,
    /// The second line of a record has no arrow between two timestamps.
    MissingArrow,
    /// The hours of a timestamp are not a number.
    InvalidHours,
    /// The minutes of a timestamp are not a number.
    InvalidMinutes,
    /// The seconds of a timestamp are not a number.
    InvalidSeconds,
    /// The milliseconds of a timestamp are not a number.
    InvalidMillis,
}

impl Reason {
    /// The reason as it is shown to the user.
    pub open spec fn label(self) -> Seq<char> {
        match self {
            Reason::InvalidNumber => "Invalid subtitle number"@,
            Reason::MissingTimeLine => "Missing time line"@,
            Reason::MissingArrow => "Missing ' --> '"@,
            Reason::InvalidHours => "Invalid hours"@,
            Reason::InvalidMinutes => "Invalid minutes"@,
            Reason::InvalidSeconds => "Invalid seconds"@,
            Reason::InvalidMillis => "Invalid millis"@,
        }
    }

    /// The reason as it is shown to the user.
    pub fn text(&self) -> (label: &'static str)
        ensures
            label@ == self.label(),
    {
        match self {
            Reason::InvalidNumber => "Invalid subtitle number",
            Reason::MissingTimeLine => "Missing time line",
            Reason::MissingArrow => "Missing ' --> '",
            Reason::InvalidHours => "Invalid hours",
            Reason::InvalidMinutes => "Invalid minutes",
            Reason::InvalidSeconds => "Invalid seconds",
            Reason::InvalidMillis => "Invalid millis",
        }
    }
}

/// A failure as the contracts speak of it. `start` and `end` bound the place
/// in the text, in columns from its beginning, as unbounded integers.
pub struct Diagnostic {
    pub message: Seq<char>,
    pub reason: Reason,
    pub start: int,
    pub end: int,
}

/// A failure to read a text. `range` is the place the failure is about, as a
/// half-open range of columns counted from the beginning of the text.
#[derive(Debug, PartialEq, Eq)]
pub struct ParseError {
    pub message: String,
    pub reason: Reason,
    pub range: Range<usize>,
}

impl ParseError {
    /// Whether the place of the failure ends no earlier than it starts.
    pub open spec fn well_formed(&self) -> bool {
        self.range.start <= self.range.end
    }
}

impl View for ParseError {
    type V = Diagnostic;

    open spec fn view(&self) -> Diagnostic {
        Diagnostic {
            message: self.message@,
            reason: self.reason,
            start: self.range.start as int,
            end: self.range.end as int,
        }
    }
}

/// A text in the quoted and escaped form in which the standard library's
/// `Debug` formatting prints a string.
pub uninterp spec fn debug_text(text: Seq<char>) -> Seq<char>;

/// Formats a string with `{:?}`, the `Debug` formatting of the standard
/// library, which quotes it and escapes what cannot be printed. The contract
/// only names that result.
#[verifier::external_body]
fn debug_string(text: &str) -> (quoted: String)
    ensures
        quoted@ == debug_text(text@),
{
    format!("{:?}", text)
}

/// The message for a record whose first line is not a number.
pub open spec fn number_message(line: Seq<char>) -> Seq<char> {
    "Failed to parse "@ + debug_text(line) + " as an integer"@
}

/// The message for a part of a timestamp that is not a number.
pub open spec fn field_message(field: Seq<char>) -> Seq<char> {
    "Failed to parse "@ + field + " as an integer"@
}

/// The message for a record that ends after its number.
pub open spec fn missing_time_message(number_line: Seq<char>) -> Seq<char> {
    "Expected to find time line for subtitle "@ + number_line
}

/// The message for a record whose second line has no arrow.
pub open spec fn missing_arrow_message(number_line: Seq<char>) -> Seq<char> {
    "Expected to find arrow in time line for subtitle "@ + number_line
}

/// Puts one text behind another.
pub fn joined(before: &str, after: &str) -> (message: String)
    ensures
        message@ == before@ + after@,
{
    let mut message: String = String::new();
    message.append(before);
    message.append(after);
    assert(Seq::<char>::empty() + before@ =~= before@);
    message
}

/// Puts `middle` between two other texts.
pub fn framed(before: &str, middle: &str, after: &str) -> (message: String)
    ensures
        message@ == before@ + middle@ + after@,
{
    let mut message: String = joined(before, middle);
    message.append(after);
    message
}

/// Builds the failure for the place from `start` to `end`.
pub fn failure(message: String, reason: Reason, start: usize, end: usize) -> (error: ParseError)
    requires
        start <= end,
    ensures
        error.well_formed(),
        error@ == (Diagnostic {
            message: message@,
            reason,
            start: start as int,
            end: end as int,
        }),
{
    ParseError { message, reason, range: Range { start, end } }
}

/// The failure for a record whose first line, from `start` to `end`, is not
/// a number.
pub fn number_failure(line: &[char], start: usize, end: usize) -> (error: ParseError)
    requires
        start <= end,
    ensures
        error.well_formed(),
        error@ == (Diagnostic {
            message: number_message(line@),
            reason: Reason::InvalidNumber,
            start: start as int,
            end: end as int,
        }),
{
    let shown: String = string_from_chars(line);
    let quoted: String = debug_string(shown.as_str());
    let message: String = framed("Failed to parse ", quoted.as_str(), " as an integer");
    failure(message, Reason::InvalidNumber, start, end)
}

/// The failure for a record that ends after the line with its number: the
/// empty place at `at`.
pub fn missing_time_failure(number_line: &[char], at: usize) -> (error: ParseError)
    ensures
        error.well_formed(),
        error@ == (Diagnostic {
            message: missing_time_message(number_line@),
            reason: Reason::MissingTimeLine,
            start: at as int,
            end: at as int,
        }),
{
    let shown: String = string_from_chars(number_line);
    let message: String = joined("Expected to find time line for subtitle ", shown.as_str());
    failure(message, Reason::MissingTimeLine, at, at)
}

/// The failure for a record whose second line, from `start` to `end`, has
/// no arrow.
pub fn missing_arrow_failure(number_line: &[char], start: usize, end: usize) -> (error:
    ParseError)
    requires
        start <= end,
    ensures
        error.well_formed(),
        error@ == (Diagnostic {
            message: missing_arrow_message(number_line@),
            reason: Reason::MissingArrow,
            start: start as int,
            end: end as int,
        }),
{
    let shown: String = string_from_chars(number_line);
    let message: String = joined(
        "Expected to find arrow in time line for subtitle ",
        shown.as_str(),
    );
    failure(message, Reason::MissingArrow, start, end)
}

/// The failure for a timestamp, from `start` to `end`, of which the part
/// `field` is no number.
pub fn field_failure(reason: Reason, field: &[char], start: usize, end: usize) -> (error:
    ParseError)
    requires
        start <= end,
    ensures
        error.well_formed(),
        error@ == (Diagnostic {
            message: field_message(field@),
            reason,
            start: start as int,
            end: end as int,
        }),
{
    let shown: String = string_from_chars(field);
    let message: String = framed("Failed to parse ", shown.as_str(), " as an integer");
    failure(message, reason, start, end)
}

} // verus!
