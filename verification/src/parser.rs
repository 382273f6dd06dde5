//! Reading subtitles out of a text.
//!
//! A text is a run of records. A record is a line with its number, a line
//! with two timestamps around an arrow, and the lines of its body up to the
//! next empty line or the end of the text. Reading stops at the first record
//! that cannot be read, and then gives no records at all.
//!
//! A failure points into the text by columns. Every line takes as many
//! columns as its displayed width and one more for its line end, so a line
//! starts at the column that the lines before it add up to.
//!
//! The widths are measured once, before the records are read: reading the
//! records takes the widths as plain numbers and asks nothing more of the
//! lines than their characters.

use crate::decimal::{parse_number, read_number};
use crate::diagnostic::{
    missing_arrow_failure, missing_arrow_message, missing_time_failure, missing_time_message,
    number_failure, number_message, Diagnostic, ParseError, Reason,
};
use crate::subtitle::{views, Subtitle, SubtitleView};
use crate::text::{
    collect_chars, line_texts, lines_of, split_lines, split_once, split_once_at,
    string_from_chars, string_texts,
};
use crate::time::{time_at, timestamp_at};
use crate::width::{display_width, width_of};
use vstd::prelude::*;

verus! {

/// The arrow between the two timestamps of a record, with the blank on
/// either side of it.
pub open spec fn arrow() -> Seq<char> {
    seq![' ', '-', '-', '>', ' ']
}

/// The displayed widths that reading one line can ask for.
#[derive(Clone, Copy, Debug, PartialEq, Eq)]
pub struct LineWidths {
    /// The width of the whole line.
    pub line: usize,
    /// The width of what stands before the first arrow of the line; 0 where
    /// the line has no arrow.
    pub before: usize,
    /// The width of the arrow; 0 where the line has no arrow.
    pub arrow: usize,
    /// The width of what stands behind the first arrow of the line; 0 where
    /// the line has no arrow.
    pub after: usize,
}

/// The widths of a line as they are displayed.
pub open spec fn widths_of(line: Seq<char>) -> LineWidths {
    match split_once(line, arrow()) {
        Some((before, after)) => LineWidths {
            line: display_width(line),
            before: display_width(before),
            arrow: display_width(arrow()),
            after: display_width(after),
        },
        None => LineWidths { line: display_width(line), before: 0, arrow: 0, after: 0 },
    }
}

/// The widths of every line as they are displayed.
pub open spec fn all_widths(lines: Seq<Seq<char>>) -> Seq<LineWidths> {
    Seq::new(lines.len(), |i: int| widths_of(lines[i]))
}

/// The column at which line `count` starts: the widths of the lines before
/// it, and one column for each of their line ends.
pub open spec fn line_offset(widths: Seq<LineWidths>, count: int) -> int
    decreases count,
{
    if count <= 0 {
        0
    } else {
        line_offset(widths, count - 1) + widths[count - 1].line + 1
    }
}

/// Where the body that starts at line `from` ends: the first empty line at
/// or after `from`, or the number of lines if none is empty.
pub open spec fn body_end(lines: Seq<Seq<char>>, from: int) -> int
    decreases lines.len() - from,
{
    if from >= lines.len() {
        from
    } else if lines[from].len() == 0 {
        from
    } else {
        body_end(lines, from + 1)
    }
}

/// The record that starts at line `at`, and the line at which the next one
/// starts; or why there is no record there. `widths` holds the widths of
/// the lines, one entry for each line.
///
/// - The first line is read as a number. If it is none, the failure covers
///   that line.
/// - If no line follows, the failure is the empty place behind the first
///   line.
/// - The second line is cut at its first arrow. If it has none, the failure
///   covers that line.
/// - What stands before the arrow is read as the start, what stands behind it
///   as the end; a failure covers the timestamp that it is about.
/// - The body is made of the lines that follow, up to the first empty one,
///   which belongs to the record but not to its body.
#[verifier::opaque]
pub open spec fn record_at(lines: Seq<Seq<char>>, widths: Seq<LineWidths>, at: int) -> Result<
    (SubtitleView, int),
    Diagnostic,
>
    recommends
        0 <= at < lines.len(),
        widths.len() == lines.len(),
{
    let number_line = lines[at];
    let time_column = line_offset(widths, at + 1);
    if parse_number(number_line) is None {
        Err(
            Diagnostic {
                message: number_message(number_line),
                reason: Reason::InvalidNumber,
                start: line_offset(widths, at),
                end: line_offset(widths, at) + widths[at].line,
            },
        )
    } else if at + 1 >= lines.len() {
        Err(
            Diagnostic {
                message: missing_time_message(number_line),
                reason: Reason::MissingTimeLine,
                start: time_column,
                end: time_column,
            },
        )
    } else {
        let time_line = lines[at + 1];
        let time_widths = widths[at + 1];
        match split_once(time_line, arrow()) {
            None => Err(
                Diagnostic {
                    message: missing_arrow_message(number_line),
                    reason: Reason::MissingArrow,
                    start: time_column,
                    end: time_column + time_widths.line,
                },
            ),
            Some((from_text, to_text)) => match timestamp_at(
                from_text,
                time_column,
                time_widths.before as int,
            ) {
                Err(failure) => Err(failure),
                Ok(from) => match timestamp_at(
                    to_text,
                    time_column + time_widths.before + time_widths.arrow,
                    time_widths.after as int,
                ) {
                    Err(failure) => Err(failure),
                    Ok(to) => {
                        let stop = body_end(lines, at + 2);
                        Ok(
                            (
                                SubtitleView {
                                    number: parse_number(number_line)->0 as nat,
                                    from,
                                    to,
                                    lines: lines.subrange(at + 2, stop),
                                },
                                if stop < lines.len() {
                                    stop + 1
                                } else {
                                    stop
                                },
                            ),
                        )
                    },
                },
            },
        }
    }
}

/// The records from line `at` to the end of the text, or the failure of the
/// first record that cannot be read.
pub open spec fn records_from(lines: Seq<Seq<char>>, widths: Seq<LineWidths>, at: int) -> Result<
    Seq<SubtitleView>,
    Diagnostic,
>
    decreases lines.len() - at,
    via records_from_decreases
{
    if at < 0 || at >= lines.len() {
        Ok(Seq::empty())
    } else {
        match record_at(lines, widths, at) {
            Err(failure) => Err(failure),
            Ok((record, next)) => match records_from(lines, widths, next) {
                Err(failure) => Err(failure),
                Ok(rest) => Ok(seq![record] + rest),
            },
        }
    }
}

#[via_fn]
proof fn records_from_decreases(lines: Seq<Seq<char>>, widths: Seq<LineWidths>, at: int) {
    reveal(record_at);
    lemma_body_end(lines, at + 2);
}

/// What reading `text` gives: its records, or the first failure, with the
/// lines as wide as they are displayed.
pub open spec fn parse_text(text: Seq<char>) -> Result<Seq<SubtitleView>, Diagnostic> {
    records_from(lines_of(text), all_widths(lines_of(text)), 0)
}

/// The columns that one line may ask for: its width and its line end and,
/// where it holds an arrow, the widths of the arrow and of what stands on
/// either side of it.
pub open spec fn line_columns(widths: LineWidths) -> int {
    widths.line + 1 + widths.before + widths.arrow + widths.after
}

/// The columns that the first `count` lines may ask for.
pub open spec fn columns_upto(widths: Seq<LineWidths>, count: int) -> int
    decreases count,
{
    if count <= 0 {
        0
    } else {
        columns_upto(widths, count - 1) + line_columns(widths[count - 1])
    }
}

/// An upper bound on every column that reading lines of these widths can
/// arrive at. Where it fits in a `usize`, no column overflows.
pub open spec fn columns(widths: Seq<LineWidths>) -> int {
    columns_upto(widths, widths.len() as int)
}

/// An upper bound on every column that reading `text` can arrive at. It
/// cannot be bounded by the length of the text, since nothing is known of a
/// displayed width.
pub open spec fn column_bound(text: Seq<char>) -> int {
    columns(all_widths(lines_of(text)))
}

/// A body ends at or after the line it starts at, at an empty line or at
/// the end of the text, and holds no empty line.
pub proof fn lemma_body_end(lines: Seq<Seq<char>>, from: int)
    ensures
        body_end(lines, from) >= from,
        from <= lines.len() ==> body_end(lines, from) <= lines.len(),
        body_end(lines, from) < lines.len() ==> lines[body_end(lines, from)].len() == 0,
        forall|j: int| from <= j < body_end(lines, from) ==> (#[trigger] lines[j]).len() > 0,
    decreases lines.len() - from,
{
    if from < lines.len() && lines[from].len() != 0 {
        lemma_body_end(lines, from + 1);
    }
}

/// The columns asked for grow with the number of lines, and a line never
/// starts behind them.
pub proof fn lemma_columns(widths: Seq<LineWidths>, count: int, limit: int)
    requires
        0 <= count <= limit,
    ensures
        0 <= line_offset(widths, count) <= columns_upto(widths, count) <= columns_upto(
            widths,
            limit,
        ),
    decreases limit,
{
    if count < limit {
        lemma_columns(widths, count, limit - 1);
    } else if count > 0 {
        lemma_columns(widths, count - 1, count - 1);
    }
}

/// The records read so far, followed by what reading the rest gives.
pub open spec fn followed_by(
    done: Seq<SubtitleView>,
    rest: Result<Seq<SubtitleView>, Diagnostic>,
) -> Result<Seq<SubtitleView>, Diagnostic> {
    match rest {
        Ok(records) => Ok(done + records),
        Err(failure) => Err(failure),
    }
}

/// Reading from a record on is that record followed by reading from the
/// next.
pub proof fn lemma_step(
    lines: Seq<Seq<char>>,
    widths: Seq<LineWidths>,
    done: Seq<SubtitleView>,
    at: int,
)
    requires
        0 <= at < lines.len(),
    ensures
        match record_at(lines, widths, at) {
            Ok((record, next)) => followed_by(done, records_from(lines, widths, at))
                == followed_by(done.push(record), records_from(lines, widths, next)),
            Err(failure) => followed_by(done, records_from(lines, widths, at)) == Err::<
                Seq<SubtitleView>,
                Diagnostic,
            >(failure),
        },
{
    match record_at(lines, widths, at) {
        Ok((record, next)) => {
            match records_from(lines, widths, next) {
                Ok(rest) => {
                    assert(done + (seq![record] + rest) =~= done.push(record) + rest);
                },
                Err(_) => {},
            }
        },
        Err(_) => {},
    }
}

/// Measures the lines: the width of each, and of what stands on either side
/// of its first arrow.
pub fn measure(lines: &Vec<Vec<char>>) -> (widths: Vec<LineWidths>)
    ensures
        widths@ == all_widths(line_texts(lines@)),
{
    let ghost texts: Seq<Seq<char>> = line_texts(lines@);
    let arrow_chars: Vec<char> = vec![' ', '-', '-', '>', ' '];
    assert(arrow_chars@ =~= arrow());
    let arrow_width: usize = width_of(arrow_chars.as_slice());
    let n: usize = lines.len();
    let mut widths: Vec<LineWidths> = Vec::new();
    let mut at: usize = 0;
    while at < n
        invariant
            at <= n,
            n == lines@.len(),
            texts == line_texts(lines@),
            arrow_chars@ == arrow(),
            arrow_width == display_width(arrow()),
            widths@ == all_widths(texts).take(at as int),
        decreases n - at,
    {
        let line: &[char] = lines[at].as_slice();
        assert(line@ == texts[at as int]);
        let width: usize = width_of(line);
        let entry: LineWidths = match split_once_at(line, arrow_chars.as_slice()) {
            Some((before, after)) => LineWidths {
                line: width,
                before: width_of(before),
                arrow: arrow_width,
                after: width_of(after),
            },
            None => LineWidths { line: width, before: 0, arrow: 0, after: 0 },
        };
        widths.push(entry);
        assert(all_widths(texts).take(at + 1) =~= all_widths(texts).take(at as int).push(entry));
        at = at + 1;
    }
    assert(all_widths(texts).take(n as int) =~= all_widths(texts));
    widths
}

/// Whether every column that reading lines of these widths can arrive at
/// fits in a `usize`.
pub fn columns_fit(widths: &Vec<LineWidths>) -> (fit: bool)
    ensures
        fit == (columns(widths@) <= usize::MAX),
{
    let n: usize = widths.len();
    let mut total: usize = 0;
    let mut at: usize = 0;
    while at < n
        invariant
            at <= n,
            n == widths@.len(),
            total == columns_upto(widths@, at as int),
        decreases n - at,
    {
        let entry: LineWidths = widths[at];
        proof {
            lemma_columns(widths@, at + 1, n as int);
        }
        let mut needed: Option<usize> = total.checked_add(entry.line);
        needed = sum(needed, 1);
        needed = sum(needed, entry.before);
        needed = sum(needed, entry.arrow);
        needed = sum(needed, entry.after);
        match needed {
            Some(next) => {
                total = next;
            },
            None => {
                return false;
            },
        }
        at = at + 1;
    }
    true
}

/// Adds `more` to a sum that may already have left the range of `usize`.
fn sum(so_far: Option<usize>, more: usize) -> (total: Option<usize>)
    ensures
        match total {
            Some(value) => so_far is Some && value == so_far->0 + more,
            None => so_far is None || so_far->0 + more > usize::MAX,
        },
{
    match so_far {
        Some(value) => value.checked_add(more),
        None => None,
    }
}

/// Reads the records out of the lines of a text. `widths` holds the widths
/// of the lines, one entry for each line; the columns of a failure are sums
/// of these.
pub fn parse_lines(lines: &Vec<Vec<char>>, widths: &Vec<LineWidths>) -> (result: Result<
    Vec<Subtitle>,
    ParseError,
>)
    requires
        widths@.len() == lines@.len(),
        columns(widths@) <= usize::MAX,
    ensures
        match result {
            Ok(subtitles) => records_from(line_texts(lines@), widths@, 0) == Ok::<
                Seq<SubtitleView>,
                Diagnostic,
            >(views(subtitles@)),
            Err(error) => error.well_formed() && error.range.end <= columns(widths@)
                && records_from(line_texts(lines@), widths@, 0) == Err::<
                Seq<SubtitleView>,
                Diagnostic,
            >(error@),
        },
{
    let ghost texts: Seq<Seq<char>> = line_texts(lines@);
    let arrow_chars: Vec<char> = vec![' ', '-', '-', '>', ' '];
    assert(arrow_chars@ =~= arrow());
    let n: usize = lines.len();
    let mut subtitles: Vec<Subtitle> = Vec::new();
    let mut at: usize = 0;
    let mut index: usize = 0;
    assert(views(subtitles@) =~= Seq::<SubtitleView>::empty());
    assert(followed_by(views(subtitles@), records_from(texts, widths@, 0)) == records_from(
        texts,
        widths@,
        0,
    )) by {
        match records_from(texts, widths@, 0) {
            Ok(records) => {
                assert(Seq::<SubtitleView>::empty() + records =~= records);
            },
            Err(_) => {},
        }
    }
    while at < n
        invariant
            at <= n,
            n == lines@.len(),
            n == widths@.len(),
            texts == line_texts(lines@),
            arrow_chars@ == arrow(),
            index == line_offset(widths@, at as int),
            columns(widths@) <= usize::MAX,
            records_from(texts, widths@, 0) == followed_by(
                views(subtitles@),
                records_from(texts, widths@, at as int),
            ),
        decreases n - at,
    {
        proof {
            reveal(record_at);
            lemma_step(texts, widths@, views(subtitles@), at as int);
            lemma_columns(widths@, at + 1, n as int);
            lemma_body_end(texts, at + 2);
        }
        let number_line: &[char] = lines[at].as_slice();
        assert(number_line@ == texts[at as int]);
        let number_width: usize = widths[at].line;
        let number: u32 = match read_number(number_line) {
            Some(number) => number,
            None => {
                return Err(number_failure(number_line, index, index + number_width));
            },
        };
        let time_index: usize = index + number_width + 1;
        if at + 1 >= n {
            return Err(missing_time_failure(number_line, time_index));
        }
        proof {
            lemma_columns(widths@, at + 2, n as int);
        }
        let time_line: &[char] = lines[at + 1].as_slice();
        assert(time_line@ == texts[at + 1]);
        let time_widths: LineWidths = widths[at + 1];
        let (from_text, to_text): (&[char], &[char]) = match split_once_at(
            time_line,
            arrow_chars.as_slice(),
        ) {
            Some(parts) => parts,
            None => {
                return Err(
                    missing_arrow_failure(number_line, time_index, time_index + time_widths.line),
                );
            },
        };
        let from: u64 = match time_at(from_text, time_index, time_widths.before) {
            Ok(from) => from,
            Err(error) => {
                return Err(error);
            },
        };
        let to_index: usize = time_index + time_widths.before + time_widths.arrow;
        let to: u64 = match time_at(to_text, to_index, time_widths.after) {
            Ok(to) => to,
            Err(error) => {
                return Err(error);
            },
        };
        let mut body: Vec<String> = Vec::new();
        let mut stop: usize = at + 2;
        let mut next_index: usize = time_index + time_widths.line + 1;
        assert(string_texts(body@) =~= texts.subrange(at + 2, stop as int));
        while stop < n && lines[stop].len() > 0
            invariant
                at + 2 <= stop <= n,
                n == lines@.len(),
                n == widths@.len(),
                texts == line_texts(lines@),
                string_texts(body@) == texts.subrange(at + 2, stop as int),
                body_end(texts, at + 2) == body_end(texts, stop as int),
                next_index == line_offset(widths@, stop as int),
                columns(widths@) <= usize::MAX,
            decreases n - stop,
        {
            let line: &[char] = lines[stop].as_slice();
            assert(line@ == texts[stop as int]);
            proof {
                lemma_columns(widths@, stop + 1, n as int);
            }
            next_index = next_index + widths[stop].line + 1;
            let ghost before: Seq<Seq<char>> = string_texts(body@);
            body.push(string_from_chars(line));
            assert(string_texts(body@) =~= before.push(line@));
            assert(texts.subrange(at + 2, stop + 1) =~= texts.subrange(at + 2, stop as int).push(
                texts[stop as int],
            ));
            stop = stop + 1;
        }
        let next: usize = if stop < n {
            proof {
                lemma_columns(widths@, stop + 1, n as int);
            }
            next_index = next_index + widths[stop].line + 1;
            stop + 1
        } else {
            stop
        };
        let subtitle: Subtitle = Subtitle { number, from, to, lines: body };
        let ghost done: Seq<SubtitleView> = views(subtitles@);
        subtitles.push(subtitle);
        assert(views(subtitles@) =~= done.push(subtitle@));
        at = next;
        index = next_index;
    }
    proof {
        match records_from(texts, widths@, 0) {
            Ok(records) => {
                assert(views(subtitles@) + Seq::<SubtitleView>::empty() =~= views(subtitles@));
            },
            Err(_) => {},
        }
    }
    Ok(subtitles)
}

/// Reads the subtitles out of `text`, whose line ends are line feeds.
///
/// The result is every record of the text, in order, or the failure of the
/// first record that cannot be read: see [`record_at`] for the failures and
/// the place each of them covers.
///
/// The columns of a failure are sums of displayed widths. The text must be
/// such that they fit in a `usize`; [`parse_srt_checked`] tests that first.
pub fn parse_srt(text: &str) -> (result: Result<Vec<Subtitle>, ParseError>)
    requires
        column_bound(text@) <= usize::MAX,
    ensures
        match result {
            Ok(subtitles) => parse_text(text@) == Ok::<Seq<SubtitleView>, Diagnostic>(
                views(subtitles@),
            ),
            Err(error) => error.well_formed() && error.range.end <= column_bound(text@)
                && parse_text(text@) == Err::<Seq<SubtitleView>, Diagnostic>(error@),
        },
{
    let chars: Vec<char> = collect_chars(text);
    let lines: Vec<Vec<char>> = split_lines(chars.as_slice());
    let widths: Vec<LineWidths> = measure(&lines);
    parse_lines(&lines, &widths)
}

/// Reads the subtitles out of `text` as [`parse_srt`] does, after testing
/// that the columns fit. `None` where they do not, and only there.
pub fn parse_srt_checked(text: &str) -> (result: Option<Result<Vec<Subtitle>, ParseError>>)
    ensures
        result is Some <==> column_bound(text@) <= usize::MAX,
        match result {
            Some(Ok(subtitles)) => parse_text(text@) == Ok::<Seq<SubtitleView>, Diagnostic>(
                views(subtitles@),
            ),
            Some(Err(error)) => error.well_formed() && error.range.end <= column_bound(text@)
                && parse_text(text@) == Err::<Seq<SubtitleView>, Diagnostic>(error@),
            None => true,
        },
{
    let chars: Vec<char> = collect_chars(text);
    let lines: Vec<Vec<char>> = split_lines(chars.as_slice());
    let widths: Vec<LineWidths> = measure(&lines);
    if columns_fit(&widths) {
        Some(parse_srt(text))
    } else {
        None
    }
}

} // verus!
