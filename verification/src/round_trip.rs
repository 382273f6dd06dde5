//! Reading what was written gives the subtitles back.

use crate::decimal::{
    decimal, is_digit, lemma_decimal, lemma_padded, lemma_parse_padded, padded, parse_number,
};
use crate::diagnostic::Diagnostic;
use crate::parser::{
    all_widths, arrow, body_end, followed_by, lemma_step, parse_text, record_at, records_from,
    LineWidths,
};
use crate::printer::{body_text, record_text, records_text, time_line};
use crate::subtitle::SubtitleView;
use crate::text::{
    has_char, lemma_lines_cons, lemma_split_after, lines_of, split_once, without_return,
};
use crate::time::{decode_time, lemma_time_round_trip, time_text, TimeFault};
use vstd::prelude::*;

verus! {

/// A line that comes back as it was written: not empty, without a line
/// feed, and without a carriage return at its end.
pub open spec fn plain_line(line: Seq<char>) -> bool {
    line.len() > 0 && !has_char(line, '\n') && line.last() != '\r'
}

/// A subtitle that comes back as it was written. Its number is a 32-bit
/// number, the hours of its times are 32-bit numbers, and each line of its
/// body is plain. Of any other subtitle the text reads as something else:
/// an empty line ends the body early, a line feed makes two lines of one,
/// a carriage return before a line end is dropped, and hours beyond 32 bits
/// are no timestamp.
pub open spec fn reads_back(subtitle: SubtitleView) -> bool {
    &&& subtitle.number <= u32::MAX
    &&& subtitle.from / 3_600_000 <= u32::MAX
    &&& subtitle.to / 3_600_000 <= u32::MAX
    &&& forall|i: int| 0 <= i < subtitle.lines.len() ==> plain_line(#[trigger] subtitle.lines[i])
}

/// The lines that a subtitle is written as, the empty line behind it
/// included.
pub open spec fn record_lines(subtitle: SubtitleView) -> Seq<Seq<char>> {
    seq![decimal(subtitle.number), time_line(subtitle.from, subtitle.to)] + subtitle.lines
        + seq![Seq::<char>::empty()]
}

/// The lines that subtitles are written as.
pub open spec fn all_lines(subtitles: Seq<SubtitleView>) -> Seq<Seq<char>>
    decreases subtitles.len(),
{
    if subtitles.len() == 0 {
        Seq::empty()
    } else {
        all_lines(subtitles.drop_last()) + record_lines(subtitles.last())
    }
}

/// Whether `c` can stand in a written timestamp.
pub open spec fn time_char(c: char) -> bool {
    is_digit(c) || c == ':' || c == ','
}

/// A written timestamp is made of digits, colons and a comma, and ends in a
/// digit.
pub proof fn lemma_time_text_chars(millis: nat)
    ensures
        time_text(millis).len() > 0,
        is_digit(time_text(millis).last()),
        forall|i: int|
            0 <= i < time_text(millis).len() ==> time_char(#[trigger] time_text(millis)[i]),
{
    reveal(time_text);
    let below_hour = millis % 3_600_000;
    let below_minute = below_hour % 60_000;
    let h = padded(millis / 3_600_000, 2);
    let m = padded(below_hour / 60_000, 2);
    let s = padded(below_minute / 1000, 2);
    let r = padded(below_minute % 1000, 3);
    lemma_padded(millis / 3_600_000, 2);
    lemma_padded(below_hour / 60_000, 2);
    lemma_padded(below_minute / 1000, 2);
    lemma_padded(below_minute % 1000, 3);
    let text = time_text(millis);
    assert(text =~= h + seq![':'] + m + seq![':'] + s + seq![','] + r);
    assert(text.last() == r.last());
    assert forall|i: int| 0 <= i < text.len() implies time_char(#[trigger] text[i]) by {
        let a = h.len() as int;
        let b = a + 1 + m.len();
        let c = b + 1 + s.len();
        if i < a {
            assert(text[i] == h[i]);
        } else if i == a {
        } else if i < b {
            assert(text[i] == m[i - a - 1]);
        } else if i == b {
        } else if i < c {
            assert(text[i] == s[i - b - 1]);
        } else if i == c {
        } else {
            assert(text[i] == r[i - c - 1]);
        }
    }
}

/// The line with the two times is cut at its arrow into the two written
/// timestamps; it holds no line feed and does not end in a carriage return.
pub proof fn lemma_time_line(from: nat, to: nat)
    ensures
        split_once(time_line(from, to), arrow()) == Some(
            (time_text(from), time_text(to)),
        ),
        !has_char(time_line(from, to), '\n'),
        without_return(time_line(from, to)) == time_line(from, to),
{
    lemma_time_text_chars(from);
    lemma_time_text_chars(to);
    let a = time_text(from);
    let b = time_text(to);
    let line = time_line(from, to);
    assert(!has_char(a, ' ')) by {
        assert forall|i: int| 0 <= i < a.len() implies a[i] != ' ' by {
            assert(time_char(a[i]));
        }
    }
    assert(arrow()[0] == ' ');
    lemma_split_after(a, arrow(), b);
    assert(line.last() == b.last());
    assert forall|i: int| 0 <= i < line.len() implies line[i] != '\n' by {
        if i < a.len() {
            assert(time_char(a[i]));
        } else if i < a.len() + 5 {
            assert(line[i] == arrow()[i - a.len()]);
        } else {
            assert(line[i] == b[i - a.len() - 5]);
            assert(time_char(b[i - a.len() - 5]));
        }
    }
}

/// A written number holds no line feed and does not end in a carriage
/// return.
pub proof fn lemma_number_line(number: nat)
    ensures
        !has_char(decimal(number), '\n'),
        without_return(decimal(number)) == decimal(number),
{
    lemma_decimal(number);
    assert(is_digit(decimal(number).last()));
}

/// Plain lines, written one after another, are read as those lines.
pub proof fn lemma_body_lines(lines: Seq<Seq<char>>, rest: Seq<char>)
    requires
        forall|i: int| 0 <= i < lines.len() ==> plain_line(#[trigger] lines[i]),
    ensures
        lines_of(body_text(lines) + rest) == lines + lines_of(rest),
    decreases lines.len(),
{
    if lines.len() == 0 {
        assert(body_text(lines) + rest =~= rest);
        assert(lines + lines_of(rest) =~= lines_of(rest));
    } else {
        let init = lines.drop_last();
        let last = lines.last();
        let tail = last + seq!['\n'] + rest;
        assert(plain_line(lines[lines.len() - 1]));
        assert forall|i: int| 0 <= i < init.len() implies plain_line(#[trigger] init[i]) by {
            assert(init[i] == lines[i]);
        }
        lemma_body_lines(init, tail);
        lemma_lines_cons(last, rest);
        assert(body_text(lines) + rest =~= body_text(init) + tail);
        assert(init + (seq![last] + lines_of(rest)) =~= lines + lines_of(rest));
    }
}

/// A written subtitle, and the empty line behind it, are read as the lines
/// of that subtitle.
pub proof fn lemma_record_lines(subtitle: SubtitleView, rest: Seq<char>)
    requires
        reads_back(subtitle),
    ensures
        lines_of(record_text(subtitle) + seq!['\n'] + rest) == record_lines(subtitle) + lines_of(
            rest,
        ),
{
    let number = decimal(subtitle.number);
    let times = time_line(subtitle.from, subtitle.to);
    let closing = Seq::<char>::empty() + seq!['\n'] + rest;
    let body = body_text(subtitle.lines) + closing;
    let below = times + seq!['\n'] + body;
    lemma_number_line(subtitle.number);
    lemma_time_line(subtitle.from, subtitle.to);
    lemma_lines_cons(number, below);
    lemma_lines_cons(times, body);
    lemma_body_lines(subtitle.lines, closing);
    lemma_lines_cons(Seq::<char>::empty(), rest);
    assert(record_text(subtitle) + seq!['\n'] + rest =~= number + seq!['\n'] + below);
    assert(seq![number] + (seq![times] + (subtitle.lines + (seq![Seq::<char>::empty()] + lines_of(
        rest,
    )))) =~= record_lines(subtitle) + lines_of(rest));
}

/// Written subtitles are read as the lines of those subtitles.
pub proof fn lemma_all_lines(subtitles: Seq<SubtitleView>, rest: Seq<char>)
    requires
        forall|i: int| 0 <= i < subtitles.len() ==> reads_back(#[trigger] subtitles[i]),
    ensures
        lines_of(records_text(subtitles) + rest) == all_lines(subtitles) + lines_of(rest),
    decreases subtitles.len(),
{
    if subtitles.len() == 0 {
        assert(records_text(subtitles) + rest =~= rest);
        assert(all_lines(subtitles) + lines_of(rest) =~= lines_of(rest));
    } else {
        let init = subtitles.drop_last();
        let last = subtitles.last();
        let tail = record_text(last) + seq!['\n'] + rest;
        assert(reads_back(subtitles[subtitles.len() - 1]));
        assert forall|i: int| 0 <= i < init.len() implies reads_back(#[trigger] init[i]) by {
            assert(init[i] == subtitles[i]);
        }
        lemma_all_lines(init, tail);
        lemma_record_lines(last, rest);
        assert(records_text(subtitles) + rest =~= records_text(init) + tail);
        assert(all_lines(init) + (record_lines(last) + lines_of(rest)) =~= all_lines(subtitles)
            + lines_of(rest));
    }
}

/// A body of lines that are not empty ends at the empty line behind it.
pub proof fn lemma_body_end_at(lines: Seq<Seq<char>>, from: int, stop: int)
    requires
        0 <= from <= stop < lines.len(),
        forall|j: int| from <= j < stop ==> (#[trigger] lines[j]).len() > 0,
        lines[stop].len() == 0,
    ensures
        body_end(lines, from) == stop,
    decreases stop - from,
{
    if from < stop {
        lemma_body_end_at(lines, from + 1, stop);
    }
}

/// Where the lines of a subtitle stand in a text from line `at` on, each of
/// them is found at its place.
pub proof fn lemma_lines_at(lines: Seq<Seq<char>>, at: int, subtitle: SubtitleView)
    requires
        0 <= at,
        at + record_lines(subtitle).len() <= lines.len(),
        lines.subrange(at, at + record_lines(subtitle).len()) == record_lines(subtitle),
    ensures
        record_lines(subtitle).len() == subtitle.lines.len() + 3,
        lines[at] == decimal(subtitle.number),
        lines[at + 1] == time_line(subtitle.from, subtitle.to),
        lines.subrange(at + 2, at + 2 + subtitle.lines.len()) == subtitle.lines,
        lines[at + 2 + subtitle.lines.len()].len() == 0,
{
    let written = record_lines(subtitle);
    let count = subtitle.lines.len() as int;
    assert forall|j: int| 0 <= j < written.len() implies lines[at + j] == written[j] by {
        assert(lines.subrange(at, at + written.len())[j] == lines[at + j]);
    }
    assert(lines[at + 0] == written[0]);
    assert(lines[at + 1] == written[1]);
    assert(lines[at + (count + 2)] == written[count + 2]);
    assert(lines.subrange(at + 2, at + 2 + count) =~= subtitle.lines) by {
        assert forall|j: int| 0 <= j < count implies lines.subrange(at + 2, at + 2 + count)[j]
            == subtitle.lines[j] by {
            assert(lines[at + (j + 2)] == written[j + 2]);
        }
    }
}

/// A record whose lines read as a number, two timestamps and a body that
/// ends at an empty line is that number, those times and that body.
pub proof fn lemma_record_read(
    lines: Seq<Seq<char>>,
    widths: Seq<LineWidths>,
    at: int,
    subtitle: SubtitleView,
    from_text: Seq<char>,
    to_text: Seq<char>,
    stop: int,
)
    requires
        0 <= at,
        at + 2 <= stop < lines.len(),
        subtitle.number <= u32::MAX,
        parse_number(lines[at]) == Some(subtitle.number as u32),
        split_once(lines[at + 1], arrow()) == Some((from_text, to_text)),
        decode_time(from_text) == Ok::<nat, TimeFault>(subtitle.from),
        decode_time(to_text) == Ok::<nat, TimeFault>(subtitle.to),
        body_end(lines, at + 2) == stop,
        lines.subrange(at + 2, stop) == subtitle.lines,
    ensures
        record_at(lines, widths, at) == Ok::<(SubtitleView, int), Diagnostic>(
            (subtitle, stop + 1),
        ),
{
    reveal(record_at);
    let read = SubtitleView {
        number: subtitle.number,
        from: subtitle.from,
        to: subtitle.to,
        lines: lines.subrange(at + 2, stop),
    };
    assert(read =~= subtitle);
}

/// Where the lines of a subtitle stand in a text from line `at` on, the
/// record read at `at` is that subtitle, and the next record starts behind
/// those lines.
pub proof fn lemma_record_at(
    lines: Seq<Seq<char>>,
    widths: Seq<LineWidths>,
    at: int,
    subtitle: SubtitleView,
)
    requires
        reads_back(subtitle),
        0 <= at,
        at + record_lines(subtitle).len() <= lines.len(),
        lines.subrange(at, at + record_lines(subtitle).len()) == record_lines(subtitle),
    ensures
        record_at(lines, widths, at) == Ok::<(SubtitleView, int), Diagnostic>(
            (subtitle, at + record_lines(subtitle).len()),
        ),
{
    let stop = at + 2 + subtitle.lines.len();
    lemma_lines_at(lines, at, subtitle);
    lemma_parse_padded(subtitle.number, 0);
    lemma_time_line(subtitle.from, subtitle.to);
    lemma_time_round_trip(subtitle.from);
    lemma_time_round_trip(subtitle.to);
    assert(body_end(lines, at + 2) == stop) by {
        assert forall|j: int| at + 2 <= j < stop implies (#[trigger] lines[j]).len() > 0 by {
            assert(lines[j] == lines.subrange(at + 2, stop)[j - at - 2]);
            assert(plain_line(subtitle.lines[j - at - 2]));
        }
        lemma_body_end_at(lines, at + 2, stop);
    }
    lemma_record_read(
        lines,
        widths,
        at,
        subtitle,
        time_text(subtitle.from),
        time_text(subtitle.to),
        stop,
    );
}

/// Reading the lines of subtitles that stand in a text from line `at` on
/// gives those subtitles, followed by what reading the rest gives.
pub proof fn lemma_records_from(
    lines: Seq<Seq<char>>,
    widths: Seq<LineWidths>,
    at: int,
    subtitles: Seq<SubtitleView>,
)
    requires
        forall|i: int| 0 <= i < subtitles.len() ==> reads_back(#[trigger] subtitles[i]),
        0 <= at,
        at + all_lines(subtitles).len() <= lines.len(),
        lines.subrange(at, at + all_lines(subtitles).len()) == all_lines(subtitles),
    ensures
        records_from(lines, widths, at) == followed_by(
            subtitles,
            records_from(lines, widths, at + all_lines(subtitles).len()),
        ),
    decreases subtitles.len(),
{
    if subtitles.len() == 0 {
        lemma_followed_by_none(records_from(lines, widths, at));
    } else {
        let init = subtitles.drop_last();
        let last = subtitles.last();
        let written = record_lines(last);
        let whole = all_lines(subtitles);
        let middle = at + all_lines(init).len();
        assert(whole == all_lines(init) + written);
        assert(reads_back(subtitles[subtitles.len() - 1]));
        assert forall|i: int| 0 <= i < init.len() implies reads_back(#[trigger] init[i]) by {
            assert(init[i] == subtitles[i]);
        }
        assert(lines.subrange(at, middle) =~= all_lines(init)) by {
            assert forall|j: int| 0 <= j < all_lines(init).len() implies lines.subrange(
                at,
                middle,
            )[j] == all_lines(init)[j] by {
                assert(lines.subrange(at, at + whole.len())[j] == whole[j]);
            }
        }
        assert(lines.subrange(middle, middle + written.len()) =~= written) by {
            assert forall|j: int| 0 <= j < written.len() implies lines.subrange(
                middle,
                middle + written.len(),
            )[j] == written[j] by {
                assert(lines.subrange(at, at + whole.len())[all_lines(init).len() + j]
                    == whole[all_lines(init).len() + j]);
            }
        }
        lemma_records_from(lines, widths, at, init);
        lemma_record_at(lines, widths, middle, last);
        lemma_step(lines, widths, init, middle);
        assert(init.push(last) =~= subtitles);
    }
}

/// Nothing, followed by what was read, is what was read.
pub proof fn lemma_followed_by_none(rest: Result<Seq<SubtitleView>, Diagnostic>)
    ensures
        followed_by(Seq::empty(), rest) == rest,
{
    match rest {
        Ok(records) => {
            assert(Seq::<SubtitleView>::empty() + records =~= records);
        },
        Err(_) => {},
    }
}

/// Writing subtitles and reading the text again gives the same subtitles,
/// for all subtitles that come back as they were written: see
/// [`reads_back`].
pub proof fn lemma_parse_inverts_print(subtitles: Seq<SubtitleView>)
    requires
        forall|i: int| 0 <= i < subtitles.len() ==> reads_back(#[trigger] subtitles[i]),
    ensures
        parse_text(records_text(subtitles)) == Ok::<Seq<SubtitleView>, Diagnostic>(subtitles),
{
    let lines = all_lines(subtitles);
    lemma_all_lines(subtitles, Seq::<char>::empty());
    assert(records_text(subtitles) + Seq::<char>::empty() =~= records_text(subtitles));
    assert(lines + lines_of(Seq::<char>::empty()) =~= lines);
    assert(lines.subrange(0, lines.len() as int) =~= lines);
    lemma_records_from(lines, all_widths(lines), 0, subtitles);
    assert(subtitles + Seq::<SubtitleView>::empty() =~= subtitles);
}

} // verus!
