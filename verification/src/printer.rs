//! Writing subtitles back as text.

use crate::decimal::{decimal, write_padded};
use crate::parser::arrow;
use crate::subtitle::{views, Subtitle, SubtitleView};
use crate::text::{push_str, string_from_chars, string_texts};
use crate::time::{time_text, write_time};
use vstd::prelude::*;

verus! {

/// The lines of a body, each followed by a line feed.
pub open spec fn body_text(lines: Seq<Seq<char>>) -> Seq<char>
    decreases lines.len(),
{
    if lines.len() == 0 {
        Seq::empty()
    } else {
        body_text(lines.drop_last()) + lines.last() + seq!['\n']
    }
}

/// The line that says when a subtitle is shown: start, arrow, end.
pub open spec fn time_line(from: nat, to: nat) -> Seq<char> {
    time_text(from) + arrow() + time_text(to)
}

/// A subtitle as text: the line with its number, the line with its times,
/// and its body, each line followed by a line feed.
pub open spec fn record_text(subtitle: SubtitleView) -> Seq<char> {
    decimal(subtitle.number) + seq!['\n'] + time_line(subtitle.from, subtitle.to) + seq!['\n']
        + body_text(subtitle.lines)
}

/// Subtitles as text: each one followed by an empty line, the last one too.
pub open spec fn records_text(subtitles: Seq<SubtitleView>) -> Seq<char>
    decreases subtitles.len(),
{
    if subtitles.len() == 0 {
        Seq::empty()
    } else {
        records_text(subtitles.drop_last()) + record_text(subtitles.last()) + seq!['\n']
    }
}

/// Appends `subtitle`, as text, to `out`.
pub fn write_subtitle(out: &mut Vec<char>, subtitle: &Subtitle)
    ensures
        final(out)@ == old(out)@ + record_text(subtitle@),
{
    let ghost start: Seq<char> = out@;
    write_padded(out, subtitle.number as u64, 0);
    out.push('\n');
    write_time(out, subtitle.from);
    out.push(' ');
    out.push('-');
    out.push('-');
    out.push('>');
    out.push(' ');
    write_time(out, subtitle.to);
    out.push('\n');
    let ghost head: Seq<char> = out@;
    let ghost lines: Seq<Seq<char>> = string_texts(subtitle.lines@);
    assert(head =~= start + decimal(subtitle.number as nat) + seq!['\n'] + time_line(
        subtitle.from as nat,
        subtitle.to as nat,
    ) + seq!['\n']);
    let n: usize = subtitle.lines.len();
    let mut i: usize = 0;
    assert(lines.take(0) =~= Seq::<Seq<char>>::empty());
    assert(head + body_text(lines.take(0)) =~= head);
    while i < n
        invariant
            i <= n,
            n == subtitle.lines@.len(),
            lines == string_texts(subtitle.lines@),
            out@ == head + body_text(lines.take(i as int)),
        decreases n - i,
    {
        push_str(out, subtitle.lines[i].as_str());
        out.push('\n');
        proof {
            let upto: Seq<Seq<char>> = lines.take(i + 1);
            assert(upto.drop_last() =~= lines.take(i as int));
            assert(upto.last() == subtitle.lines@[i as int]@);
            assert(out@ =~= head + body_text(upto));
        }
        i = i + 1;
    }
    assert(lines.take(n as int) =~= lines);
    assert(out@ =~= start + record_text(subtitle@));
}

/// Writes one subtitle: its number, its times and its lines, each on a line
/// of its own.
pub fn print_subtitle(subtitle: &Subtitle) -> (text: String)
    ensures
        text@ == record_text(subtitle@),
{
    let mut out: Vec<char> = Vec::new();
    write_subtitle(&mut out, subtitle);
    assert(Seq::<char>::empty() + record_text(subtitle@) =~= record_text(subtitle@));
    string_from_chars(out.as_slice())
}

/// Writes the subtitles one after another, an empty line behind each.
pub fn print_subtitles(subtitles: &[Subtitle]) -> (text: String)
    ensures
        text@ == records_text(views(subtitles@)),
{
    let ghost records: Seq<SubtitleView> = views(subtitles@);
    let mut out: Vec<char> = Vec::new();
    let n: usize = subtitles.len();
    let mut i: usize = 0;
    assert(records.take(0) =~= Seq::<SubtitleView>::empty());
    while i < n
        invariant
            i <= n,
            n == subtitles@.len(),
            records == views(subtitles@),
            out@ == records_text(records.take(i as int)),
        decreases n - i,
    {
        write_subtitle(&mut out, &subtitles[i]);
        out.push('\n');
        proof {
            let upto: Seq<SubtitleView> = records.take(i + 1);
            assert(upto.drop_last() =~= records.take(i as int));
            assert(upto.last() == subtitles@[i as int]@);
        }
        i = i + 1;
    }
    assert(records.take(n as int) =~= records);
    string_from_chars(out.as_slice())
}

} // verus!
