//! Text as a sequence of characters: searching, splitting at a separator,
//! cutting into lines, and moving between `str`, `String` and `Vec<char>`.

use vstd::prelude::*;
use vstd::slice::slice_subrange;

verus! {

/// Whether `pattern` stands at the very start of `text`.
pub open spec fn starts_with(text: Seq<char>, pattern: Seq<char>) -> bool {
    pattern.len() <= text.len() && text.take(pattern.len() as int) == pattern
}

/// Where `pattern` first occurs in `text`, counted in characters from the
/// start. Where it does not occur at all the result is `text.len()`, which
/// leaves no room for a pattern of one character or more.
pub open spec fn find(text: Seq<char>, pattern: Seq<char>) -> nat
    decreases text.len(),
{
    if text.len() == 0 || text.len() < pattern.len() {
        text.len()
    } else if starts_with(text, pattern) {
        0
    } else {
        1 + find(text.skip(1), pattern)
    }
}

/// Whether `pattern` occurs in `text`.
pub open spec fn contains(text: Seq<char>, pattern: Seq<char>) -> bool {
    find(text, pattern) + pattern.len() <= text.len()
}

/// `text` cut at the first occurrence of `pattern`: what stands before it
/// and what stands after it. `None` where `pattern` does not occur.
#[verifier::opaque]
pub open spec fn split_once(text: Seq<char>, pattern: Seq<char>) -> Option<
    (Seq<char>, Seq<char>),
>
    recommends
        pattern.len() > 0,
{
    let at = find(text, pattern) as int;
    if contains(text, pattern) {
        Some((text.take(at), text.skip(at + pattern.len())))
    } else {
        None
    }
}

/// Whether `c` occurs in `text`.
pub open spec fn has_char(text: Seq<char>, c: char) -> bool {
    exists|i: int| 0 <= i < text.len() && text[i] == c
}

/// A line without the carriage return that stood before its line feed.
pub open spec fn without_return(line: Seq<char>) -> Seq<char> {
    if line.len() > 0 && line.last() == '\r' {
        line.drop_last()
    } else {
        line
    }
}

/// The lines of `text`. A line ends at a line feed; the line feed, and a
/// carriage return directly before it, are not part of the line. What
/// follows the last line feed is a line of its own unless it is empty, and
/// keeps a carriage return at its end.
pub open spec fn lines_of(text: Seq<char>) -> Seq<Seq<char>>
    decreases text.len(),
{
    if text.len() == 0 {
        Seq::empty()
    } else {
        let end = find(text, seq!['\n']) as int;
        if end >= text.len() {
            seq![text]
        } else {
            seq![without_return(text.take(end))] + lines_of(text.skip(end + 1))
        }
    }
}

/// `text` without any occurrence of `a` or of `b`.
pub open spec fn without(text: Seq<char>, a: char, b: char) -> Seq<char>
    decreases text.len(),
{
    if text.len() == 0 {
        Seq::empty()
    } else if text.last() == a || text.last() == b {
        without(text.drop_last(), a, b)
    } else {
        without(text.drop_last(), a, b).push(text.last())
    }
}

/// The texts that a vector of character buffers holds.
pub open spec fn line_texts(lines: Seq<Vec<char>>) -> Seq<Seq<char>> {
    Seq::new(lines.len(), |i: int| lines[i]@)
}

/// The texts that a vector of strings holds.
pub open spec fn string_texts(lines: Seq<String>) -> Seq<Seq<char>> {
    Seq::new(lines.len(), |i: int| lines[i]@)
}

/// A pattern that stands at `at`, and nowhere before, is found at `at`.
pub proof fn lemma_find_first(text: Seq<char>, pattern: Seq<char>, at: int)
    requires
        0 <= at,
        at + pattern.len() <= text.len(),
        starts_with(text.skip(at), pattern),
        forall|j: int| 0 <= j < at ==> !starts_with(#[trigger] text.skip(j), pattern),
    ensures
        find(text, pattern) == at,
    decreases at,
{
    assert(text.skip(0) =~= text);
    if at > 0 {
        let rest = text.skip(1);
        assert(rest.skip(at - 1) =~= text.skip(at));
        assert forall|j: int| 0 <= j < at - 1 implies !starts_with(
            #[trigger] rest.skip(j),
            pattern,
        ) by {
            assert(rest.skip(j) =~= text.skip(j + 1));
        }
        lemma_find_first(rest, pattern, at - 1);
    }
}

/// A pattern that stands nowhere is not found.
pub proof fn lemma_find_none(text: Seq<char>, pattern: Seq<char>)
    requires
        pattern.len() > 0,
        forall|j: int| 0 <= j < text.len() ==> !starts_with(#[trigger] text.skip(j), pattern),
    ensures
        find(text, pattern) == text.len(),
    decreases text.len(),
{
    assert(text.skip(0) =~= text);
    if text.len() > 0 && text.len() >= pattern.len() {
        let rest = text.skip(1);
        assert forall|j: int| 0 <= j < rest.len() implies !starts_with(
            #[trigger] rest.skip(j),
            pattern,
        ) by {
            assert(rest.skip(j) =~= text.skip(j + 1));
        }
        lemma_find_none(rest, pattern);
    }
}

/// A one-character pattern stands at `at` exactly where that character is.
pub proof fn lemma_starts_with_char(text: Seq<char>, c: char, at: int)
    requires
        0 <= at <= text.len(),
    ensures
        starts_with(text.skip(at), seq![c]) <==> (at < text.len() && text[at] == c),
{
    if at < text.len() {
        assert(text.skip(at).take(1) =~= seq![text[at]]);
        assert(seq![text[at]][0] == text[at]);
        assert(seq![c][0] == c);
    }
}

/// A character that first occurs at `at` is found there; one that does not
/// occur is found at `text.len()`.
pub proof fn lemma_find_char(text: Seq<char>, c: char, at: int)
    requires
        0 <= at <= text.len(),
        forall|j: int| 0 <= j < at ==> text[j] != c,
        at < text.len() ==> text[at] == c,
    ensures
        find(text, seq![c]) == at,
{
    assert forall|j: int| 0 <= j < at implies !starts_with(#[trigger] text.skip(j), seq![c]) by {
        lemma_starts_with_char(text, c, j);
    }
    if at < text.len() {
        lemma_starts_with_char(text, c, at);
        lemma_find_first(text, seq![c], at);
    } else {
        lemma_find_none(text, seq![c]);
    }
}

/// A pattern that follows a text free of the pattern's first character is
/// found right behind that text.
pub proof fn lemma_split_after(head: Seq<char>, pattern: Seq<char>, tail: Seq<char>)
    requires
        pattern.len() > 0,
        !has_char(head, pattern[0]),
    ensures
        split_once(head + pattern + tail, pattern) == Some((head, tail)),
{
    reveal(split_once);
    let text = head + pattern + tail;
    let at = head.len() as int;
    assert(text.skip(at).take(pattern.len() as int) =~= pattern);
    assert forall|j: int| 0 <= j < at implies !starts_with(#[trigger] text.skip(j), pattern) by {
        if starts_with(text.skip(j), pattern) {
            assert(text.skip(j).take(pattern.len() as int)[0] == pattern[0]);
            assert(text.skip(j).take(pattern.len() as int)[0] == head[j]);
        }
    }
    lemma_find_first(text, pattern, at);
    assert(text.take(at) =~= head);
    assert(text.skip(at + pattern.len()) =~= tail);
}

/// The first line of a text that goes on after a line feed, and the lines
/// that follow it.
pub proof fn lemma_lines_cons(line: Seq<char>, rest: Seq<char>)
    requires
        !has_char(line, '\n'),
    ensures
        lines_of(line + seq!['\n'] + rest) == seq![without_return(line)] + lines_of(rest),
{
    let text = line + seq!['\n'] + rest;
    let at = line.len() as int;
    assert forall|j: int| 0 <= j < at implies text[j] != '\n' by {
        assert(text[j] == line[j]);
    }
    assert(text[at] == '\n');
    lemma_find_char(text, '\n', at);
    assert(text.take(at) =~= line);
    assert(text.skip(at + 1) =~= rest);
}

/// Dropping two characters from a text, one character at a time.
pub proof fn lemma_without_push(text: Seq<char>, c: char, a: char, b: char)
    ensures
        without(text.push(c), a, b) == if c == a || c == b {
            without(text, a, b)
        } else {
            without(text, a, b).push(c)
        },
{
    assert(text.push(c).drop_last() =~= text);
}

/// The characters of a string slice, in a vector.
pub fn collect_chars(text: &str) -> (chars: Vec<char>)
    ensures
        chars@ == text@,
{
    let mut chars: Vec<char> = Vec::new();
    for c in it: text.chars()
        invariant
            chars@ == it.seq().take(it.index()),
            it.seq() == text@,
    {
        chars.push(c);
    }
    chars
}

/// Builds a string out of characters, through `String::from_iter` of the
/// standard library. The contract says that the string holds exactly the
/// characters it was given, in their order.
#[verifier::external_body]
pub(crate) fn string_from_chars(chars: &[char]) -> (text: String)
    ensures
        text@ == chars@,
{
    String::from_iter(chars)
}

/// Appends the characters of `text` to `out`.
pub fn push_str(out: &mut Vec<char>, text: &str)
    ensures
        final(out)@ == old(out)@ + text@,
{
    let ghost start: Seq<char> = out@;
    for c in it: text.chars()
        invariant
            out@ == start + it.seq().take(it.index()),
            it.seq() == text@,
    {
        out.push(c);
    }
}

/// A copy of the characters from `from` up to, not including, `to`.
pub fn copy_range(chars: &[char], from: usize, to: usize) -> (part: Vec<char>)
    requires
        from <= to <= chars@.len(),
    ensures
        part@ == chars@.subrange(from as int, to as int),
{
    let mut part: Vec<char> = Vec::new();
    let mut i: usize = from;
    while i < to
        invariant
            from <= i <= to <= chars@.len(),
            part@ == chars@.subrange(from as int, i as int),
        decreases to - i,
    {
        part.push(chars[i]);
        i = i + 1;
    }
    part
}

/// Whether `pattern` stands in `text` at `at`.
pub fn matches_at(text: &[char], pattern: &[char], at: usize) -> (found: bool)
    requires
        at <= text@.len(),
    ensures
        found == starts_with(text@.skip(at as int), pattern@),
{
    let n: usize = text.len();
    let m: usize = pattern.len();
    if m > n - at {
        return false;
    }
    let mut k: usize = 0;
    while k < m
        invariant
            k <= m,
            m == pattern@.len(),
            n == text@.len(),
            at + m <= n,
            forall|j: int| 0 <= j < k ==> text@[at + j] == pattern@[j],
        decreases m - k,
    {
        if text[at + k] != pattern[k] {
            assert(text@.skip(at as int).take(m as int)[k as int] != pattern@[k as int]);
            return false;
        }
        k = k + 1;
    }
    assert(text@.skip(at as int).take(m as int) =~= pattern@);
    true
}

/// Where `pattern` first occurs in `text`, if it does.
pub fn find_in(text: &[char], pattern: &[char]) -> (place: Option<usize>)
    requires
        pattern@.len() > 0,
    ensures
        match place {
            Some(at) => contains(text@, pattern@) && at == find(text@, pattern@),
            None => !contains(text@, pattern@),
        },
{
    let n: usize = text.len();
    let mut at: usize = 0;
    while at < n
        invariant
            at <= n,
            n == text@.len(),
            forall|j: int| 0 <= j < at ==> !starts_with(#[trigger] text@.skip(j), pattern@),
        decreases n - at,
    {
        if matches_at(text, pattern, at) {
            proof {
                lemma_find_first(text@, pattern@, at as int);
            }
            return Some(at);
        }
        at = at + 1;
    }
    proof {
        lemma_find_none(text@, pattern@);
    }
    None
}

/// Cuts `text` at the first occurrence of `pattern`.
pub fn split_once_at<'a>(text: &'a [char], pattern: &[char]) -> (parts: Option<
    (&'a [char], &'a [char]),
>)
    requires
        pattern@.len() > 0,
    ensures
        match parts {
            Some((head, tail)) => split_once(text@, pattern@) == Some((head@, tail@)),
            None => split_once(text@, pattern@) is None,
        },
{
    proof {
        reveal(split_once);
    }
    match find_in(text, pattern) {
        Some(at) => {
            let n: usize = text.len();
            let head: &[char] = slice_subrange(text, 0, at);
            let tail: &[char] = slice_subrange(text, at + pattern.len(), n);
            Some((head, tail))
        },
        None => None,
    }
}

/// Cuts `text` into its lines.
pub fn split_lines(text: &[char]) -> (lines: Vec<Vec<char>>)
    ensures
        line_texts(lines@) == lines_of(text@),
{
    let n: usize = text.len();
    let mut lines: Vec<Vec<char>> = Vec::new();
    let mut start: usize = 0;
    assert(text@.skip(0) =~= text@);
    assert(line_texts(lines@) =~= Seq::<Seq<char>>::empty());
    while start < n
        invariant
            start <= n,
            n == text@.len(),
            lines_of(text@) == line_texts(lines@) + lines_of(text@.skip(start as int)),
        decreases n - start,
    {
        let ghost rest: Seq<char> = text@.skip(start as int);
        let mut end: usize = start;
        while end < n && text[end] != '\n'
            invariant
                start <= end <= n,
                n == text@.len(),
                forall|j: int| start <= j < end ==> text@[j] != '\n',
            decreases n - end,
        {
            end = end + 1;
        }
        proof {
            lemma_find_char(rest, '\n', end - start);
        }
        let ghost before: Seq<Seq<char>> = line_texts(lines@);
        if end == n {
            let line: Vec<char> = copy_range(text, start, n);
            lines.push(line);
            proof {
                assert(line@ =~= rest);
                assert(line_texts(lines@) =~= before + seq![rest]);
                assert(text@.skip(n as int) =~= Seq::<char>::empty());
                assert(before + seq![rest] + Seq::<Seq<char>>::empty() =~= before + seq![rest]);
            }
            start = n;
        } else {
            let stop: usize = if end > start && text[end - 1] == '\r' {
                end - 1
            } else {
                end
            };
            let line: Vec<char> = copy_range(text, start, stop);
            lines.push(line);
            proof {
                let whole: Seq<char> = rest.take(end - start);
                assert(whole =~= text@.subrange(start as int, end as int));
                if end > start {
                    assert(whole.last() == text@[end - 1]);
                }
                assert(line@ =~= without_return(whole));
                assert(line_texts(lines@) =~= before + seq![without_return(whole)]);
                assert(rest.skip(end - start + 1) =~= text@.skip(end + 1));
                assert(before + (seq![without_return(whole)] + lines_of(text@.skip(end + 1)))
                    =~= before + seq![without_return(whole)] + lines_of(text@.skip(end + 1)));
            }
            start = end + 1;
        }
    }
    assert(text@.skip(n as int) =~= Seq::<char>::empty());
    assert(line_texts(lines@) + Seq::<Seq<char>>::empty() =~= line_texts(lines@));
    lines
}

/// `text` without any occurrence of `a` or of `b`.
pub fn strip_chars(text: &str, a: char, b: char) -> (stripped: String)
    ensures
        stripped@ == without(text@, a, b),
{
    let mut kept: Vec<char> = Vec::new();
    for c in it: text.chars()
        invariant
            kept@ == without(it.seq().take(it.index()), a, b),
            it.seq() == text@,
    {
        proof {
            let seen: Seq<char> = it.seq().take(it.index());
            assert(it.seq().take(it.index() + 1) =~= seen.push(c));
            lemma_without_push(seen, c, a, b);
        }
        if c != a && c != b {
            kept.push(c);
        }
    }
    assert(text@.take(text@.len() as int) =~= text@);
    string_from_chars(kept.as_slice())
}

/// `text` as the parser wants it: without carriage returns, so that every
/// line ends in a line feed alone, and without byte order marks.
pub fn normalize(text: &str) -> (clean: String)
    ensures
        clean@ == without(text@, '\r', '\u{feff}'),
{
    strip_chars(text, '\r', '\u{feff}')
}

} // verus!
