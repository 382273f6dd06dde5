//! Moving every subtitle by one signed amount of time.
//!
//! The amount is a size and a sign, so that times and amounts are both
//! counted in unsigned milliseconds. A time is never cut off at zero: where
//! a subtitle would start or end before zero, or behind the largest count,
//! nothing is moved at all.

use crate::diagnostic::{Diagnostic, ParseError};
use crate::subtitle::{views, Subtitle, SubtitleView};
use crate::text::{strip_chars, without};
use crate::time::{parse_time, timestamp_at};
use crate::width::display_width;
use vstd::prelude::*;
use vstd::string::StrSliceExecFns;

verus! {

/// A signed amount of time: `millis` milliseconds, backwards where
/// `negative` is set.
#[derive(Clone, Copy, Debug, PartialEq, Eq)]
pub struct Delta {
    pub negative: bool,
    pub millis: u64,
}

impl Delta {
    /// The amount as a signed number of milliseconds.
    pub open spec fn value(self) -> int {
        if self.negative {
            -(self.millis as int)
        } else {
            self.millis as int
        }
    }
}

/// Why subtitles could not be moved. `record` is the place of the first
/// subtitle that stands in the way, counted from 0.
#[derive(Clone, Copy, Debug, PartialEq, Eq)]
pub enum AdjustmentError {
    /// The subtitle would start or end before zero.
    NegativeResult { record: usize },
    /// The subtitle would start or end behind the largest count.
    Overflow { record: usize },
}

/// Whether both times of a subtitle, moved by `delta`, are counts again.
pub open spec fn can_move(subtitle: SubtitleView, delta: int) -> bool {
    0 <= subtitle.from + delta <= u64::MAX && 0 <= subtitle.to + delta <= u64::MAX
}

/// A subtitle with both times moved by `delta`.
pub open spec fn moved(subtitle: SubtitleView, delta: int) -> SubtitleView {
    SubtitleView {
        number: subtitle.number,
        from: (subtitle.from + delta) as nat,
        to: (subtitle.to + delta) as nat,
        lines: subtitle.lines,
    }
}

/// The first subtitle at or after `from` that cannot be moved by `delta`;
/// the number of subtitles if every one can.
pub open spec fn first_stuck(subtitles: Seq<SubtitleView>, delta: int, from: int) -> int
    decreases subtitles.len() - from,
{
    if from >= subtitles.len() {
        subtitles.len() as int
    } else if !can_move(subtitles[from], delta) {
        from
    } else {
        first_stuck(subtitles, delta, from + 1)
    }
}

/// What moving subtitles by `delta` gives: every subtitle moved, or the
/// reason why the first one that stands in the way cannot be.
pub open spec fn adjusted(subtitles: Seq<SubtitleView>, delta: int) -> Result<
    Seq<SubtitleView>,
    AdjustmentError,
> {
    let stuck = first_stuck(subtitles, delta, 0);
    if stuck >= subtitles.len() {
        Ok(Seq::new(subtitles.len(), |i: int| moved(subtitles[i], delta)))
    } else if subtitles[stuck].from + delta < 0 || subtitles[stuck].to + delta < 0 {
        Err(AdjustmentError::NegativeResult { record: stuck as usize })
    } else {
        Err(AdjustmentError::Overflow { record: stuck as usize })
    }
}

/// The amount that a text denotes: a timestamp, read without any plus or
/// minus sign in it, and taken backwards where the text starts with a minus
/// sign.
pub open spec fn adjustment_of(text: Seq<char>) -> Result<int, Diagnostic> {
    let unsigned = without(text, '+', '-');
    match timestamp_at(unsigned, 0, display_width(unsigned) as int) {
        Ok(millis) => Ok(
            if text.len() > 0 && text[0] == '-' {
                -(millis as int)
            } else {
                millis as int
            },
        ),
        Err(failure) => Err(failure),
    }
}

/// What `first_stuck` returns: a place at or after `from`, before which
/// every subtitle can be moved, and at which one cannot.
pub proof fn lemma_first_stuck(subtitles: Seq<SubtitleView>, delta: int, from: int)
    requires
        0 <= from <= subtitles.len(),
    ensures
        from <= first_stuck(subtitles, delta, from) <= subtitles.len(),
        forall|j: int|
            from <= j < first_stuck(subtitles, delta, from) ==> can_move(
                #[trigger] subtitles[j],
                delta,
            ),
        first_stuck(subtitles, delta, from) < subtitles.len() ==> !can_move(
            subtitles[first_stuck(subtitles, delta, from)],
            delta,
        ),
    decreases subtitles.len() - from,
{
    if from < subtitles.len() && can_move(subtitles[from], delta) {
        lemma_first_stuck(subtitles, delta, from + 1);
    }
}

/// Subtitles of which every one can be moved are not stuck anywhere.
pub proof fn lemma_none_stuck(subtitles: Seq<SubtitleView>, delta: int, from: int)
    requires
        0 <= from <= subtitles.len(),
        forall|j: int| from <= j < subtitles.len() ==> can_move(#[trigger] subtitles[j], delta),
    ensures
        first_stuck(subtitles, delta, from) == subtitles.len(),
    decreases subtitles.len() - from,
{
    if from < subtitles.len() {
        lemma_none_stuck(subtitles, delta, from + 1);
    }
}

/// Moving by nothing changes nothing, whatever the subtitles are.
pub proof fn lemma_zero_delta_is_identity(subtitles: Seq<SubtitleView>)
    requires
        forall|i: int|
            0 <= i < subtitles.len() ==> (#[trigger] subtitles[i]).from <= u64::MAX
                && subtitles[i].to <= u64::MAX,
    ensures
        adjusted(subtitles, 0) == Ok::<Seq<SubtitleView>, AdjustmentError>(subtitles),
{
    lemma_none_stuck(subtitles, 0, 0);
    assert(Seq::new(subtitles.len(), |i: int| moved(subtitles[i], 0)) =~= subtitles) by {
        assert forall|i: int| 0 <= i < subtitles.len() implies moved(subtitles[i], 0)
            == subtitles[i] by {
            assert(moved(subtitles[i], 0) =~= subtitles[i]);
        }
    }
}

/// Moving by `first` and then by `second` gives what moving by their sum
/// gives, wherever neither of the two steps fails.
pub proof fn lemma_adjustments_compose(
    subtitles: Seq<SubtitleView>,
    first: int,
    second: int,
    between: Seq<SubtitleView>,
    after: Seq<SubtitleView>,
)
    requires
        adjusted(subtitles, first) == Ok::<Seq<SubtitleView>, AdjustmentError>(between),
        adjusted(between, second) == Ok::<Seq<SubtitleView>, AdjustmentError>(after),
    ensures
        adjusted(subtitles, first + second) == Ok::<Seq<SubtitleView>, AdjustmentError>(after),
{
    lemma_first_stuck(subtitles, first, 0);
    lemma_first_stuck(between, second, 0);
    assert(between.len() == subtitles.len());
    assert forall|j: int| 0 <= j < subtitles.len() implies can_move(
        #[trigger] subtitles[j],
        first + second,
    ) by {
        assert(can_move(subtitles[j], first));
        assert(between[j] == moved(subtitles[j], first));
        assert(can_move(between[j], second));
    }
    lemma_none_stuck(subtitles, first + second, 0);
    assert(Seq::new(subtitles.len(), |i: int| moved(subtitles[i], first + second)) =~= after) by {
        assert forall|i: int| 0 <= i < subtitles.len() implies moved(subtitles[i], first + second)
            == after[i] by {
            assert(can_move(subtitles[i], first));
            assert(between[i] == moved(subtitles[i], first));
            assert(after[i] == moved(between[i], second));
            assert(moved(subtitles[i], first + second) =~= moved(between[i], second));
        }
    }
}

/// Moves the start and the end of every subtitle by `delta`.
///
/// Either every subtitle is moved or none is: where one of them would start
/// or end before zero, or behind `u64::MAX`, the subtitles stay as they are
/// and the error names the first such subtitle.
pub fn adjust(subtitles: &mut Vec<Subtitle>, delta: Delta) -> (result: Result<
    (),
    AdjustmentError,
>)
    ensures
        match result {
            Ok(()) => adjusted(views(old(subtitles)@), delta.value()) == Ok::<
                Seq<SubtitleView>,
                AdjustmentError,
            >(views(final(subtitles)@)),
            Err(error) => adjusted(views(old(subtitles)@), delta.value()) == Err::<
                Seq<SubtitleView>,
                AdjustmentError,
            >(error) && *final(subtitles) == *old(subtitles),
        },
{
    let ghost before: Seq<SubtitleView> = views(subtitles@);
    let ghost amount: int = delta.value();
    let n: usize = subtitles.len();
    let mut i: usize = 0;
    while i < n
        invariant
            i <= n,
            n == subtitles@.len(),
            *subtitles == *old(subtitles),
            before == views(subtitles@),
            amount == delta.value(),
            first_stuck(before, amount, 0) == first_stuck(before, amount, i as int),
        decreases n - i,
    {
        let from: u64 = subtitles[i].from;
        let to: u64 = subtitles[i].to;
        assert(before[i as int] == subtitles@[i as int]@);
        if delta.negative {
            if from < delta.millis || to < delta.millis {
                return Err(AdjustmentError::NegativeResult { record: i });
            }
        } else {
            if from > u64::MAX - delta.millis || to > u64::MAX - delta.millis {
                return Err(AdjustmentError::Overflow { record: i });
            }
        }
        i = i + 1;
    }
    proof {
        lemma_first_stuck(before, amount, 0);
    }
    let mut i: usize = 0;
    while i < n
        invariant
            i <= n,
            n == subtitles@.len(),
            n == before.len(),
            amount == delta.value(),
            forall|j: int| 0 <= j < n ==> can_move(#[trigger] before[j], amount),
            forall|j: int| 0 <= j < i ==> (#[trigger] subtitles@[j])@ == moved(before[j], amount),
            forall|j: int| i <= j < n ==> (#[trigger] subtitles@[j])@ == before[j],
        decreases n - i,
    {
        let from: u64 = subtitles[i].from;
        let to: u64 = subtitles[i].to;
        assert(can_move(before[i as int], amount));
        if delta.negative {
            subtitles[i].from = from - delta.millis;
            subtitles[i].to = to - delta.millis;
        } else {
            subtitles[i].from = from + delta.millis;
            subtitles[i].to = to + delta.millis;
        }
        assert(subtitles@[i as int]@ =~= moved(before[i as int], amount));
        i = i + 1;
    }
    assert(views(subtitles@) =~= Seq::new(before.len(), |i: int| moved(before[i], amount)));
    Ok(())
}

/// Reads the amount to move by from a text such as `2,500`, `+1:30` or
/// `-00:00:01,500`: a timestamp with a sign somewhere in it. Plus and minus
/// signs are left out before the timestamp is read; the amount goes
/// backwards where the text starts with a minus sign.
pub fn parse_adjustment(text: &str) -> (result: Result<Delta, ParseError>)
    ensures
        match result {
            Ok(delta) => adjustment_of(text@) == Ok::<int, Diagnostic>(delta.value())
                && delta.negative == (text@.len() > 0 && text@[0] == '-'),
            Err(error) => error.well_formed() && adjustment_of(text@) == Err::<int, Diagnostic>(
                error@,
            ),
        },
{
    let unsigned: String = strip_chars(text, '+', '-');
    let negative: bool = !text.is_empty() && text.get_char(0) == '-';
    match parse_time(unsigned.as_str(), 0) {
        Ok(millis) => Ok(Delta { negative, millis }),
        Err(error) => Err(error),
    }
}

} // verus!
