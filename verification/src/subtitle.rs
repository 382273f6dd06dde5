//! One subtitle: its number, when it is shown, and its lines.

use crate::text::string_texts;
use vstd::prelude::*;

verus! {

/// A subtitle as the contracts speak of it.
#[verifier::ext_equal]
pub struct SubtitleView {
    pub number: nat,
    pub from: nat,
    pub to: nat,
    pub lines: Seq<Seq<char>>,
}

/// A subtitle. `from` and `to` are counts of milliseconds; `lines` holds the
/// text, one entry for each line, without line ends.
#[derive(Clone, Debug, PartialEq, Eq)]
pub struct Subtitle {
    pub number: u32,
    pub from: u64,
    pub to: u64,
    pub lines: Vec<String>,
}

impl View for Subtitle {
    type V = SubtitleView;

    open spec fn view(&self) -> SubtitleView {
        SubtitleView {
            number: self.number as nat,
            from: self.from as nat,
            to: self.to as nat,
            lines: string_texts(self.lines@),
        }
    }
}

/// The subtitles that a vector holds, as the contracts speak of them.
pub open spec fn views(subtitles: Seq<Subtitle>) -> Seq<SubtitleView> {
    Seq::new(subtitles.len(), |i: int| subtitles[i]@)
}

} // verus!
