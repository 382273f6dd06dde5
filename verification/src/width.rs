//! How many terminal columns a text takes.

use crate::text::string_from_chars;
use unicode_width::UnicodeWidthStr;
use vstd::prelude::*;

verus! {

/// The number of columns that `unicode_width` assigns to a text: the result
/// of `UnicodeWidthStr::width`. It depends on the characters alone, but is
/// not the sum of their single widths, and no bound in terms of the text's
/// length is given for it.
pub uninterp spec fn display_width(text: Seq<char>) -> usize;

/// Calls `UnicodeWidthStr::width` of the `unicode_width` crate, which looks
/// the characters up in its tables and returns their displayed width. The
/// contract only names that result.
#[verifier::external_body]
pub(crate) fn str_width(text: &str) -> (width: usize)
    ensures
        width == display_width(text@),
{
    UnicodeWidthStr::width(text)
}

/// The displayed width of a run of characters.
pub fn width_of(chars: &[char]) -> (width: usize)
    ensures
        width == display_width(chars@),
{
    let text: String = string_from_chars(chars);
    str_width(text.as_str())
}

} // verus!
