//! Display widths of texts, as the `unicode_width` crate measures them.

use unicode_width::UnicodeWidthStr;
use vstd::prelude::*;

verus! {

/// The number of terminal columns that `UnicodeWidthStr::width` assigns to a text.
pub uninterp spec fn display_width(text: Seq<char>) -> usize;

/// A character from the space to the tilde: printable ASCII.
pub open spec fn is_printable_ascii(c: char) -> bool {
    0x20 <= (c as u32) && (c as u32) <= 0x7e
}

/// Every character of the text is printable ASCII.
pub open spec fn all_printable_ascii(text: Seq<char>) -> bool {
    forall|i: int| 0 <= i < text.len() ==> is_printable_ascii(#[trigger] text[i])
}

/// Measures a text with `UnicodeWidthStr::width` of `unicode_width`.
///
/// Trusted: the result is the crate's width of the text, named by
/// `display_width`; for a text of printable ASCII characters the crate
/// counts one column per character (each such character is single-width
/// and takes part in none of the crate's multi-character sequences).
#[verifier::external_body]
pub(crate) fn text_width(text: &str) -> (width: usize)
    ensures
        width == display_width(text@),
        all_printable_ascii(text@) ==> width == text@.len(),
{
    text.width()
}

} // verus!
