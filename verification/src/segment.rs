//! Grapheme segmentation of text, as provided by `unicode_segmentation`.

use unicode_segmentation::UnicodeSegmentation;
use vstd::prelude::*;
use vstd::utf8::encode_utf8;

verus! {

/// The extended grapheme clusters of a text, in order (UAX #29).
pub uninterp spec fn extended_graphemes(s: Seq<char>) -> Seq<Seq<char>>;


/// The extended grapheme clusters of a text, each with the byte offset at
/// which it starts.
pub uninterp spec fn extended_grapheme_indices(s: Seq<char>) -> Seq<(usize, Seq<char>)>;

/// `UnicodeSegmentation::graphemes(s, true)`, collected.
///
/// Trusted: the result is `extended_graphemes(s@)`; the clusters are non-empty
/// consecutive slices of `s`, so joined together they give back `s`.
#[verifier::external_body]
pub(crate) fn graphemes(s: &str) -> (res: Vec<&str>)
    ensures
        res@.map_values(|g: &str| g@) == extended_graphemes(s@),
        res@.map_values(|g: &str| g@).flatten() == s@,
        forall|i: int| 0 <= i < res@.len() ==> #[trigger] res@[i]@.len() > 0,
{
    s.graphemes(true).collect()
}

/// `UnicodeSegmentation::grapheme_indices(s, true)`, collected.
///
/// Trusted: the result is `extended_grapheme_indices(s@)`; the clusters are
/// non-empty consecutive slices of `s` (joined together they give back `s`),
/// each paired with its byte offset in `s`, which is the UTF-8 length of the
/// clusters before it (so the offsets never decrease).
#[verifier::external_body]
pub(crate) fn grapheme_indices(s: &str) -> (res: Vec<(usize, &str)>)
    ensures
        res@.map_values(|p: (usize, &str)| (p.0, p.1@)) == extended_grapheme_indices(s@),
        res@.map_values(|p: (usize, &str)| p.1@).flatten() == s@,
        forall|i: int| 0 <= i < res@.len() ==> #[trigger] res@[i].1@.len() > 0,
        forall|i: int, j: int| 0 <= i <= j < res@.len() ==> (#[trigger] res@[i]).0 <= (#[trigger] res@[j]).0,
        forall|i: int|
            0 <= i < res@.len() ==> #[trigger] res@[i].0 == encode_utf8(
                res@.take(i).map_values(|p: (usize, &str)| p.1@).flatten(),
            ).len(),
{
    s.grapheme_indices(true).collect()
}

} // verus!
