//! Segmentation of raw text, through outside crates.
//!
//! Chunking into bounded sentences is done by `text-splitter`, and
//! language-aware word segmentation by `charabia`.  Both are pure
//! functions of the text; their results are named by uninterpreted
//! spec functions that the rest of the library reasons over.

use vstd::prelude::*;

use charabia::Segment;

verus! {

/// The word segments of a text, in document order, as charabia's
/// `segment_str` produces them (separators included).
pub uninterp spec fn tokens_of(s: Seq<char>) -> Seq<Seq<char>>;

/// The chunks of a text under a character bound, in document order,
/// each with its byte offset in the source, as text-splitter's
/// `chunk_indices` produces them.
pub uninterp spec fn chunks_of(s: Seq<char>, max: int) -> Seq<(int, Seq<char>)>;

/// Relies on charabia's `Segment::segment_str`: segments the text into
/// words and separators, deterministically, from the text alone; an
/// empty text yields no segments.
#[verifier::external_body]
pub(crate) fn segment_text(text: &str) -> (r: Vec<String>)
    ensures
        r@.map_values(|t: String| t@) == tokens_of(text@),
        text@.len() == 0 ==> r@.len() == 0,
{
    text.segment_str().map(|s| s.to_string()).collect()
}

/// Relies on text-splitter's `TextSplitter::chunk_indices`: splits the
/// text at natural boundaries into chunks of at most `max` characters,
/// each reported with its byte offset, in document order (so the
/// offsets never decrease), deterministically, from the text alone; an
/// empty text yields no chunks.
#[verifier::external_body]
pub(crate) fn split_text(text: &str, max: usize) -> (r: Vec<(usize, String)>)
    ensures
        r@.map_values(|c: (usize, String)| (c.0 as int, c.1@)) == chunks_of(text@, max as int),
        text@.len() == 0 ==> r@.len() == 0,
        forall|i: int, j: int|
            0 <= i <= j < r@.len() ==> (#[trigger] r@[i]).0 <= (#[trigger] r@[j]).0,
{
    let splitter = text_splitter::TextSplitter::new(max);
    splitter.chunk_indices(text).map(|(i, s)| (i, s.to_string())).collect()
}

} // verus!
