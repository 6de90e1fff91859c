use crate::text::texts;
use unicode_segmentation::UnicodeSegmentation;
use vstd::prelude::*;
use vstd::seq_lib::lemma_flatten_concat;

verus! {

/// The extended grapheme clusters of a text, in order: what a reader takes for its
/// characters, each made of one code point or of several.
pub uninterp spec fn graphemes(s: Seq<char>) -> Seq<Seq<char>>;

/// Whether pieces cut a text up: none of them is empty, and one after the other they are
/// the text.
pub open spec fn is_segmentation(pieces: Seq<Seq<char>>, s: Seq<char>) -> bool {
    &&& pieces.flatten() == s
    &&& forall|i: int| 0 <= i < pieces.len() ==> (#[trigger] pieces[i]).len() > 0
}

/// A character of a piece is a character of the pieces put together.
pub proof fn lemma_piece_within(pieces: Seq<Seq<char>>, i: int, c: char)
    requires
        0 <= i < pieces.len(),
        pieces[i].contains(c),
    ensures
        pieces.flatten().contains(c),
{
    let a = pieces.take(i);
    let x = pieces[i];
    let b = pieces.skip(i + 1);
    assert(pieces == a + seq![x] + b);
    lemma_flatten_concat(a + seq![x], b);
    lemma_flatten_concat(a, seq![x]);
    seq![x].lemma_flatten_one_element();
    let k = choose|k: int| 0 <= k < x.len() && x[k] == c;
    assert(pieces.flatten()[a.flatten().len() + k] == c);
}

/// `UnicodeSegmentation::graphemes` with extended clusters, collected. Which clusters a text
/// has is left to the name [`graphemes`]. What is claimed beyond the name is how the iterator
/// walks: each cluster is the slice from where the last one ended to the next boundary
/// further on, until the text is used up, so the clusters are not empty and together they
/// are the text.
#[verifier::external_body]
pub(crate) fn grapheme_clusters<'a>(s: &'a str) -> (g: Vec<&'a str>)
    ensures
        texts(g@) == graphemes(s@),
        is_segmentation(texts(g@), s@),
{
    s.graphemes(true).collect()
}

} // verus!
