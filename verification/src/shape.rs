use crate::alphabet::{is_valid, is_valid_grapheme};
use crate::segment::{grapheme_clusters, graphemes};
use crate::text::{texts, trim, trimmed};
use vstd::prelude::*;

verus! {

/// Where the first grapheme stands that counts as a letter or digit, if there is one.
pub open spec fn first_valid(g: Seq<Seq<char>>, valid: Seq<usize>) -> Option<int>
    decreases g.len(),
{
    if g.len() == 0 {
        None
    } else if is_valid_grapheme(g.first(), valid) {
        Some(0)
    } else {
        match first_valid(g.drop_first(), valid) {
            Some(i) => Some(i + 1),
            None => None,
        }
    }
}

/// Where the last grapheme stands that counts as a letter or digit, if there is one.
pub open spec fn last_valid(g: Seq<Seq<char>>, valid: Seq<usize>) -> Option<int>
    decreases g.len(),
{
    if g.len() == 0 {
        None
    } else if is_valid_grapheme(g.last(), valid) {
        Some(g.len() - 1)
    } else {
        last_valid(g.drop_last(), valid)
    }
}

/// The index of the first grapheme that counts, and 0 where none does.
pub open spec fn first_valid_index(g: Seq<Seq<char>>, valid: Seq<usize>) -> int {
    match first_valid(g, valid) {
        Some(i) => i,
        None => 0,
    }
}

/// The index of the last grapheme that counts, and that of the last grapheme where none
/// does (0 for a token without graphemes).
pub open spec fn last_valid_index(g: Seq<Seq<char>>, valid: Seq<usize>) -> int {
    match last_valid(g, valid) {
        Some(i) => i,
        None => if g.len() == 0 {
            0
        } else {
            g.len() - 1
        },
    }
}

/// Whether no grapheme counts as a letter or digit.
pub open spec fn none_valid(g: Seq<Seq<char>>, valid: Seq<usize>) -> bool {
    forall|j: int| 0 <= j < g.len() ==> !is_valid_grapheme(#[trigger] g[j], valid)
}

/// [`first_valid`] is the least index of a grapheme that counts.
pub proof fn lemma_first_valid(g: Seq<Seq<char>>, valid: Seq<usize>)
    ensures
        match first_valid(g, valid) {
            Some(i) => {
                &&& 0 <= i < g.len()
                &&& is_valid_grapheme(g[i], valid)
                &&& forall|j: int| 0 <= j < i ==> !is_valid_grapheme(#[trigger] g[j], valid)
            },
            None => none_valid(g, valid),
        },
    decreases g.len(),
{
    if g.len() > 0 && !is_valid_grapheme(g.first(), valid) {
        let t = g.drop_first();
        lemma_first_valid(t, valid);
        match first_valid(t, valid) {
            Some(i) => {
                assert(g[i + 1] == t[i]);
                assert forall|j: int| 0 <= j < i + 1 implies !is_valid_grapheme(
                    #[trigger] g[j],
                    valid,
                ) by {
                    if j > 0 {
                        assert(g[j] == t[j - 1]);
                    }
                }
            },
            None => {
                assert forall|j: int| 0 <= j < g.len() implies !is_valid_grapheme(
                    #[trigger] g[j],
                    valid,
                ) by {
                    if j > 0 {
                        assert(g[j] == t[j - 1]);
                    }
                }
            },
        }
    }
}

/// [`last_valid`] is the greatest index of a grapheme that counts.
pub proof fn lemma_last_valid(g: Seq<Seq<char>>, valid: Seq<usize>)
    ensures
        match last_valid(g, valid) {
            Some(i) => {
                &&& 0 <= i < g.len()
                &&& is_valid_grapheme(g[i], valid)
                &&& forall|j: int| i < j < g.len() ==> !is_valid_grapheme(#[trigger] g[j], valid)
            },
            None => none_valid(g, valid),
        },
    decreases g.len(),
{
    if g.len() > 0 && !is_valid_grapheme(g.last(), valid) {
        let t = g.drop_last();
        lemma_last_valid(t, valid);
        match last_valid(t, valid) {
            Some(i) => {
                assert(g[i] == t[i]);
                assert forall|j: int| i < j < g.len() implies !is_valid_grapheme(
                    #[trigger] g[j],
                    valid,
                ) by {
                    if j < g.len() - 1 {
                        assert(g[j] == t[j]);
                    }
                }
            },
            None => {
                assert forall|j: int| 0 <= j < g.len() implies !is_valid_grapheme(
                    #[trigger] g[j],
                    valid,
                ) by {
                    if j < g.len() - 1 {
                        assert(g[j] == t[j]);
                    }
                }
            },
        }
    }
}

/// The first and the last grapheme that counts are found together, the first no later than
/// the last.
pub proof fn lemma_valid_ends(g: Seq<Seq<char>>, valid: Seq<usize>)
    ensures
        first_valid(g, valid) is Some <==> last_valid(g, valid) is Some,
        first_valid(g, valid) is Some ==> first_valid(g, valid)->0 <= last_valid(g, valid)->0,
        0 <= first_valid_index(g, valid) <= last_valid_index(g, valid),
        g.len() > 0 ==> last_valid_index(g, valid) < g.len(),
{
    lemma_first_valid(g, valid);
    lemma_last_valid(g, valid);
}

/// Where the first of the graphemes stands that counts as a letter or digit by the given
/// list, or `None` where none of them does.
pub fn find_first_valid(g: &Vec<&str>, valid_chars: &Vec<usize>) -> (r: Option<usize>)
    ensures
        match r {
            Some(i) => first_valid(texts(g@), valid_chars@) == Some(i as int),
            None => first_valid(texts(g@), valid_chars@) is None,
        },
{
    let mut i: usize = 0;
    while i < g.len()
        invariant
            i <= g.len(),
            forall|j: int| 0 <= j < i ==> !is_valid_grapheme(#[trigger] texts(g@)[j], valid_chars@),
        decreases g.len() - i,
    {
        if is_valid(g[i], valid_chars) {
            proof {
                lemma_first_valid(texts(g@), valid_chars@);
                assert(is_valid_grapheme(texts(g@)[i as int], valid_chars@));
            }
            return Some(i);
        }
        i += 1;
    }
    proof {
        lemma_first_valid(texts(g@), valid_chars@);
    }
    None
}

/// Where the last of the graphemes stands that counts as a letter or digit by the given
/// list, or `None` where none of them does.
pub fn find_last_valid(g: &Vec<&str>, valid_chars: &Vec<usize>) -> (r: Option<usize>)
    ensures
        match r {
            Some(i) => last_valid(texts(g@), valid_chars@) == Some(i as int),
            None => last_valid(texts(g@), valid_chars@) is None,
        },
{
    let mut i: usize = g.len();
    while i > 0
        invariant
            i <= g.len(),
            forall|j: int|
                i <= j < g.len() ==> !is_valid_grapheme(#[trigger] texts(g@)[j], valid_chars@),
        decreases i,
    {
        i -= 1;
        if is_valid(g[i], valid_chars) {
            proof {
                lemma_last_valid(texts(g@), valid_chars@);
                assert(is_valid_grapheme(texts(g@)[i as int], valid_chars@));
            }
            return Some(i);
        }
    }
    proof {
        lemma_last_valid(texts(g@), valid_chars@);
    }
    None
}

/// The index, among the graphemes of the trimmed token, of the first one that counts as a
/// letter or digit by the given list; 0 where none does.
pub fn get_valid_start_index(s: &str, valid_chars: &Vec<usize>) -> (index: usize)
    ensures
        index == first_valid_index(graphemes(trimmed(s@)), valid_chars@),
{
    let g = grapheme_clusters(trim(s));
    match find_first_valid(&g, valid_chars) {
        Some(i) => i,
        None => 0,
    }
}

/// The index, among the graphemes of the trimmed token, of the last one that counts as a
/// letter or digit by the given list; where none does, the index of the last grapheme, and 0
/// for a token without graphemes.
pub fn get_valid_end_index(s: &str, valid_chars: &Vec<usize>) -> (index: usize)
    ensures
        index == last_valid_index(graphemes(trimmed(s@)), valid_chars@),
{
    let g = grapheme_clusters(trim(s));
    assert(texts(g@).len() == g@.len());
    match find_last_valid(&g, valid_chars) {
        Some(i) => i,
        None => if g.len() == 0 {
            0
        } else {
            g.len() - 1
        },
    }
}

/// Whether one of the graphemes is the given character and nothing else.
pub fn holds_grapheme(g: &Vec<&str>, c: char) -> (b: bool)
    ensures
        b == texts(g@).contains(seq![c]),
{
    let mut i: usize = 0;
    while i < g.len()
        invariant
            i <= g.len(),
            forall|j: int| 0 <= j < i ==> texts(g@)[j] != seq![c],
        decreases g.len() - i,
    {
        if g[i].unicode_len() == 1 && g[i].get_char(0) == c {
            assert(texts(g@)[i as int] == seq![c]);
            return true;
        }
        assert(texts(g@)[i as int] != seq![c]) by {
            if texts(g@)[i as int] == seq![c] {
                assert(seq![c].len() == 1 && seq![c][0] == c);
            }
        }
        i += 1;
    }
    false
}

/// Whether a token holds a hyphen that is a grapheme of its own.
pub open spec fn has_hyphen(s: Seq<char>) -> bool {
    graphemes(s).contains(seq!['-'])
}

/// Whether a token holds an apostrophe that is a grapheme of its own.
pub open spec fn has_apostrophe(s: Seq<char>) -> bool {
    graphemes(s).contains(seq!['\''])
}

/// Whether a token holds a hyphen that is a grapheme of its own.
pub fn has_hyphens(s: &str) -> (b: bool)
    ensures
        b == has_hyphen(s@),
{
    let g = grapheme_clusters(s);
    holds_grapheme(&g, '-')
}

/// Whether a token holds an apostrophe that is a grapheme of its own.
pub fn has_apostrophes(s: &str) -> (b: bool)
    ensures
        b == has_apostrophe(s@),
{
    let g = grapheme_clusters(s);
    holds_grapheme(&g, '\'')
}

} // verus!
