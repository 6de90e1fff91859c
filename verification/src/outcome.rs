use crate::alphabet::valid_codes;
use crate::numeric::is_numeric;
use crate::segment::{graphemes, is_segmentation};
use crate::shape::{
    first_valid, first_valid_index, has_apostrophe, has_hyphen, last_valid, last_valid_index,
};
use crate::shuffle::is_interior_shuffle;
use crate::split::{join, split};
use crate::text::words;
use vstd::prelude::*;

verus! {

/// Whether a token is left as it is without a look at its letters: it has at most three
/// graphemes or more than twenty, or it counts as a number.
pub open spec fn is_exempt(s: Seq<char>) -> bool {
    graphemes(s).len() <= 3 || graphemes(s).len() > 20 || is_numeric(s)
}

/// What the scrambler may make of a token without delimiters. Where two different graphemes
/// are the first and the last that count as letter or digit, the graphemes strictly between
/// them come in some order and all others stay; where fewer than two graphemes count, the
/// token stays as it is.
pub open spec fn partition_outcome(s: Seq<char>, out: Seq<char>) -> bool {
    let g = graphemes(s);
    let first = first_valid(g, valid_codes());
    let last = last_valid(g, valid_codes());
    if first is Some && last is Some && first->0 < last->0 {
        exists|p: Seq<Seq<char>>| is_interior_shuffle(g, p, first->0, last->0) && out == p.flatten()
    } else {
        out == s
    }
}

/// Whether `out` is one of the texts that scrambling may make of the token `s`.
///
/// The graphemes of the token cut it up. An exempt token stays as it is. A token with
/// hyphens, apostrophes or both is taken apart at them, and each part is scrambled on its
/// own; the delimiters stay. Any other token has the graphemes between its first and last
/// letter or digit shuffled.
pub open spec fn scramble_outcome(s: Seq<char>, out: Seq<char>) -> bool
    decreases s.len(), 2nat,
{
    &&& is_segmentation(graphemes(s), s)
    &&& if is_exempt(s) {
        out == s
    } else if has_apostrophe(s) && has_hyphen(s) {
        nested_outcome(s.len(), split(s, '-'), split(out, '-'))
    } else if has_apostrophe(s) {
        parts_outcome(s.len(), split(s, '\''), split(out, '\''))
    } else if has_hyphen(s) {
        parts_outcome(s.len(), split(s, '-'), split(out, '-'))
    } else {
        partition_outcome(s, out)
    }
}

/// Whether each of `outs` is what scrambling may make of the part at its place, every part
/// being shorter than `bound`, the length of the token they were cut from.
pub open spec fn parts_outcome(bound: nat, parts: Seq<Seq<char>>, outs: Seq<Seq<char>>) -> bool
    decreases bound, 0nat,
{
    &&& outs.len() == parts.len()
    &&& forall|i: int|
        #![trigger parts[i]]
        0 <= i < parts.len() ==> parts[i].len() < bound && scramble_outcome(parts[i], outs[i])
}

/// Whether each of `outs` is made of the part at its place by cutting the part at its
/// apostrophes and scrambling what lies between them.
pub open spec fn nested_outcome(bound: nat, parts: Seq<Seq<char>>, outs: Seq<Seq<char>>) -> bool
    decreases bound, 1nat,
{
    &&& outs.len() == parts.len()
    &&& forall|i: int|
        #![trigger parts[i]]
        0 <= i < parts.len() ==> parts_outcome(bound, split(parts[i], '\''), split(outs[i], '\''))
}

/// Whether each of `outs` is what scrambling may make of the part at its place.
pub open spec fn each_scrambled(parts: Seq<Seq<char>>, outs: Seq<Seq<char>>) -> bool {
    &&& outs.len() == parts.len()
    &&& forall|i: int|
        #![trigger parts[i]]
        0 <= i < parts.len() ==> scramble_outcome(parts[i], outs[i])
}

/// Whether each of `outs` is made of the part at its place by cutting the part at its
/// apostrophes and scrambling what lies between them.
pub open spec fn each_nested(parts: Seq<Seq<char>>, outs: Seq<Seq<char>>) -> bool {
    &&& outs.len() == parts.len()
    &&& forall|i: int|
        #![trigger parts[i]]
        0 <= i < parts.len() ==> each_scrambled(split(parts[i], '\''), split(outs[i], '\''))
}

/// How many graphemes at the start of a token never move: those up to and with the first
/// one that counts as a letter or digit.
pub open spec fn head_len(g: Seq<Seq<char>>) -> int {
    if g.len() == 0 {
        0
    } else {
        first_valid_index(g, valid_codes()) + 1
    }
}

/// Where the graphemes at the end of a token start that never move: at the last one that
/// counts as a letter or digit.
pub open spec fn tail_start(g: Seq<Seq<char>>) -> int {
    last_valid_index(g, valid_codes())
}

/// Whether `p` holds the graphemes `g`, each as often, with the head and the tail of `g` in
/// their places.
pub open spec fn keeps_boundaries(g: Seq<Seq<char>>, p: Seq<Seq<char>>) -> bool {
    &&& p.len() == g.len()
    &&& p.to_multiset() == g.to_multiset()
    &&& p.take(head_len(g)) == g.take(head_len(g))
    &&& p.skip(tail_start(g)) == g.skip(tail_start(g))
}

/// Whether the graphemes of a token stay graphemes in every order that leaves its head and
/// its tail in place: put together in such an order, they are the graphemes of the text they
/// give. A token of plain letters is stable. One is not where two of the graphemes between
/// its ends would form one cluster side by side, as two regional indicators do.
pub open spec fn is_stable(s: Seq<char>) -> bool {
    forall|p: Seq<Seq<char>>|
        keeps_boundaries(graphemes(s), p) ==> graphemes(#[trigger] p.flatten()) == p
}

/// Whether `out` is as long as the token `s`, starts with the characters of the head of `s`
/// and ends with the characters of its tail.
pub open spec fn keeps_ends(s: Seq<char>, out: Seq<char>) -> bool {
    let g = graphemes(s);
    let head = g.take(head_len(g)).flatten();
    let tail = g.skip(tail_start(g)).flatten();
    &&& out.len() == s.len()
    &&& out.take(head.len() as int) == head
    &&& out.skip(out.len() - tail.len()) == tail
}

/// Whether a token goes to the shuffle itself or stays whole: it is exempt, or it holds
/// neither a hyphen nor an apostrophe as a grapheme.
pub open spec fn is_plain(s: Seq<char>) -> bool {
    is_exempt(s) || (!has_apostrophe(s) && !has_hyphen(s))
}

/// Whether `out` is one of the texts that scrambling may make of a sentence: the words of the
/// sentence, each scrambled on its own, with one space between each two. White space at the
/// ends of the sentence is gone, and so is any beyond one space between words.
pub open spec fn sentence_outcome(s: Seq<char>, out: Seq<char>) -> bool {
    exists|outs: Seq<Seq<char>>| each_scrambled(words(s), outs) && out == join(outs, ' ')
}

} // verus!
