use crate::alphabet::valid_codes;
use crate::segment::{graphemes, is_segmentation, lemma_piece_within};
use crate::shape::{first_valid, has_apostrophe, has_hyphen, last_valid, lemma_valid_ends};
use crate::shuffle::{is_interior_shuffle, lemma_flatten_multiset, lemma_interior_shuffle};
use crate::split::{
    lemma_delimiters_fixed, lemma_join_multiset, lemma_join_positions, lemma_join_split,
    lemma_split_parts, lemma_split_within, same_places, split,
};
use crate::outcome::{
    each_scrambled, head_len, is_exempt, is_plain, is_stable, keeps_boundaries, keeps_ends,
    parts_outcome, scramble_outcome, tail_start,
};
use vstd::prelude::*;
use vstd::seq_lib::group_to_multiset_ensures;
use vstd::seq_lib::lemma_flatten_concat;

verus! {

/// A text starts with its first pieces and ends with its last.
proof fn lemma_flatten_ends(p: Seq<Seq<char>>, k: int)
    requires
        0 <= k <= p.len(),
    ensures
        p.flatten() == p.take(k).flatten() + p.skip(k).flatten(),
        p.flatten().take(p.take(k).flatten().len() as int) == p.take(k).flatten(),
        p.flatten().skip(p.flatten().len() - p.skip(k).flatten().len()) == p.skip(k).flatten(),
{
    assert(p == p.take(k) + p.skip(k));
    lemma_flatten_concat(p.take(k), p.skip(k));
}

/// The pieces that a token without delimiters is put together from.
///
/// Whatever scrambling makes of a token that is exempt or holds no delimiter, the result is
/// put together from as many pieces as the token has graphemes; the pieces are the graphemes
/// of the token, each as often; and the graphemes up to the first letter or digit and from
/// the last one on are pieces at the same places.
pub proof fn lemma_plain_pieces(s: Seq<char>, out: Seq<char>) -> (p: Seq<Seq<char>>)
    requires
        scramble_outcome(s, out),
        is_plain(s),
    ensures
        out == p.flatten(),
        keeps_boundaries(graphemes(s), p),
{
    let g = graphemes(s);
    lemma_valid_ends(g, valid_codes());
    let first = first_valid(g, valid_codes());
    let last = last_valid(g, valid_codes());
    if !is_exempt(s) && first is Some && last is Some && first->0 < last->0 {
        let p = choose|p: Seq<Seq<char>>|
            is_interior_shuffle(g, p, first->0, last->0) && out == p.flatten();
        lemma_interior_shuffle(g, p, first->0, last->0);
        p
    } else {
        g
    }
}

/// Exempt tokens stay: a token of at most three graphemes or of more than twenty, and one
/// that counts as a number, is its own and only outcome.
pub proof fn lemma_exempt_unchanged(s: Seq<char>, out: Seq<char>)
    requires
        scramble_outcome(s, out),
        is_exempt(s),
    ensures
        out == s,
{
}

/// A token with fewer than two letters or digits stays, and so does one in which at most one
/// grapheme stands between the first and the last letter or digit.
pub proof fn lemma_narrow_unchanged(s: Seq<char>, out: Seq<char>)
    requires
        scramble_outcome(s, out),
        is_plain(s),
        tail_start(graphemes(s)) - head_len(graphemes(s)) <= 1,
    ensures
        out == s,
{
    let g = graphemes(s);
    lemma_valid_ends(g, valid_codes());
    let first = first_valid(g, valid_codes());
    let last = last_valid(g, valid_codes());
    if !is_exempt(s) && first is Some && last is Some && first->0 < last->0 {
        let p = choose|p: Seq<Seq<char>>|
            is_interior_shuffle(g, p, first->0, last->0) && out == p.flatten();
        lemma_interior_shuffle(g, p, first->0, last->0);
    }
}

/// Boundary preservation, in characters. Whatever scrambling makes of a token that is exempt
/// or holds no delimiter, the result is as long as the token, starts with the token's
/// characters up to and with its first letter or digit, and ends with the token's characters
/// from its last letter or digit on.
pub proof fn lemma_plain_keeps_ends(s: Seq<char>, out: Seq<char>)
    requires
        scramble_outcome(s, out),
        is_plain(s),
    ensures
        keeps_ends(s, out),
{
    broadcast use group_to_multiset_ensures;

    let g = graphemes(s);
    let p = lemma_plain_pieces(s, out);
    lemma_valid_ends(g, valid_codes());
    lemma_flatten_ends(p, head_len(g));
    lemma_flatten_ends(p, tail_start(g));
    lemma_flatten_multiset(p, g);
    assert(out.to_multiset().len() == out.len());
    assert(s.to_multiset().len() == s.len());
}

/// Length preservation, boundary preservation and multiset invariance, in graphemes.
/// Whatever scrambling makes of a stable token that is exempt or holds no delimiter, the
/// result has as many graphemes as the token, the same ones, each as often, and those up to
/// the first letter or digit and from the last one on in their places.
pub proof fn lemma_stable_graphemes(s: Seq<char>, out: Seq<char>)
    requires
        scramble_outcome(s, out),
        is_plain(s),
        is_stable(s),
    ensures
        keeps_boundaries(graphemes(s), graphemes(out)),
{
    let p = lemma_plain_pieces(s, out);
    assert(graphemes(p.flatten()) == p);
}

/// Multiset invariance, in characters. Whatever scrambling makes of a token, the result
/// holds the characters of the token, each as often; so it is as long as the token.
pub proof fn lemma_same_characters(s: Seq<char>, out: Seq<char>)
    requires
        scramble_outcome(s, out),
    ensures
        out.to_multiset() == s.to_multiset(),
        out.len() == s.len(),
    decreases s.len(), 1nat,
{
    broadcast use group_to_multiset_ensures;

    if is_exempt(s) {
    } else if has_apostrophe(s) && has_hyphen(s) {
        let parts = split(s, '-');
        let outs = split(out, '-');
        assert forall|i: int| 0 <= i < parts.len() implies (#[trigger] parts[i]).to_multiset()
            == outs[i].to_multiset() by {
            lemma_parts_same_characters(s.len(), parts[i], outs[i], '\'');
        }
        lemma_join_multiset(parts, outs, '-');
        lemma_join_split(s, '-');
        lemma_join_split(out, '-');
    } else if has_apostrophe(s) {
        lemma_parts_same_characters(s.len(), s, out, '\'');
    } else if has_hyphen(s) {
        lemma_parts_same_characters(s.len(), s, out, '-');
    } else {
        let g = graphemes(s);
        let p = lemma_plain_pieces(s, out);
        lemma_flatten_multiset(p, g);
    }
    assert(out.to_multiset().len() == out.len());
    assert(s.to_multiset().len() == s.len());
}

/// A token whose parts are scrambled part by part keeps its characters.
proof fn lemma_parts_same_characters(bound: nat, s: Seq<char>, out: Seq<char>, d: char)
    requires
        parts_outcome(bound, split(s, d), split(out, d)),
    ensures
        out.to_multiset() == s.to_multiset(),
        out.len() == s.len(),
    decreases bound, 0nat,
{
    broadcast use group_to_multiset_ensures;

    let parts = split(s, d);
    let outs = split(out, d);
    assert forall|i: int| 0 <= i < parts.len() implies (#[trigger] parts[i]).to_multiset()
        == outs[i].to_multiset() by {
        lemma_same_characters(parts[i], outs[i]);
    }
    lemma_join_multiset(parts, outs, d);
    lemma_join_split(s, d);
    lemma_join_split(out, d);
    assert(out.to_multiset().len() == out.len());
    assert(s.to_multiset().len() == s.len());
}

/// Where each part of a token gave a part of the result that is as long, the delimiter
/// stands at the same places in both.
proof fn lemma_parts_delimiters(bound: nat, s: Seq<char>, out: Seq<char>, d: char)
    requires
        parts_outcome(bound, split(s, d), split(out, d)),
    ensures
        same_places(s, out, d),
{
    let parts = split(s, d);
    let outs = split(out, d);
    assert forall|i: int| 0 <= i < parts.len() implies (#[trigger] outs[i]).len()
        == parts[i].len() by {
        assert(scramble_outcome(parts[i], outs[i]));
        lemma_same_characters(parts[i], outs[i]);
    }
    lemma_delimiters_fixed(s, out, d);
}

/// Delimiter fidelity for hyphens. In whatever scrambling makes of a token that holds a
/// hyphen as a grapheme, a hyphen stands exactly where one stands in the token.
pub proof fn lemma_hyphens_stay(s: Seq<char>, out: Seq<char>)
    requires
        scramble_outcome(s, out),
        has_hyphen(s),
    ensures
        same_places(s, out, '-'),
{
    if is_exempt(s) {
    } else if has_apostrophe(s) {
        let parts = split(s, '-');
        let outs = split(out, '-');
        assert forall|i: int| 0 <= i < parts.len() implies (#[trigger] outs[i]).len()
            == parts[i].len() by {
            assert(parts_outcome(s.len(), split(parts[i], '\''), split(outs[i], '\'')));
            lemma_parts_same_characters(s.len(), parts[i], outs[i], '\'');
        }
        lemma_delimiters_fixed(s, out, '-');
    } else {
        lemma_parts_delimiters(s.len(), s, out, '-');
    }
}

/// Delimiter fidelity for apostrophes. In whatever scrambling makes of a token that holds an
/// apostrophe as a grapheme, an apostrophe stands exactly where one stands in the token.
pub proof fn lemma_apostrophes_stay(s: Seq<char>, out: Seq<char>)
    requires
        scramble_outcome(s, out),
        has_apostrophe(s),
    ensures
        same_places(s, out, '\''),
{
    if is_exempt(s) {
    } else if has_hyphen(s) {
        let parts = split(s, '-');
        let outs = split(out, '-');
        assert forall|i: int| 0 <= i < parts.len() implies same_places(
            #[trigger] parts[i],
            outs[i],
            '\'',
        ) by {
            assert(parts_outcome(s.len(), split(parts[i], '\''), split(outs[i], '\'')));
            lemma_parts_delimiters(s.len(), parts[i], outs[i], '\'');
        }
        lemma_join_positions(parts, outs, '-', '\'');
        lemma_join_split(s, '-');
        lemma_join_split(out, '-');
    } else {
        lemma_parts_delimiters(s.len(), s, out, '\'');
    }
}

/// Delimiter fidelity for the parts. Of a token that is cut at one kind of delimiter, each
/// part is scrambled on its own: what stands between two delimiters of the result is an
/// outcome of scrambling what stands between them in the token. So a part that is exempt or
/// holds no delimiter keeps its ends.
pub proof fn lemma_parts_scrambled(s: Seq<char>, out: Seq<char>, d: char)
    requires
        scramble_outcome(s, out),
        !is_exempt(s),
        d == '-' && has_hyphen(s) && !has_apostrophe(s) || d == '\'' && has_apostrophe(s)
            && !has_hyphen(s),
    ensures
        each_scrambled(split(s, d), split(out, d)),
        forall|i: int|
            0 <= i < split(s, d).len() && is_plain(#[trigger] split(s, d)[i]) ==> keeps_ends(
                split(s, d)[i],
                split(out, d)[i],
            ),
{
    let parts = split(s, d);
    let outs = split(out, d);
    assert forall|i: int| 0 <= i < parts.len() && is_plain(#[trigger] parts[i]) implies keeps_ends(
        parts[i],
        outs[i],
    ) by {
        assert(scramble_outcome(parts[i], outs[i]));
        lemma_plain_keeps_ends(parts[i], outs[i]);
    }
}

/// The same for a token that holds both kinds of delimiter: of each part between two
/// hyphens, what stands between two apostrophes is scrambled on its own. Such a piece holds
/// no delimiter any more, so it keeps its ends.
pub proof fn lemma_leaves_scrambled(s: Seq<char>, out: Seq<char>, i: int, j: int)
    requires
        scramble_outcome(s, out),
        !is_exempt(s),
        has_hyphen(s) && has_apostrophe(s),
        0 <= i < split(s, '-').len(),
        0 <= j < split(split(s, '-')[i], '\'').len(),
    ensures
        split(out, '-').len() == split(s, '-').len(),
        split(split(out, '-')[i], '\'').len() == split(split(s, '-')[i], '\'').len(),
        scramble_outcome(split(split(s, '-')[i], '\'')[j], split(split(out, '-')[i], '\'')[j]),
        keeps_ends(split(split(s, '-')[i], '\'')[j], split(split(out, '-')[i], '\'')[j]),
{
    let parts = split(s, '-');
    let outs = split(out, '-');
    assert(parts_outcome(s.len(), split(parts[i], '\''), split(outs[i], '\'')));
    let leaves = split(parts[i], '\'');
    let leaf = leaves[j];
    let leaf_out = split(outs[i], '\'')[j];
    assert(scramble_outcome(leaf, leaf_out));
    lemma_split_parts(s, '-');
    lemma_split_parts(parts[i], '\'');
    assert(!leaf.contains('\''));
    assert(!leaf.contains('-')) by {
        if leaf.contains('-') {
            lemma_split_within(parts[i], '\'', j, '-');
        }
    }
    lemma_no_delimiter(leaf, '-');
    lemma_no_delimiter(leaf, '\'');
    lemma_plain_keeps_ends(leaf, leaf_out);
}

/// A token that does not hold a character does not hold it as a grapheme.
proof fn lemma_no_delimiter(s: Seq<char>, d: char)
    requires
        is_segmentation(graphemes(s), s),
        !s.contains(d),
    ensures
        !graphemes(s).contains(seq![d]),
{
    let g = graphemes(s);
    if g.contains(seq![d]) {
        let i = choose|i: int| 0 <= i < g.len() && g[i] == seq![d];
        assert(g[i][0] == d);
        lemma_piece_within(g, i, d);
    }
}

} // verus!
