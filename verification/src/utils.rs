use crate::alphabet::get_all_valid_ascii_chars;
use crate::numeric::is_numeric_string;
use crate::laws::{
    lemma_apostrophes_stay, lemma_hyphens_stay, lemma_plain_keeps_ends, lemma_plain_pieces,
    lemma_same_characters, lemma_stable_graphemes,
};
use crate::outcome::{
    each_nested, each_scrambled, is_exempt, is_plain, is_stable, keeps_boundaries, keeps_ends,
    nested_outcome, parts_outcome, scramble_outcome,
};
use crate::segment::{grapheme_clusters, graphemes, is_segmentation, lemma_piece_within};
use crate::shape::{
    find_first_valid, find_last_valid, has_apostrophe, has_hyphen, holds_grapheme,
    lemma_valid_ends,
};
use crate::shuffle::{is_interior_shuffle, join_pieces, shuffle_interior};
use crate::split::{
    free_of, join_with, lemma_join_positions, lemma_join_split, lemma_rejoin, lemma_split_parts,
    lemma_split_within, same_places, split, split_on,
};
use crate::text::texts;
use vstd::prelude::*;

verus! {

/// 1 where the text holds the character, 0 where it does not.
pub open spec fn holds(s: Seq<char>, c: char) -> nat {
    if s.contains(c) {
        1
    } else {
        0
    }
}

/// The delimiter that is not the given one.
pub open spec fn other_delimiter(d: char) -> char {
    if d == '-' {
        '\''
    } else {
        '-'
    }
}

/// Scrambled parts of a token that holds the delimiter are parts shorter than the token.
proof fn lemma_parts_outcome(s: Seq<char>, d: char, outs: Seq<Seq<char>>)
    requires
        s.contains(d),
        each_scrambled(split(s, d), outs),
    ensures
        parts_outcome(s.len(), split(s, d), outs),
{
    lemma_split_parts(s, d);
}

/// The same for a token that is cut at its hyphens first and at its apostrophes then.
proof fn lemma_nested_outcome(s: Seq<char>, outs: Seq<Seq<char>>)
    requires
        s.contains('-'),
        each_nested(split(s, '-'), outs),
    ensures
        nested_outcome(s.len(), split(s, '-'), outs),
{
    let parts = split(s, '-');
    lemma_split_parts(s, '-');
    assert forall|i: int| #![trigger parts[i]] 0 <= i < parts.len() implies parts_outcome(
        s.len(),
        split(parts[i], '\''),
        split(outs[i], '\''),
    ) by {
        let leaves = split(parts[i], '\'');
        lemma_split_parts(parts[i], '\'');
        assert(each_scrambled(leaves, split(outs[i], '\'')));
        assert forall|j: int| #![trigger leaves[j]] 0 <= j < leaves.len() implies leaves[j].len()
            < s.len() && scramble_outcome(leaves[j], split(outs[i], '\'')[j]) by {}
    }
}

/// A delimiter that is a grapheme of the token is a character of the token.
proof fn lemma_delimiter_within(s: Seq<char>, d: char)
    requires
        is_segmentation(graphemes(s), s),
        graphemes(s).contains(seq![d]),
    ensures
        s.contains(d),
{
    let g = graphemes(s);
    let i = choose|i: int| 0 <= i < g.len() && g[i] == seq![d];
    assert(g[i][0] == d);
    lemma_piece_within(g, i, d);
}

/// Scrambles a token, the one entry point of the library for single words.
///
/// A token of at most three graphemes or of more than twenty, and one that counts as a
/// number, comes back as it is. One with hyphens or apostrophes is scrambled part by part.
/// Of any other the graphemes between the first and the last letter or digit are shuffled.
/// Which order they get is not fixed. Whatever it is, the result is as long as the token and
/// holds its characters, each as often; hyphens and apostrophes that are graphemes of the
/// token stand where they stood; and a token without them is put together from its own
/// graphemes, those up to the first letter or digit and from the last one on in their places.
/// Where the token is stable, these are the graphemes of the result.
pub fn scramble_word(s: String) -> (out: String)
    ensures
        scramble_outcome(s@, out@),
        out@.len() == s@.len(),
        out@.to_multiset() == s@.to_multiset(),
        is_exempt(s@) ==> out@ == s@,
        is_plain(s@) ==> keeps_ends(s@, out@),
        is_plain(s@) ==> exists|p: Seq<Seq<char>>|
            out@ == p.flatten() && #[trigger] keeps_boundaries(graphemes(s@), p),
        is_plain(s@) && is_stable(s@) ==> keeps_boundaries(graphemes(s@), graphemes(out@)),
        has_hyphen(s@) ==> same_places(s@, out@, '-'),
        has_apostrophe(s@) ==> same_places(s@, out@, '\''),
    decreases 3 * (holds(s@, '-') + holds(s@, '\'')),
{
    let ghost token = s@;
    let g = grapheme_clusters(s.as_str());
    assert(texts(g@).len() == g@.len());
    let out = if g.len() <= 3 || g.len() > 20 || is_numeric_string(s.as_str()) {
        s
    } else {
        let apostrophes = holds_grapheme(&g, '\'');
        let hyphens = holds_grapheme(&g, '-');
        proof {
            if hyphens {
                lemma_delimiter_within(token, '-');
            }
            if apostrophes {
                lemma_delimiter_within(token, '\'');
            }
        }
        if apostrophes && hyphens {
            let out = handle_apostrophe_and_hyphenated_string(s.as_str());
            proof {
                lemma_nested_outcome(token, split(out@, '-'));
            }
            out
        } else if apostrophes {
            let out = handle_apostrophe_string(s.as_str());
            proof {
                lemma_parts_outcome(token, '\'', split(out@, '\''));
            }
            out
        } else if hyphens {
            let out = handle_hyphenated_string(s.as_str());
            proof {
                lemma_parts_outcome(token, '-', split(out@, '-'));
            }
            out
        } else {
            let valid_chars = get_all_valid_ascii_chars();
            match (find_first_valid(&g, &valid_chars), find_last_valid(&g, &valid_chars)) {
                (Some(first), Some(last)) => {
                    if first < last {
                        proof {
                            lemma_valid_ends(texts(g@), valid_chars@);
                        }
                        let p = shuffle_interior(&g, first, last);
                        let out = join_pieces(&p);
                        proof {
                            assert(is_interior_shuffle(
                                graphemes(token),
                                texts(p@),
                                first as int,
                                last as int,
                            ) && out@ == texts(p@).flatten());
                        }
                        out
                    } else {
                        s
                    }
                },
                _ => s,
            }
        }
    };
    proof {
        lemma_same_characters(token, out@);
        if is_plain(token) {
            lemma_plain_keeps_ends(token, out@);
            let p = lemma_plain_pieces(token, out@);
            assert(out@ == p.flatten() && keeps_boundaries(graphemes(token), p));
            if is_stable(token) {
                lemma_stable_graphemes(token, out@);
            }
        }
        if has_hyphen(token) {
            lemma_hyphens_stay(token, out@);
        }
        if has_apostrophe(token) {
            lemma_apostrophes_stay(token, out@);
        }
    }
    out
}

/// Cuts a token at a delimiter, scrambles each part on its own and puts the parts together
/// again with the delimiter between them.
fn scramble_parts(s: &str, d: char) -> (out: String)
    requires
        d == '-' || d == '\'',
    ensures
        each_scrambled(split(s@, d), split(out@, d)),
        out@.to_multiset() == s@.to_multiset(),
        same_places(s@, out@, d),
    decreases 3 * holds(s@, other_delimiter(d)) + 1,
{
    let parts = split_on(s, d);
    let mut outs: Vec<String> = Vec::new();
    let mut i: usize = 0;
    proof {
        lemma_split_parts(s@, d);
    }
    while i < parts.len()
        invariant
            d == '-' || d == '\'',
            texts(parts@) == split(s@, d),
            free_of(split(s@, d), d),
            i <= parts.len(),
            outs.len() == i,
            forall|j: int|
                #![trigger texts(outs@)[j]]
                0 <= j < i ==> scramble_outcome(texts(parts@)[j], texts(outs@)[j]) && texts(
                    outs@,
                )[j].to_multiset() == texts(parts@)[j].to_multiset(),
        decreases parts.len() - i,
    {
        let part: String = parts[i].to_owned();
        proof {
            let e = other_delimiter(d);
            assert(part@ == split(s@, d)[i as int]);
            assert(!part@.contains(d));
            if part@.contains(e) {
                lemma_split_within(s@, d, i as int, e);
            }
        }
        let scrambled = scramble_word(part);
        let ghost before = texts(outs@);
        outs.push(scrambled);
        proof {
            assert(texts(outs@) == before.push(scrambled@));
            assert forall|j: int| #![trigger texts(outs@)[j]] 0 <= j < i + 1 implies scramble_outcome(
                texts(parts@)[j],
                texts(outs@)[j],
            ) && texts(outs@)[j].to_multiset() == texts(parts@)[j].to_multiset() by {
                if j < i {
                    assert(texts(outs@)[j] == before[j]);
                }
            }
        }
        i += 1;
    }
    let out = join_with(&outs, d);
    proof {
        let ps = split(s@, d);
        let os = texts(outs@);
        assert forall|j: int| 0 <= j < os.len() implies (#[trigger] os[j]).to_multiset()
            == ps[j].to_multiset() by {
            assert(texts(outs@)[j].to_multiset() == texts(parts@)[j].to_multiset());
        }
        lemma_rejoin(s@, os, d);
        assert forall|j: int| #![trigger ps[j]] 0 <= j < ps.len() implies scramble_outcome(
            ps[j],
            os[j],
        ) by {
            assert(scramble_outcome(ps[j], texts(outs@)[j]));
        }
    }
    out
}

/// Scrambles a token with apostrophes: each part between two apostrophes on its own. The
/// apostrophes stay where they are, and the result holds the characters of the token, each
/// as often.
pub fn handle_apostrophe_string(s: &str) -> (out: String)
    ensures
        each_scrambled(split(s@, '\''), split(out@, '\'')),
        out@.to_multiset() == s@.to_multiset(),
        same_places(s@, out@, '\''),
    decreases 3 * holds(s@, '-') + 2,
{
    scramble_parts(s, '\'')
}

/// Scrambles a token with hyphens: each part between two hyphens on its own. The hyphens
/// stay where they are, and the result holds the characters of the token, each as often.
pub fn handle_hyphenated_string(s: &str) -> (out: String)
    ensures
        each_scrambled(split(s@, '-'), split(out@, '-')),
        out@.to_multiset() == s@.to_multiset(),
        same_places(s@, out@, '-'),
    decreases 3 * holds(s@, '\'') + 2,
{
    scramble_parts(s, '-')
}

/// Scrambles a token with hyphens and apostrophes: it is cut at the hyphens, each part at its
/// apostrophes, and what lies between is scrambled on its own. Hyphens and apostrophes stay
/// where they are, and the result holds the characters of the token, each as often.
pub fn handle_apostrophe_and_hyphenated_string(s: &str) -> (out: String)
    ensures
        each_nested(split(s@, '-'), split(out@, '-')),
        out@.to_multiset() == s@.to_multiset(),
        same_places(s@, out@, '-'),
        same_places(s@, out@, '\''),
    decreases 2nat,
{
    let parts = split_on(s, '-');
    let mut outs: Vec<String> = Vec::new();
    let mut i: usize = 0;
    proof {
        lemma_split_parts(s@, '-');
    }
    while i < parts.len()
        invariant
            texts(parts@) == split(s@, '-'),
            free_of(split(s@, '-'), '-'),
            i <= parts.len(),
            outs.len() == i,
            forall|j: int|
                #![trigger texts(outs@)[j]]
                0 <= j < i ==> {
                    &&& each_scrambled(split(texts(parts@)[j], '\''), split(texts(outs@)[j], '\''))
                    &&& texts(outs@)[j].to_multiset() == texts(parts@)[j].to_multiset()
                    &&& same_places(texts(parts@)[j], texts(outs@)[j], '\'')
                },
        decreases parts.len() - i,
    {
        proof {
            assert(parts@[i as int]@ == split(s@, '-')[i as int]);
            assert(!parts@[i as int]@.contains('-'));
        }
        let scrambled = scramble_parts(parts[i], '\'');
        let ghost before = texts(outs@);
        outs.push(scrambled);
        proof {
            assert(texts(outs@) == before.push(scrambled@));
            assert forall|j: int| #![trigger texts(outs@)[j]] 0 <= j < i + 1 implies {
                &&& each_scrambled(split(texts(parts@)[j], '\''), split(texts(outs@)[j], '\''))
                &&& texts(outs@)[j].to_multiset() == texts(parts@)[j].to_multiset()
                &&& same_places(texts(parts@)[j], texts(outs@)[j], '\'')
            } by {
                if j < i {
                    assert(texts(outs@)[j] == before[j]);
                }
            }
        }
        i += 1;
    }
    let out = join_with(&outs, '-');
    proof {
        let ps = split(s@, '-');
        let os = texts(outs@);
        assert forall|j: int| 0 <= j < os.len() implies (#[trigger] os[j]).to_multiset()
            == ps[j].to_multiset() by {
            assert(texts(outs@)[j].to_multiset() == texts(parts@)[j].to_multiset());
        }
        lemma_rejoin(s@, os, '-');
        assert forall|j: int| 0 <= j < ps.len() implies same_places(#[trigger] ps[j], os[j], '\'') by {
            assert(same_places(texts(parts@)[j], texts(outs@)[j], '\''));
        }
        lemma_join_positions(ps, os, '-', '\'');
        lemma_join_split(s@, '-');
        assert forall|j: int| #![trigger ps[j]] 0 <= j < ps.len() implies each_scrambled(
            split(ps[j], '\''),
            split(os[j], '\''),
        ) by {
            assert(each_scrambled(split(texts(parts@)[j], '\''), split(texts(outs@)[j], '\'')));
        }
    }
    out
}

} // verus!
