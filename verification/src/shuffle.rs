use crate::text::texts;
use rand::seq::SliceRandom;
use vstd::prelude::*;
use vstd::seq_lib::{lemma_flatten_concat, lemma_multiset_commutative};
use vstd::seq_lib::group_to_multiset_ensures;

verus! {

/// Whether `p` holds the graphemes `g` with those strictly between `first` and `last` in
/// some order, and all others where they were.
pub open spec fn is_interior_shuffle(
    g: Seq<Seq<char>>,
    p: Seq<Seq<char>>,
    first: int,
    last: int,
) -> bool {
    &&& p.len() == g.len()
    &&& p.take(first + 1) == g.take(first + 1)
    &&& p.skip(last) == g.skip(last)
    &&& p.subrange(first + 1, last).to_multiset() == g.subrange(first + 1, last).to_multiset()
}

/// `SliceRandom::shuffle` with the generator of the thread, `rand::rng()`. Which order comes
/// out is left open; the elements are moved by swaps, so the texts afterwards are the texts
/// before, each as often as before.
#[verifier::external_body]
fn shuffle_pieces<'a>(pieces: &mut Vec<&'a str>)
    ensures
        texts(final(pieces)@).to_multiset() == texts(old(pieces)@).to_multiset(),
{
    pieces.shuffle(&mut rand::rng());
}

/// Taking one piece out takes its characters out of the whole: the pieces one after the
/// other hold the characters of the rest and those of the piece.
pub proof fn lemma_flatten_remove(p: Seq<Seq<char>>, j: int)
    requires
        0 <= j < p.len(),
    ensures
        p.flatten().to_multiset() == p.remove(j).flatten().to_multiset().add(p[j].to_multiset()),
{
    let a = p.take(j);
    let b = p.skip(j + 1);
    let x = p[j];
    assert(p == a + seq![x] + b);
    assert(p.remove(j) == a + b);
    lemma_flatten_concat(a + seq![x], b);
    lemma_flatten_concat(a, seq![x]);
    lemma_flatten_concat(a, b);
    seq![x].lemma_flatten_one_element();
    assert(seq![x].flatten() == x);
    lemma_multiset_commutative(a.flatten() + x, b.flatten());
    lemma_multiset_commutative(a.flatten(), x);
    lemma_multiset_commutative(a.flatten(), b.flatten());
    assert(p.flatten().to_multiset() =~= p.remove(j).flatten().to_multiset().add(x.to_multiset()));
}

/// Pieces in another order hold the same characters, each as often.
pub proof fn lemma_flatten_multiset(p: Seq<Seq<char>>, g: Seq<Seq<char>>)
    requires
        p.to_multiset() == g.to_multiset(),
    ensures
        p.flatten().to_multiset() == g.flatten().to_multiset(),
    decreases p.len(),
{
    broadcast use group_to_multiset_ensures;

    if p.len() == 0 {
        assert(p.to_multiset().len() == 0);
        assert(g.to_multiset().len() == g.len());
        assert(p == g);
    } else {
        let x = p.last();
        assert(p.contains(x));
        assert(g.to_multiset().count(x) > 0);
        assert(g.contains(x));
        let j = choose|j: int| 0 <= j < g.len() && g[j] == x;
        let fewer_p = p.remove(p.len() - 1);
        let fewer_g = g.remove(j);
        assert(fewer_p.to_multiset() == fewer_g.to_multiset());
        lemma_flatten_multiset(fewer_p, fewer_g);
        lemma_flatten_remove(p, p.len() - 1);
        lemma_flatten_remove(g, j);
    }
}

/// Where the graphemes between the ends were shuffled, all graphemes are still there, each
/// as often as before; and where at most one grapheme stands between the ends, nothing has
/// moved.
pub proof fn lemma_interior_shuffle(g: Seq<Seq<char>>, p: Seq<Seq<char>>, first: int, last: int)
    requires
        0 <= first < last < g.len(),
        is_interior_shuffle(g, p, first, last),
    ensures
        p.to_multiset() == g.to_multiset(),
        last - first <= 2 ==> p == g,
{
    broadcast use group_to_multiset_ensures;

    let gm = g.subrange(first + 1, last);
    let pm = p.subrange(first + 1, last);
    assert(g == g.take(first + 1) + gm + g.skip(last));
    assert(p == p.take(first + 1) + pm + p.skip(last));
    lemma_multiset_commutative(g.take(first + 1) + gm, g.skip(last));
    lemma_multiset_commutative(g.take(first + 1), gm);
    lemma_multiset_commutative(p.take(first + 1) + pm, p.skip(last));
    lemma_multiset_commutative(p.take(first + 1), pm);
    assert(p.to_multiset() =~= g.to_multiset());
    if last - first <= 2 {
        if last - first == 2 {
            assert(pm.contains(pm[0]));
            assert(gm.to_multiset().count(pm[0]) > 0);
            assert(gm.contains(pm[0]));
            assert(pm[0] == gm[0]);
        }
        assert(pm =~= gm);
    }
}

/// The graphemes up to and with `first`, then the given middle, then the graphemes from
/// `last` on.
pub fn assemble<'a>(g: &Vec<&'a str>, first: usize, last: usize, middle: &Vec<&'a str>) -> (p: Vec<
    &'a str,
>)
    requires
        first < last < g.len(),
    ensures
        texts(p@) == texts(g@).take(first + 1) + texts(middle@) + texts(g@).skip(last as int),
{
    let mut p: Vec<&'a str> = Vec::new();
    let mut i: usize = 0;
    while i <= first
        invariant
            i <= first + 1,
            first < g.len(),
            p@ == g@.take(i as int),
        decreases first + 1 - i,
    {
        p.push(g[i]);
        assert(g@.take(i + 1) == g@.take(i as int).push(g@[i as int]));
        i += 1;
    }
    let mut k: usize = 0;
    while k < middle.len()
        invariant
            k <= middle.len(),
            p@ == g@.take(first + 1) + middle@.take(k as int),
        decreases middle.len() - k,
    {
        p.push(middle[k]);
        assert(middle@.take(k + 1) == middle@.take(k as int).push(middle@[k as int]));
        k += 1;
    }
    assert(middle@.take(middle.len() as int) == middle@);
    let mut j: usize = last;
    while j < g.len()
        invariant
            last <= j <= g.len(),
            p@ == g@.take(first + 1) + middle@ + g@.subrange(last as int, j as int),
        decreases g.len() - j,
    {
        p.push(g[j]);
        assert(g@.subrange(last as int, j + 1) == g@.subrange(last as int, j as int).push(
            g@[j as int],
        ));
        j += 1;
    }
    assert(g@.subrange(last as int, g.len() as int) == g@.skip(last as int));
    assert(texts(p@) == texts(g@).take(first + 1) + texts(middle@) + texts(g@).skip(last as int));
    p
}

/// The graphemes of a token with those strictly between `first` and `last` shuffled. The
/// order of the shuffled ones is not fixed: two calls may differ.
pub fn shuffle_interior<'a>(g: &Vec<&'a str>, first: usize, last: usize) -> (p: Vec<&'a str>)
    requires
        first < last < g.len(),
    ensures
        is_interior_shuffle(texts(g@), texts(p@), first as int, last as int),
        texts(p@).to_multiset() == texts(g@).to_multiset(),
        last - first <= 2 ==> texts(p@) == texts(g@),
{
    let mut middle: Vec<&'a str> = Vec::new();
    let mut i: usize = first + 1;
    while i < last
        invariant
            first + 1 <= i <= last,
            last < g.len(),
            middle@ == g@.subrange(first + 1, i as int),
        decreases last - i,
    {
        middle.push(g[i]);
        assert(g@.subrange(first + 1, i + 1) == g@.subrange(first + 1, i as int).push(g@[i as int]));
        i += 1;
    }
    let ghost before = middle@;
    shuffle_pieces(&mut middle);
    let p = assemble(g, first, last, &middle);
    proof {
        let tg = texts(g@);
        let tp = texts(p@);
        assert(texts(before) == tg.subrange(first + 1, last as int));
        assert(texts(middle@).len() == last - first - 1) by {
            broadcast use group_to_multiset_ensures;

            assert(texts(middle@).to_multiset().len() == texts(middle@).len());
            assert(texts(before).to_multiset().len() == texts(before).len());
        }
        assert(tp.take(first + 1) == tg.take(first + 1));
        assert(tp.skip(last as int) == tg.skip(last as int));
        assert(tp.subrange(first + 1, last as int) == texts(middle@));
        lemma_interior_shuffle(tg, tp, first as int, last as int);
    }
    p
}

/// The pieces one after the other, as one text.
pub fn join_pieces(pieces: &Vec<&str>) -> (out: String)
    ensures
        out@ == texts(pieces@).flatten(),
{
    let mut out = String::new();
    let mut i: usize = 0;
    assert(texts(pieces@).take(0).flatten() == Seq::<char>::empty());
    while i < pieces.len()
        invariant
            i <= pieces.len(),
            out@ == texts(pieces@).take(i as int).flatten(),
        decreases pieces.len() - i,
    {
        out.append(pieces[i]);
        proof {
            let all = texts(pieces@);
            assert(all.take(i + 1) == all.take(i as int).push(all[i as int]));
            all.take(i as int).lemma_flatten_push(all[i as int]);
        }
        i += 1;
    }
    assert(texts(pieces@).take(pieces.len() as int) == texts(pieces@));
    out
}

} // verus!
