use crate::text::{chars_of, texts};
use vstd::prelude::*;
use vstd::seq_lib::group_to_multiset_ensures;
use vstd::seq_lib::lemma_multiset_commutative;

verus! {

/// How many characters at the start of a text differ from the delimiter.
pub open spec fn part_len(s: Seq<char>, d: char) -> nat
    decreases s.len(),
{
    if s.len() > 0 && s.first() != d {
        1 + part_len(s.drop_first(), d)
    } else {
        0
    }
}

/// The parts of a text between the occurrences of a delimiter, in order. A text without the
/// delimiter is its own single part; a delimiter at either end, or two in a row, give an
/// empty part.
pub open spec fn split(s: Seq<char>, d: char) -> Seq<Seq<char>>
    decreases s.len(),
{
    let n = part_len(s, d) as int;
    if n >= s.len() {
        seq![s]
    } else {
        seq![s.take(n)] + split(s.skip(n + 1), d)
    }
}

/// The parts put together again, with the delimiter between each two.
pub open spec fn join(parts: Seq<Seq<char>>, d: char) -> Seq<char>
    decreases parts.len(),
{
    if parts.len() == 0 {
        Seq::empty()
    } else if parts.len() == 1 {
        parts.first()
    } else {
        parts.first() + seq![d] + join(parts.drop_first(), d)
    }
}

/// Whether none of the parts holds the delimiter.
pub open spec fn free_of(parts: Seq<Seq<char>>, d: char) -> bool {
    forall|i: int| 0 <= i < parts.len() ==> !(#[trigger] parts[i]).contains(d)
}

/// Whether `out` is as long as `s` and holds the character `c` at exactly the places where
/// `s` holds it.
pub open spec fn same_places(s: Seq<char>, out: Seq<char>, c: char) -> bool {
    &&& out.len() == s.len()
    &&& forall|k: int| 0 <= k < s.len() ==> (#[trigger] s[k] == c <==> out[k] == c)
}

/// The first part ends where the delimiter first stands, or with the text.
pub proof fn lemma_part_len(s: Seq<char>, d: char)
    ensures
        part_len(s, d) <= s.len(),
        forall|i: int| 0 <= i < part_len(s, d) ==> #[trigger] s[i] != d,
        part_len(s, d) < s.len() ==> s[part_len(s, d) as int] == d,
        part_len(s, d) == s.len() <==> !s.contains(d),
    decreases s.len(),
{
    if s.len() > 0 && s.first() != d {
        let t = s.drop_first();
        lemma_part_len(t, d);
        assert forall|i: int| 0 <= i < part_len(s, d) implies #[trigger] s[i] != d by {
            if i > 0 {
                assert(s[i] == t[i - 1]);
            }
        }
        if part_len(s, d) < s.len() {
            assert(s[part_len(s, d) as int] == t[part_len(t, d) as int]);
        }
    }
    let n = part_len(s, d) as int;
    if n < s.len() {
        assert(s[n] == d);
    } else {
        assert(!s.contains(d));
    }
}

/// A length that stops at the first delimiter, or at the end of a text without one, is the
/// length of the first part.
pub proof fn lemma_part_len_is(s: Seq<char>, d: char, k: int)
    requires
        0 <= k <= s.len(),
        forall|i: int| 0 <= i < k ==> s[i] != d,
        k < s.len() ==> s[k] == d,
    ensures
        part_len(s, d) == k,
{
    lemma_part_len(s, d);
    let n = part_len(s, d) as int;
    if n < k {
        assert(s[n] == d);
    } else if n > k {
        assert(s[k] != d);
    }
}

/// Splitting gives at least one part, none of them holds the delimiter, and none is longer
/// than the text.
pub proof fn lemma_split_parts(s: Seq<char>, d: char)
    ensures
        split(s, d).len() >= 1,
        free_of(split(s, d), d),
        forall|i: int| 0 <= i < split(s, d).len() ==> (#[trigger] split(s, d)[i]).len() <= s.len(),
        s.contains(d) ==> forall|i: int|
            0 <= i < split(s, d).len() ==> (#[trigger] split(s, d)[i]).len() < s.len(),
        !s.contains(d) ==> split(s, d) == seq![s],
    decreases s.len(),
{
    lemma_part_len(s, d);
    let n = part_len(s, d) as int;
    if n < s.len() {
        let rest = s.skip(n + 1);
        lemma_split_parts(rest, d);
        let head = s.take(n);
        assert(!head.contains(d));
        let all = split(s, d);
        assert(all == seq![head] + split(rest, d));
        assert forall|i: int| 0 <= i < all.len() implies !(#[trigger] all[i]).contains(d) && all[i].len()
            < s.len() by {
            if i > 0 {
                assert(all[i] == split(rest, d)[i - 1]);
            }
        }
    } else {
        assert(split(s, d)[0] == s);
    }
}

/// Every character of a part is a character of the text.
pub proof fn lemma_split_within(s: Seq<char>, d: char, i: int, c: char)
    requires
        0 <= i < split(s, d).len(),
        split(s, d)[i].contains(c),
    ensures
        s.contains(c),
    decreases s.len(),
{
    lemma_part_len(s, d);
    let n = part_len(s, d) as int;
    let part = split(s, d)[i];
    let k = choose|k: int| 0 <= k < part.len() && part[k] == c;
    if n < s.len() {
        let rest = s.skip(n + 1);
        if i == 0 {
            assert(s[k] == c);
        } else {
            assert(split(s, d)[i] == split(rest, d)[i - 1]);
            lemma_split_within(rest, d, i - 1, c);
            let j = choose|j: int| 0 <= j < rest.len() && rest[j] == c;
            assert(s[n + 1 + j] == c);
        }
    } else {
        assert(s[k] == c);
    }
}

/// Joining what splitting gave restores the text.
pub proof fn lemma_join_split(s: Seq<char>, d: char)
    ensures
        join(split(s, d), d) == s,
    decreases s.len(),
{
    lemma_part_len(s, d);
    let n = part_len(s, d) as int;
    if n < s.len() {
        let rest = s.skip(n + 1);
        lemma_join_split(rest, d);
        lemma_split_parts(rest, d);
        let all = split(s, d);
        assert(all.first() == s.take(n));
        assert(all.drop_first() == split(rest, d));
        assert(s.take(n) + seq![d] + rest == s);
    }
}

/// Splitting what joining gave restores the parts, where there is at least one part and none
/// holds the delimiter.
pub proof fn lemma_split_join(parts: Seq<Seq<char>>, d: char)
    requires
        parts.len() >= 1,
        free_of(parts, d),
    ensures
        split(join(parts, d), d) == parts,
    decreases parts.len(),
{
    let s = join(parts, d);
    let head = parts.first();
    assert(!head.contains(d));
    if parts.len() == 1 {
        lemma_part_len(s, d);
        assert(parts == seq![s]);
    } else {
        let tail = parts.drop_first();
        assert(free_of(tail, d)) by {
            assert forall|i: int| 0 <= i < tail.len() implies !(#[trigger] tail[i]).contains(d) by {
                assert(tail[i] == parts[i + 1]);
            }
        }
        lemma_split_join(tail, d);
        let n = head.len() as int;
        assert(s == head + seq![d] + join(tail, d));
        assert forall|i: int| 0 <= i < n implies s[i] != d by {
            assert(s[i] == head[i]);
            if head[i] == d {
                assert(head.contains(d));
            }
        }
        assert(s[n] == d);
        lemma_part_len_is(s, d, n);
        assert(s.take(n) == head);
        assert(s.skip(n + 1) == join(tail, d));
        assert(seq![head] + tail == parts);
    }
}

/// Joining one part more: the delimiter and the part go to the end.
pub proof fn lemma_join_push(parts: Seq<Seq<char>>, last: Seq<char>, d: char)
    ensures
        join(parts.push(last), d) == if parts.len() == 0 {
            last
        } else {
            join(parts, d) + seq![d] + last
        },
    decreases parts.len(),
{
    let all = parts.push(last);
    if parts.len() == 0 {
        assert(all.first() == last);
    } else {
        let tail = parts.drop_first();
        lemma_join_push(tail, last, d);
        assert(all.drop_first() == tail.push(last));
        assert(all.first() == parts.first());
        if parts.len() == 1 {
            assert(join(parts, d) == parts.first());
            assert(join(tail.push(last), d) == last);
        } else {
            assert(join(all, d) == parts.first() + seq![d] + (join(tail, d) + seq![d] + last));
            assert(join(parts, d) == parts.first() + seq![d] + join(tail, d));
        }
    }
}

/// Parts that hold the same characters, each as often, give joined texts that hold the same
/// characters, each as often.
pub proof fn lemma_join_multiset(a: Seq<Seq<char>>, b: Seq<Seq<char>>, d: char)
    requires
        a.len() == b.len(),
        forall|i: int| 0 <= i < a.len() ==> (#[trigger] a[i]).to_multiset() == b[i].to_multiset(),
    ensures
        join(a, d).to_multiset() == join(b, d).to_multiset(),
    decreases a.len(),
{
    if a.len() == 1 {
        assert(a[0].to_multiset() == b[0].to_multiset());
    } else if a.len() > 1 {
        let rest_a = a.drop_first();
        let rest_b = b.drop_first();
        assert forall|i: int| 0 <= i < rest_a.len() implies (#[trigger] rest_a[i]).to_multiset()
            == rest_b[i].to_multiset() by {
            assert(rest_a[i] == a[i + 1]);
            assert(rest_b[i] == b[i + 1]);
        }
        lemma_join_multiset(rest_a, rest_b, d);
        assert(a[0].to_multiset() == b[0].to_multiset());
        lemma_multiset_commutative(a.first() + seq![d], join(rest_a, d));
        lemma_multiset_commutative(a.first(), seq![d]);
        lemma_multiset_commutative(b.first() + seq![d], join(rest_b, d));
        lemma_multiset_commutative(b.first(), seq![d]);
    }
}

/// Where two texts have as many parts, and each part of the one is as long as that part of
/// the other, the texts are equally long and the delimiter stands at the same places in both.
pub proof fn lemma_delimiters_fixed(s: Seq<char>, out: Seq<char>, d: char)
    requires
        split(out, d).len() == split(s, d).len(),
        forall|i: int|
            0 <= i < split(s, d).len() ==> (#[trigger] split(out, d)[i]).len() == split(s, d)[i].len(),
    ensures
        same_places(s, out, d),
    decreases s.len(),
{
    lemma_part_len(s, d);
    lemma_part_len(out, d);
    let n = part_len(s, d) as int;
    let m = part_len(out, d) as int;
    assert(split(s, d)[0].len() == n);
    assert(split(out, d)[0].len() == m);
    assert(split(out, d)[0].len() == split(s, d)[0].len());
    if n < s.len() {
        let rs = s.skip(n + 1);
        lemma_split_parts(rs, d);
        assert(split(s, d).len() >= 2);
        if m >= out.len() {
            assert(split(out, d).len() == 1);
        }
        let ro = out.skip(m + 1);
        assert(split(s, d).drop_first() == split(rs, d));
        assert(split(out, d).drop_first() == split(ro, d));
        assert forall|i: int| 0 <= i < split(rs, d).len() implies (#[trigger] split(ro, d)[i]).len()
            == split(rs, d)[i].len() by {
            assert(split(ro, d)[i] == split(out, d)[i + 1]);
            assert(split(rs, d)[i] == split(s, d)[i + 1]);
        }
        lemma_delimiters_fixed(rs, ro, d);
        assert forall|k: int| 0 <= k < s.len() implies (#[trigger] s[k] == d <==> out[k] == d) by {
            if k > n {
                assert(s[k] == rs[k - n - 1]);
                assert(out[k] == ro[k - n - 1]);
            }
        }
    } else {
        if m < out.len() {
            lemma_split_parts(out.skip(m + 1), d);
            assert(split(out, d).len() >= 2);
        }
    }
}

/// Where each part of the one sequence is as long as that part of the other and holds a
/// given character at the same places, the joined texts are equally long and hold the
/// character at the same places.
pub proof fn lemma_join_positions(a: Seq<Seq<char>>, b: Seq<Seq<char>>, d: char, c: char)
    requires
        a.len() == b.len(),
        forall|i: int| 0 <= i < a.len() ==> same_places(#[trigger] a[i], b[i], c),
    ensures
        same_places(join(a, d), join(b, d), c),
    decreases a.len(),
{
    if a.len() == 1 {
        assert(same_places(a[0], b[0], c));
    } else if a.len() > 1 {
        let rest_a = a.drop_first();
        let rest_b = b.drop_first();
        assert forall|i: int| 0 <= i < rest_a.len() implies same_places(#[trigger] rest_a[i], rest_b[i], c) by {
            assert(rest_a[i] == a[i + 1]);
            assert(rest_b[i] == b[i + 1]);
            assert(same_places(a[i + 1], b[i + 1], c));
        }
        lemma_join_positions(rest_a, rest_b, d, c);
        assert(same_places(a[0], b[0], c));
        let ja = join(a, d);
        let jb = join(b, d);
        let n = a[0].len() as int;
        assert(ja == a[0] + seq![d] + join(rest_a, d));
        assert(jb == b[0] + seq![d] + join(rest_b, d));
        assert forall|k: int| 0 <= k < ja.len() implies (#[trigger] ja[k] == c <==> jb[k] == c) by {
            if k < n {
                assert(ja[k] == a[0][k]);
                assert(jb[k] == b[0][k]);
            } else if k == n {
                assert(ja[k] == d && jb[k] == d);
            } else {
                assert(ja[k] == join(rest_a, d)[k - n - 1]);
                assert(jb[k] == join(rest_b, d)[k - n - 1]);
            }
        }
    }
}

/// Parts put together in place of the parts of a text, each holding the characters of the
/// part it stands for, each as often. The parts are found again by splitting; the joined
/// text holds the characters of the text, each as often; and the delimiter stands at the same
/// places in both.
pub proof fn lemma_rejoin(s: Seq<char>, outs: Seq<Seq<char>>, d: char)
    requires
        outs.len() == split(s, d).len(),
        forall|i: int|
            0 <= i < outs.len() ==> (#[trigger] outs[i]).to_multiset() == split(s, d)[i].to_multiset(),
    ensures
        split(join(outs, d), d) == outs,
        join(outs, d).to_multiset() == s.to_multiset(),
        same_places(s, join(outs, d), d),
{
    broadcast use group_to_multiset_ensures;

    let parts = split(s, d);
    lemma_split_parts(s, d);
    assert forall|i: int| 0 <= i < outs.len() implies !(#[trigger] outs[i]).contains(d) by {
        assert(outs[i].to_multiset() == parts[i].to_multiset());
        assert(!parts[i].contains(d));
        assert(parts[i].to_multiset().count(d) == 0);
    }
    lemma_split_join(outs, d);
    assert forall|i: int| 0 <= i < parts.len() implies (#[trigger] parts[i]).to_multiset()
        == outs[i].to_multiset() by {
        assert(outs[i].to_multiset() == parts[i].to_multiset());
    }
    lemma_join_multiset(parts, outs, d);
    lemma_join_split(s, d);
    assert forall|i: int| 0 <= i < parts.len() implies (#[trigger] split(join(outs, d), d)[i]).len()
        == parts[i].len() by {
        assert(outs[i].to_multiset() == parts[i].to_multiset());
        assert(outs[i].to_multiset().len() == outs[i].len());
        assert(parts[i].to_multiset().len() == parts[i].len());
    }
    lemma_delimiters_fixed(s, join(outs, d), d);
}

/// The parts of a text between the occurrences of a delimiter, in order.
pub fn split_on<'a>(s: &'a str, d: char) -> (parts: Vec<&'a str>)
    ensures
        texts(parts@) == split(s@, d),
{
    let cs = chars_of(s);
    let n = cs.len();
    let mut parts: Vec<&'a str> = Vec::new();
    let mut start: usize = 0;
    let mut pos: usize = 0;
    assert(s@.skip(0) == s@);
    assert(texts(parts@) + split(s@, d) == split(s@, d));
    while pos < n
        invariant
            cs@ == s@,
            n == cs@.len(),
            start <= pos <= n,
            texts(parts@) + split(s@.skip(start as int), d) == split(s@, d),
            forall|i: int| start <= i < pos ==> s@[i] != d,
        decreases n - pos,
    {
        if cs[pos] == d {
            let ghost rest = s@.skip(start as int);
            let part = s.substring_char(start, pos);
            let ghost before = texts(parts@);
            parts.push(part);
            proof {
                lemma_part_len_is(rest, d, pos - start);
                assert(rest.take(pos - start) == part@);
                assert(rest.skip(pos - start + 1) == s@.skip(pos + 1));
                assert(texts(parts@) == before.push(part@));
                assert(texts(parts@) + split(s@.skip(pos + 1), d) == before + (seq![part@] + split(
                    s@.skip(pos + 1),
                    d,
                )));
            }
            start = pos + 1;
        }
        pos += 1;
    }
    let ghost rest = s@.skip(start as int);
    let part = s.substring_char(start, n);
    let ghost before = texts(parts@);
    parts.push(part);
    proof {
        lemma_part_len_is(rest, d, n - start);
        assert(rest == part@);
        assert(texts(parts@) == before.push(part@));
        assert(before.push(part@) == before + seq![part@]);
    }
    parts
}

/// The parts put together again, with the delimiter between each two.
pub fn join_with(parts: &Vec<String>, d: char) -> (out: String)
    ensures
        out@ == join(texts(parts@), d),
{
    let mut out = String::new();
    let mut i: usize = 0;
    assert(texts(parts@).take(0) == Seq::<Seq<char>>::empty());
    while i < parts.len()
        invariant
            i <= parts.len(),
            out@ == join(texts(parts@).take(i as int), d),
        decreases parts.len() - i,
    {
        if i > 0 {
            out.push(d);
        }
        out.append(parts[i].as_str());
        proof {
            let all = texts(parts@);
            lemma_join_push(all.take(i as int), all[i as int], d);
            assert(all.take(i + 1) == all.take(i as int).push(all[i as int]));
        }
        i += 1;
    }
    proof {
        assert(texts(parts@).take(parts.len() as int) == texts(parts@));
    }
    out
}

} // verus!
