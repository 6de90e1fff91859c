use vstd::prelude::*;

verus! {

/// Whether a character is white space, as the standard library judges it.
pub uninterp spec fn is_white_space(c: char) -> bool;

/// `char::is_whitespace` of the standard library. Its answer depends on the character alone;
/// which characters it accepts is left to the name [`is_white_space`].
pub assume_specification[ char::is_whitespace ](c: char) -> (b: bool)
    ensures
        b == is_white_space(c),
;

/// `String::push` of the standard library: the character goes to the end of the text.
pub assume_specification[ String::push ](s: &mut String, c: char)
    ensures
        final(s)@ == old(s)@.push(c),
;

/// A text without the white space at its start.
pub open spec fn trim_start(s: Seq<char>) -> Seq<char>
    decreases s.len(),
{
    if s.len() > 0 && is_white_space(s.first()) {
        trim_start(s.drop_first())
    } else {
        s
    }
}

/// A text without the white space at its end.
pub open spec fn trim_end(s: Seq<char>) -> Seq<char>
    decreases s.len(),
{
    if s.len() > 0 && is_white_space(s.last()) {
        trim_end(s.drop_last())
    } else {
        s
    }
}

/// A text without the white space at either end.
pub open spec fn trimmed(s: Seq<char>) -> Seq<char> {
    trim_end(trim_start(s))
}

/// How many characters at the start of a text are no white space.
pub open spec fn word_len(s: Seq<char>) -> nat
    decreases s.len(),
{
    if s.len() > 0 && !is_white_space(s.first()) {
        1 + word_len(s.drop_first())
    } else {
        0
    }
}

/// The words of a text: its longest runs of characters that are no white space, in order.
pub open spec fn words(s: Seq<char>) -> Seq<Seq<char>>
    decreases s.len(),
{
    if s.len() == 0 {
        Seq::empty()
    } else if is_white_space(s.first()) {
        words(s.drop_first())
    } else {
        proof {
            lemma_word_len_bound(s);
        }
        seq![s.take(word_len(s) as int)] + words(s.skip(word_len(s) as int))
    }
}

/// The texts that a sequence of strings or string slices stands for.
pub open spec fn texts<T: View>(pieces: Seq<T>) -> Seq<T::V> {
    pieces.map_values(|p: T| p@)
}

/// A run of characters that are no white space is no longer than the text.
pub proof fn lemma_word_len_bound(s: Seq<char>)
    ensures
        word_len(s) <= s.len(),
        forall|i: int| 0 <= i < word_len(s) ==> !is_white_space(#[trigger] s[i]),
        word_len(s) < s.len() ==> is_white_space(s[word_len(s) as int]),
    decreases s.len(),
{
    if s.len() > 0 && !is_white_space(s.first()) {
        let t = s.drop_first();
        lemma_word_len_bound(t);
        assert forall|i: int| 0 <= i < word_len(s) implies !is_white_space(#[trigger] s[i]) by {
            if i > 0 {
                assert(s[i] == t[i - 1]);
            }
        }
        if word_len(s) < s.len() {
            assert(s[word_len(s) as int] == t[word_len(t) as int]);
        }
    }
}

/// Whether a text is not empty and holds no white space.
pub open spec fn is_word(w: Seq<char>) -> bool {
    w.len() > 0 && forall|k: int| 0 <= k < w.len() ==> !is_white_space(#[trigger] w[k])
}

/// No word is empty, and no word holds white space.
pub proof fn lemma_words(s: Seq<char>)
    ensures
        forall|i: int| 0 <= i < words(s).len() ==> is_word(#[trigger] words(s)[i]),
    decreases s.len(),
{
    if s.len() == 0 {
        assert(words(s).len() == 0);
    } else if is_white_space(s.first()) {
        lemma_words(s.drop_first());
        assert(words(s) == words(s.drop_first()));
    } else {
        lemma_word_len_bound(s);
        let n = word_len(s) as int;
        let rest = s.skip(n);
        lemma_words(rest);
        let all = words(s);
        assert(all == seq![s.take(n)] + words(rest));
        assert forall|i: int| 0 <= i < all.len() implies is_word(#[trigger] all[i]) by {
            if i == 0 {
                assert(all[0] == s.take(n));
                assert(is_word(s.take(n)));
            } else {
                assert(all[i] == words(rest)[i - 1]);
                assert(is_word(words(rest)[i - 1]));
            }
        }
    }
}

/// A trimmed text neither starts nor ends with white space.
pub proof fn lemma_trimmed(s: Seq<char>)
    ensures
        trimmed(s).len() > 0 ==> !is_white_space(trimmed(s).first()) && !is_white_space(
            trimmed(s).last(),
        ),
{
    lemma_trim_start(s);
    lemma_trim_end(trim_start(s));
}

/// What is left after the white space at the start does not start with white space, and it
/// is the end of the text.
proof fn lemma_trim_start(s: Seq<char>)
    ensures
        trim_start(s).len() > 0 ==> !is_white_space(trim_start(s).first()),
        trim_start(s).len() <= s.len(),
        trim_start(s) == s.skip(s.len() - trim_start(s).len()),
    decreases s.len(),
{
    if s.len() > 0 && is_white_space(s.first()) {
        let t = s.drop_first();
        lemma_trim_start(t);
        assert(t.skip(t.len() - trim_start(t).len()) == s.skip(s.len() - trim_start(t).len()));
    } else {
        assert(s.skip(0) == s);
    }
}

/// What is left after the white space at the end does not end with white space, and it is
/// the start of the text.
proof fn lemma_trim_end(s: Seq<char>)
    ensures
        trim_end(s).len() > 0 ==> !is_white_space(trim_end(s).last()),
        trim_end(s).len() <= s.len(),
        trim_end(s) == s.take(trim_end(s).len() as int),
    decreases s.len(),
{
    if s.len() > 0 && is_white_space(s.last()) {
        let t = s.drop_last();
        lemma_trim_end(t);
        assert(t.take(trim_end(t).len() as int) == s.take(trim_end(t).len() as int));
    } else {
        assert(s.take(s.len() as int) == s);
    }
}

/// The characters of a text, for indexing in constant time.
pub fn chars_of(s: &str) -> (v: Vec<char>)
    ensures
        v@ == s@,
{
    let mut v: Vec<char> = Vec::new();
    for c in it: s.chars()
        invariant
            it.seq() == s@,
            v@ == s@.take(it.index() as int),
    {
        v.push(c);
        proof {
            let k = it.index() as int;
            assert(s@.take(k + 1) == s@.take(k).push(s@[k]));
        }
    }
    proof {
        assert(s@.take(s@.len() as int) == s@);
    }
    v
}

/// A text without the white space at either end.
pub fn trim(s: &str) -> (t: &str)
    ensures
        t@ == trimmed(s@),
{
    let cs = chars_of(s);
    let n = cs.len();
    let mut a: usize = 0;
    assert(s@.skip(0) == s@);
    while a < n && cs[a].is_whitespace()
        invariant
            cs@ == s@,
            n == cs@.len(),
            a <= n,
            trim_start(s@) == trim_start(s@.skip(a as int)),
        decreases n - a,
    {
        proof {
            let rest = s@.skip(a as int);
            assert(rest.first() == s@[a as int]);
            assert(rest.drop_first() == s@.skip(a + 1));
        }
        a += 1;
    }
    let ghost front = s@.skip(a as int);
    assert(trim_start(s@) == front) by {
        if a < n {
            assert(front.first() == s@[a as int]);
        }
    }
    let mut b: usize = n;
    while b > a && cs[b - 1].is_whitespace()
        invariant
            cs@ == s@,
            n == cs@.len(),
            a <= b <= n,
            trim_end(front) == trim_end(s@.subrange(a as int, b as int)),
            front == s@.skip(a as int),
        decreases b - a,
    {
        proof {
            let cur = s@.subrange(a as int, b as int);
            assert(cur.last() == s@[b - 1]);
            assert(cur.drop_last() == s@.subrange(a as int, b - 1));
        }
        b -= 1;
    }
    proof {
        let cur = s@.subrange(a as int, b as int);
        assert(front == s@.subrange(a as int, n as int));
        if b > a {
            assert(cur.last() == s@[b - 1]);
        }
        assert(trim_end(cur) == cur);
    }
    s.substring_char(a, b)
}

/// The words of a text: its longest runs of characters that are no white space, in order.
pub fn split_words<'a>(s: &'a str) -> (w: Vec<&'a str>)
    ensures
        texts(w@) == words(s@),
{
    let cs = chars_of(s);
    let n = cs.len();
    let mut w: Vec<&'a str> = Vec::new();
    let mut pos: usize = 0;
    assert(s@.skip(0) == s@);
    assert(texts(w@) + words(s@) == words(s@));
    while pos < n
        invariant
            cs@ == s@,
            n == cs@.len(),
            pos <= n,
            texts(w@) + words(s@.skip(pos as int)) == words(s@),
        decreases n - pos,
    {
        let ghost rest = s@.skip(pos as int);
        proof {
            assert(rest.first() == s@[pos as int]);
        }
        if cs[pos].is_whitespace() {
            proof {
                assert(rest.drop_first() == s@.skip(pos + 1));
            }
            pos += 1;
        } else {
            let mut end: usize = pos + 1;
            proof {
                lemma_word_len_bound(rest);
            }
            while end < n && !cs[end].is_whitespace()
                invariant
                    cs@ == s@,
                    n == cs@.len(),
                    pos < end <= n,
                    rest == s@.skip(pos as int),
                    end - pos <= word_len(rest),
                    word_len(rest) <= rest.len(),
                    forall|i: int| 0 <= i < word_len(rest) ==> !is_white_space(#[trigger] rest[i]),
                    word_len(rest) < rest.len() ==> is_white_space(rest[word_len(rest) as int]),
                decreases n - end,
            {
                proof {
                    assert(rest[end - pos] == s@[end as int]);
                }
                end += 1;
            }
            proof {
                if end < n {
                    assert(rest[end - pos] == s@[end as int]);
                }
                assert(end - pos == word_len(rest));
                assert(rest.take(end - pos) == s@.subrange(pos as int, end as int));
                assert(rest.skip(end - pos) == s@.skip(end as int));
            }
            let word = s.substring_char(pos, end);
            let ghost before = texts(w@);
            w.push(word);
            proof {
                assert(texts(w@) == before.push(word@));
                assert(texts(w@) + words(s@.skip(end as int)) == before + (seq![word@] + words(
                    s@.skip(end as int),
                )));
            }
            pos = end;
        }
    }
    proof {
        assert(s@.skip(n as int).len() == 0);
        assert(texts(w@) + Seq::<Seq<char>>::empty() == texts(w@));
    }
    w
}

} // verus!
