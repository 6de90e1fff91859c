use vstd::prelude::*;

verus! {

/// Whether a character belongs to the alphabet by which the fixed ends of a word are found:
/// the digits, the basic Latin letters, the letters of the Latin-1 supplement, and eight
/// further Latin letters.
pub open spec fn is_valid_char(c: char) -> bool {
    ||| '0' <= c <= '9'
    ||| 'A' <= c <= 'Z'
    ||| 'a' <= c <= 'z'
    ||| 'À' <= c <= 'ö'
    ||| 'ø' <= c <= 'ÿ'
    ||| c == 'ƒ'
    ||| c == 'Š'
    ||| c == 'Œ'
    ||| c == 'Ž'
    ||| c == 'š'
    ||| c == 'œ'
    ||| c == 'ž'
    ||| c == 'Ÿ'
}

/// The integers from `lo` up to, but without, `hi`.
pub open spec fn span(lo: usize, hi: usize) -> Seq<usize> {
    Seq::new((hi - lo) as nat, |i: int| (lo + i) as usize)
}

/// The code points of the eight letters of the alphabet that lie in no range.
pub open spec fn stray_codes() -> Seq<usize> {
    seq![402usize, 352usize, 338usize, 381usize, 353usize, 339usize, 382usize, 376usize]
}

/// The alphabet as a list of code points, range after range, the eight single letters last.
pub open spec fn valid_codes() -> Seq<usize> {
    span(48, 58) + span(65, 91) + span(97, 123) + span(192, 247) + span(248, 256) + stray_codes()
}

/// The number of a character's code point.
pub open spec fn code_of(c: char) -> int {
    c as int
}

/// Whether a list of code points holds a given number.
pub open spec fn holds_code(list: Seq<usize>, code: int) -> bool {
    exists|i: int| 0 <= i < list.len() && list[i] == code
}

/// Whether a grapheme counts as a letter or digit of the word by a list of code points: it
/// is one code point, and the list holds it. A cluster of several code points never counts,
/// whatever it starts with.
pub open spec fn is_valid_grapheme(g: Seq<char>, valid: Seq<usize>) -> bool {
    g.len() == 1 && holds_code(valid, code_of(g[0]))
}

/// The list [`valid_codes`] holds exactly the code points of the characters of
/// [`is_valid_char`].
pub proof fn lemma_valid_codes(c: char)
    ensures
        holds_code(valid_codes(), code_of(c)) <==> is_valid_char(c),
{
    let a = span(48, 58);
    let b = span(65, 91);
    let d = span(97, 123);
    let e = span(192, 247);
    let f = span(248, 256);
    let s = stray_codes();
    let all = valid_codes();
    let n = code_of(c);
    assert(all.len() == 10 + 26 + 26 + 55 + 8 + 8);
    if is_valid_char(c) {
        if 48 <= n <= 57 {
            assert(all[n - 48] == n);
        } else if 65 <= n <= 90 {
            assert(all[10 + n - 65] == n);
        } else if 97 <= n <= 122 {
            assert(all[36 + n - 97] == n);
        } else if 192 <= n <= 246 {
            assert(all[62 + n - 192] == n);
        } else if 248 <= n <= 255 {
            assert(all[117 + n - 248] == n);
        } else {
            assert(all[125] == 402 && all[126] == 352 && all[127] == 338 && all[128] == 381);
            assert(all[129] == 353 && all[130] == 339 && all[131] == 382 && all[132] == 376);
        }
    }
    if holds_code(all, n) {
        let i = choose|i: int| 0 <= i < all.len() && all[i] == n;
        if i < 10 {
            assert(all[i] == a[i]);
        } else if i < 36 {
            assert(all[i] == b[i - 10]);
        } else if i < 62 {
            assert(all[i] == d[i - 36]);
        } else if i < 117 {
            assert(all[i] == e[i - 62]);
        } else if i < 125 {
            assert(all[i] == f[i - 117]);
        } else {
            assert(all[i] == s[i - 125]);
        }
    }
}

/// With the whole alphabet as the list, the graphemes that count are the single characters
/// of [`is_valid_char`].
pub proof fn lemma_valid_grapheme(g: Seq<char>)
    ensures
        is_valid_grapheme(g, valid_codes()) <==> g.len() == 1 && is_valid_char(g[0]),
{
    if g.len() == 1 {
        lemma_valid_codes(g[0]);
    }
}

/// Appends the integers from `lo` up to, but without, `hi` to a list.
fn push_span(v: &mut Vec<usize>, lo: usize, hi: usize)
    requires
        lo <= hi,
    ensures
        final(v)@ == old(v)@ + span(lo, hi),
{
    let mut c: usize = lo;
    while c < hi
        invariant
            lo <= c <= hi,
            v@ == old(v)@ + span(lo, c),
        decreases hi - c,
    {
        v.push(c);
        assert(span(lo, (c + 1) as usize) == span(lo, c).push(c));
        c += 1;
    }
}

/// The alphabet as a list of code points, in the order of [`valid_codes`].
pub fn get_all_valid_ascii_chars() -> (v: Vec<usize>)
    ensures
        v@ == valid_codes(),
        forall|c: char| holds_code(v@, code_of(c)) <==> is_valid_char(c),
{
    let mut v: Vec<usize> = Vec::new();
    push_span(&mut v, 48, 58);
    push_span(&mut v, 65, 91);
    push_span(&mut v, 97, 123);
    push_span(&mut v, 192, 247);
    push_span(&mut v, 248, 256);
    let ghost ranges = v@;
    v.push(402);
    v.push(352);
    v.push(338);
    v.push(381);
    v.push(353);
    v.push(339);
    v.push(382);
    v.push(376);
    proof {
        assert(v@ == ranges + stray_codes());
        assert forall|c: char| holds_code(v@, code_of(c)) <==> is_valid_char(c) by {
            lemma_valid_codes(c);
        }
    }
    v
}

/// Whether a list of code points holds a given one.
fn holds(list: &Vec<usize>, code: usize) -> (b: bool)
    ensures
        b == holds_code(list@, code as int),
{
    let mut i: usize = 0;
    while i < list.len()
        invariant
            i <= list.len(),
            forall|j: int| 0 <= j < i ==> list@[j] != code,
        decreases list.len() - i,
    {
        if list[i] == code {
            return true;
        }
        i += 1;
    }
    false
}

/// Whether a grapheme counts as a letter or digit of the word, by the given list of code
/// points.
pub fn is_valid(grapheme: &str, valid_chars: &Vec<usize>) -> (b: bool)
    ensures
        b == is_valid_grapheme(grapheme@, valid_chars@),
{
    if grapheme.unicode_len() != 1 {
        return false;
    }
    let c: char = grapheme.get_char(0);
    holds(valid_chars, c as u32 as usize)
}

} // verus!
