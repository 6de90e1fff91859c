use vstd::prelude::*;

verus! {

/// The mildest substitution table: the few characters whose stand-ins are read at a glance.
pub open spec fn mild(c: char) -> char {
    match c {
        'A' => 'Д',
        'B' => '8',
        'i' => '1',
        'O' => '0',
        'R' => 'Я',
        'v' => '√',
        'W' => 'Ш',
        '0' => 'O',
        _ => c,
    }
}

/// The middle table: everything of [`mild`], and more letters on top of it.
pub open spec fn medium(c: char) -> char {
    match c {
        'b' => '8',
        'E' | 'e' => '3',
        'I' => '1',
        'N' => 'И',
        'n' => 'и',
        'S' => '$',
        _ => mild(c),
    }
}

/// The heaviest table: [`medium`] with a different stand-in for `E` and still more letters.
pub open spec fn heavy(c: char) -> char {
    match c {
        'c' => '¢',
        'E' => '€',
        'H' => 'н',
        'M' => 'м',
        's' => '$',
        'Y' | 'y' => 'Ч',
        _ => medium(c),
    }
}

/// What one character becomes at a level: 3 is the heaviest table, 2 the middle one, and every
/// other level the mildest.
pub open spec fn leet_char(c: char, level: u8) -> char {
    if level == 3 {
        heavy(c)
    } else if level == 2 {
        medium(c)
    } else {
        mild(c)
    }
}

/// A text with every character replaced by its stand-in.
pub open spec fn leet_text(text: Seq<char>, level: u8) -> Seq<char> {
    text.map_values(|c: char| leet_char(c, level))
}

/// Replaces one character by its stand-in at the given level.
pub fn substitute_char(c: char, level: u8) -> (r: char)
    ensures
        r == leet_char(c, level),
{
    if level == 3 {
        match c {
            'A' => 'Д',
            'B' | 'b' => '8',
            'c' => '¢',
            'E' => '€',
            'e' => '3',
            'H' => 'н',
            'I' | 'i' => '1',
            'M' => 'м',
            'N' => 'И',
            'n' => 'и',
            'O' => '0',
            'R' => 'Я',
            'S' | 's' => '$',
            'v' => '√',
            'W' => 'Ш',
            'Y' | 'y' => 'Ч',
            '0' => 'O',
            _ => c,
        }
    } else if level == 2 {
        match c {
            'A' => 'Д',
            'B' | 'b' => '8',
            'E' | 'e' => '3',
            'I' | 'i' => '1',
            'N' => 'И',
            'n' => 'и',
            'O' => '0',
            'R' => 'Я',
            'S' => '$',
            'v' => '√',
            'W' => 'Ш',
            '0' => 'O',
            _ => c,
        }
    } else {
        match c {
            'A' => 'Д',
            'B' => '8',
            'i' => '1',
            'O' => '0',
            'R' => 'Я',
            'v' => '√',
            'W' => 'Ш',
            '0' => 'O',
            _ => c,
        }
    }
}

/// Replaces every character of a text by its stand-in at the given level. The text keeps its
/// length: each character gives exactly one.
pub fn substitute(text: &str, level: u8) -> (out: String)
    ensures
        out@ == leet_text(text@, level),
        out@.len() == text@.len(),
{
    let mut out = String::new();
    for c in it: text.chars()
        invariant
            it.seq() == text@,
            out@ == leet_text(text@.take(it.index() as int), level),
    {
        out.push(substitute_char(c, level));
        proof {
            let k = it.index() as int;
            assert(text@.take(k + 1) == text@.take(k).push(text@[k]));
            assert(leet_text(text@.take(k + 1), level) == leet_text(text@.take(k), level).push(
                leet_char(text@[k], level),
            ));
        }
    }
    proof {
        assert(text@.take(text@.len() as int) == text@);
    }
    out
}

} // verus!
