//! Typoglycemia: text in which the letters inside each word are shuffled while the first and
//! the last letter stay, as in "hello" to "hlelo". Such text stays readable to a surprising
//! degree.
//!
//! [`typoglycemia`] scrambles a text word by word, [`typoglycemia_leet`] replaces characters
//! by look-alikes after that, and [`utils::scramble_word`] scrambles one token.
//!
//! A token is taken as a sequence of grapheme clusters, and what is shuffled are whole
//! clusters. Tokens of at most three or of more than twenty graphemes stay as they are, and
//! so do tokens that start like a number. A token with hyphens or apostrophes is scrambled part by part. Of any other
//! token the graphemes between the first and the last letter or digit are shuffled, so that
//! quotation marks, brackets and emoji around a word stay where they are.
//!
//! The order of the shuffled graphemes comes from a random generator. What holds of every
//! outcome is stated in [`outcome`] and proved in [`laws`]. Three things are taken from other
//! crates and believed as stated: the grapheme clusters of a text ([`segment`]), the integer
//! at the start of a text ([`numeric`]) and the shuffle ([`shuffle`]).
use vstd::prelude::*;

pub mod alphabet;
pub mod laws;
pub mod leet;
pub mod numeric;
pub mod outcome;
pub mod segment;
pub mod shape;
pub mod shuffle;
pub mod split;
pub mod text;
pub mod utils;

use crate::leet::{leet_text, substitute};
use crate::outcome::{each_scrambled, scramble_outcome, sentence_outcome};
use crate::split::{join, join_with};
use crate::text::{split_words, texts, words};
use crate::utils::scramble_word;

verus! {

/// Scrambles a text word by word: the first and the last letter of each word stay, the
/// letters between them are shuffled. Words are what white space separates; they come out
/// with one space between each two. Which order the shuffled letters get is not fixed.
pub fn typoglycemia(s: &str) -> (out: String)
    ensures
        sentence_outcome(s@, out@),
        words(s@).len() == 0 ==> out@.len() == 0,
{
    let tokens = split_words(s);
    let mut scrambles: Vec<String> = Vec::new();
    let mut i: usize = 0;
    while i < tokens.len()
        invariant
            texts(tokens@) == words(s@),
            i <= tokens.len(),
            scrambles.len() == i,
            forall|j: int|
                #![trigger texts(scrambles@)[j]]
                0 <= j < i ==> scramble_outcome(texts(tokens@)[j], texts(scrambles@)[j]),
        decreases tokens.len() - i,
    {
        let scrambled = scramble_word(tokens[i].to_owned());
        let ghost before = texts(scrambles@);
        scrambles.push(scrambled);
        proof {
            assert(texts(scrambles@) == before.push(scrambled@));
            assert forall|j: int|
                #![trigger texts(scrambles@)[j]]
                0 <= j < i + 1 implies scramble_outcome(texts(tokens@)[j], texts(scrambles@)[j]) by {
                if j < i {
                    assert(texts(scrambles@)[j] == before[j]);
                }
            }
        }
        i += 1;
    }
    let out = join_with(&scrambles, ' ');
    proof {
        let ws = words(s@);
        let outs = texts(scrambles@);
        assert forall|j: int| #![trigger ws[j]] 0 <= j < ws.len() implies scramble_outcome(
            ws[j],
            outs[j],
        ) by {
            assert(scramble_outcome(texts(tokens@)[j], texts(scrambles@)[j]));
        }
        assert(each_scrambled(ws, outs) && out@ == join(outs, ' '));
    }
    out
}

/// Scrambles a text word by word as [`typoglycemia`] does, and then replaces characters by
/// look-alikes. Level 3 replaces the most characters, level 2 fewer, and every other level
/// the fewest. Each character gives exactly one, so the replacement keeps the length.
pub fn typoglycemia_leet(s: &str, level: u8) -> (out: String)
    ensures
        exists|t: Seq<char>| sentence_outcome(s@, t) && out@ == leet_text(t, level),
{
    let tg = typoglycemia(s);
    let out = substitute(tg.as_str(), level);
    proof {
        assert(sentence_outcome(s@, tg@) && out@ == leet_text(tg@, level));
    }
    out
}

} // verus!
