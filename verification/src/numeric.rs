use vstd::prelude::*;
use vstd::utf8::encode_utf8;

verus! {

/// What `atoi::atoi::<u64>` returns for a text of bytes.
pub uninterp spec fn atoi_u64(text: Seq<u8>) -> Option<u64>;

/// Whether a byte is an ASCII digit.
pub open spec fn is_digit(b: u8) -> bool {
    48 <= b <= 57
}

/// How many bytes at the start of a text are ASCII digits.
pub open spec fn leading_digits(text: Seq<u8>) -> nat
    decreases text.len(),
{
    if text.len() > 0 && is_digit(text.first()) {
        1 + leading_digits(text.drop_first())
    } else {
        0
    }
}

/// Whether a token counts as a number and is therefore left as it is: its bytes start with
/// an ASCII digit, and the parser reads an integer from them. What follows the digits does
/// not matter.
pub open spec fn is_numeric(s: Seq<char>) -> bool {
    let text = encode_utf8(s);
    text.len() > 0 && is_digit(text.first()) && atoi_u64(text) is Some
}

/// `atoi::atoi::<u64>`: reads an integer from the start of a text of bytes. The result
/// depends on the bytes alone and goes by the name [`atoi_u64`]. One thing is claimed of it
/// beyond the name: where the text starts with one to nineteen digits, an integer is read,
/// since a number of so few digits fits into 64 bits and the parser ignores what follows it.
#[verifier::external_body]
fn parse_u64(text: &[u8]) -> (r: Option<u64>)
    ensures
        r == atoi_u64(text@),
        0 < leading_digits(text@) <= 19 ==> r is Some,
{
    atoi::atoi::<u64>(text)
}

/// Whether a token counts as a number. A token that starts with one to nineteen digits
/// always does; one that starts with no digit never does.
pub fn is_numeric_string(s: &str) -> (b: bool)
    ensures
        b == is_numeric(s@),
        0 < leading_digits(encode_utf8(s@)) <= 19 ==> b,
        leading_digits(encode_utf8(s@)) == 0 ==> !b,
{
    let text = s.as_bytes();
    if text.len() == 0 {
        return false;
    }
    let first: u8 = text[0];
    if first < 48 || first > 57 {
        return false;
    }
    parse_u64(text).is_some()
}

} // verus!
