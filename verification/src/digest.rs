//! One-way pseudonyms: the RIPEMD-160 digest of a text's bytes, written as
//! forty lower-case hexadecimal digits.

use ripemd::Digest;
use vstd::prelude::*;
use vstd::string::*;
use vstd::utf8::*;

verus! {

/// The RIPEMD-160 digest of a byte string.
pub uninterp spec fn ripemd160(data: Seq<u8>) -> Seq<u8>;

/// Calls `ripemd::Ripemd160::digest` and copies its output into a vector.
///
/// Trusted, not proved: the output depends on the input bytes alone, which
/// `ripemd160` names, and is twenty bytes long, the output size that the
/// hasher declares.
#[verifier::external_body]
fn ripemd160_bytes(data: &[u8]) -> (out: Vec<u8>)
    ensures
        out@ == ripemd160(data@),
        out@.len() == 20,
{
    ripemd::Ripemd160::digest(data).to_vec()
}

/// The sixteen digits of lower-case hexadecimal, by value.
pub open spec fn hex_digits() -> Seq<char> {
    seq!['0', '1', '2', '3', '4', '5', '6', '7', '8', '9', 'a', 'b', 'c', 'd', 'e', 'f']
}

/// `c` is a digit of lower-case hexadecimal.
pub open spec fn is_lower_hex(c: char) -> bool {
    exists|n: int| 0 <= n < 16 && hex_digits()[n] == c
}

/// The digit at position `i` of the hexadecimal form of `bytes`: the high
/// half of a byte comes first.
pub open spec fn hex_digit_at(bytes: Seq<u8>, i: int) -> char {
    if i % 2 == 0 {
        hex_digits()[bytes[i / 2] as int / 16]
    } else {
        hex_digits()[bytes[i / 2] as int % 16]
    }
}

/// Lower-case hexadecimal form of a byte string, two digits per byte.
pub open spec fn hex_lower(bytes: Seq<u8>) -> Seq<char> {
    Seq::new(2 * bytes.len(), |i: int| hex_digit_at(bytes, i))
}

/// The pseudonym of a text: the hexadecimal form of the digest of its UTF-8
/// bytes.
pub open spec fn digest_text(text: Seq<char>) -> Seq<char> {
    hex_lower(ripemd160(encode_utf8(text)))
}

/// The hexadecimal form has two digits per byte, and digits only.
pub proof fn lemma_hex_lower_shape(bytes: Seq<u8>)
    ensures
        hex_lower(bytes).len() == 2 * bytes.len(),
        forall|i: int| 0 <= i < 2 * bytes.len() ==> is_lower_hex(#[trigger] hex_lower(bytes)[i]),
{
    assert forall|i: int| 0 <= i < 2 * bytes.len() implies is_lower_hex(
        #[trigger] hex_lower(bytes)[i],
    ) by {
        let b = bytes[i / 2] as int;
        let n = if i % 2 == 0 { b / 16 } else { b % 16 };
        assert(0 <= n < 16);
        assert(hex_digits()[n] == hex_lower(bytes)[i]);
    }
}

/// A pseudonym depends on the text alone: the same text has the same
/// pseudonym, whenever and wherever it is taken.
pub proof fn lemma_digest_repeatable(first: Seq<char>, second: Seq<char>)
    requires
        first == second,
    ensures
        digest_text(first) == digest_text(second),
{
}

/// Writes a byte string in lower-case hexadecimal.
pub fn to_hex_lower(bytes: &[u8]) -> (text: String)
    ensures
        text@ == hex_lower(bytes@),
{
    let digits = "0123456789abcdef";
    proof {
        reveal_strlit("0123456789abcdef");
        assert(digits@ =~= hex_digits());
    }
    let mut text = String::new();
    let mut i: usize = 0;
    while i < bytes.len()
        invariant
            i <= bytes@.len(),
            digits@ == hex_digits(),
            digits.is_ascii(),
            text@.len() == 2 * i,
            forall|k: int| 0 <= k < 2 * i ==> text@[k] == hex_digit_at(bytes@, k),
        decreases bytes@.len() - i,
    {
        let b = bytes[i];
        let high: usize = (b / 16) as usize;
        let low: usize = (b % 16) as usize;
        let ghost before = text@;
        text.append(digits.substring_ascii(high, high + 1));
        text.append(digits.substring_ascii(low, low + 1));
        proof {
            assert(text@ =~= before.push(hex_digits()[high as int]).push(hex_digits()[low as int]));
            assert forall|k: int| 0 <= k < 2 * (i + 1) implies text@[k] == hex_digit_at(
                bytes@,
                k,
            ) by {
                if k == 2 * i {
                    assert(k / 2 == i as int && k % 2 == 0);
                } else if k == 2 * i + 1 {
                    assert(k / 2 == i as int && k % 2 == 1);
                }
            }
        }
        i += 1;
    }
    assert(text@ =~= hex_lower(bytes@));
    text
}

/// The pseudonym of `text`: forty lower-case hexadecimal digits that depend on
/// the bytes of `text` alone.
pub fn hash_text(text: &str) -> (hex: String)
    ensures
        hex@ == digest_text(text@),
        hex@.len() == 40,
        forall|i: int| 0 <= i < 40 ==> is_lower_hex(#[trigger] hex@[i]),
{
    let digest = ripemd160_bytes(text.as_bytes());
    proof {
        lemma_hex_lower_shape(digest@);
    }
    to_hex_lower(digest.as_slice())
}

} // verus!
