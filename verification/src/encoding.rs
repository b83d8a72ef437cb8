//! Lower-case hexadecimal text, as produced by `data_encoding::HEXLOWER`.

use vstd::prelude::*;

verus! {

/// The character for a nibble (`0..16`) in lower-case hexadecimal.
pub open spec fn hex_digit(n: int) -> char {
    if n < 10 {
        (('0' as int) + n) as char
    } else {
        (('a' as int) + n - 10) as char
    }
}

/// Lower-case hexadecimal of a byte string: two characters per byte, high nibble first.
pub open spec fn spec_hex_lower(bytes: Seq<u8>) -> Seq<char>
    decreases bytes.len(),
{
    if bytes.len() == 0 {
        Seq::empty()
    } else {
        seq![hex_digit(bytes[0] as int / 16), hex_digit(bytes[0] as int % 16)]
            + spec_hex_lower(bytes.drop_first())
    }
}

/// Every byte becomes two characters.
pub proof fn lemma_hex_lower_len(bytes: Seq<u8>)
    ensures
        spec_hex_lower(bytes).len() == 2 * bytes.len(),
    decreases bytes.len(),
{
    if bytes.len() > 0 {
        lemma_hex_lower_len(bytes.drop_first());
    }
}

/// `data_encoding::HEXLOWER.encode`: the documented lower-case hexadecimal
/// encoding without padding (symbols `0123456789abcdef`, high nibble first).
/// An endpoint identifier (`iroh::PublicKey`) is displayed with exactly this
/// call on its 32 bytes. The encoder asserts that the encoded length fits,
/// which holds for inputs of at most `usize::MAX / 512` bytes.
#[verifier::external_body]
pub(crate) fn hex_lower(bytes: &[u8]) -> (s: String)
    requires
        bytes@.len() <= usize::MAX / 512,
    ensures
        s@ == spec_hex_lower(bytes@),
{
    data_encoding::HEXLOWER.encode(bytes)
}

} // verus!
