//! The 256-bit digest that names challenges and stands for their answers.

use vstd::prelude::*;

verus! {

/// The BLAKE3 digest of `data`, written as 64 lower-case hexadecimal
/// digits.
pub uninterp spec fn blake3_hex(data: Seq<u8>) -> Seq<char>;

/// A lower-case hexadecimal digit.
pub open spec fn is_lower_hex(c: char) -> bool {
    ('0' <= c && c <= '9') || ('a' <= c && c <= 'f')
}

/// A digest as text: 64 lower-case hexadecimal digits.
pub open spec fn is_digest_text(s: Seq<char>) -> bool {
    &&& s.len() == 64
    &&& forall|i: int| 0 <= i < s.len() ==> is_lower_hex(#[trigger] s[i])
}

/// Computes `blake3::hash` of `data` and writes it with `Hash::to_hex`:
/// two digits of `0123456789abcdef` for each of the digest's 32 bytes. The
/// result depends on `data` alone.
#[verifier::external_body]
pub(crate) fn digest_hex(data: &[u8]) -> (hex: String)
    ensures
        hex@ == blake3_hex(data@),
        is_digest_text(hex@),
{
    blake3::hash(data).to_hex().to_string()
}

} // verus!
