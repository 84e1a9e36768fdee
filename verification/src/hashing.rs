use vstd::prelude::*;
use sha3::Digest;

verus! {

/// The SHA3-256 digest of a byte sequence, as a sequence of its 32 bytes.
///
/// The digest is a pure function of the input bytes alone; no closed form is
/// claimed for it here. Everything the library proves about roots and proofs
/// is relative to this one function.
pub uninterp spec fn sha3_of(data: Seq<u8>) -> Seq<u8>;

/// Relies on sha3::Sha3_256::digest: a 32-byte digest computed from the input
/// bytes alone.
#[verifier::external_body]
pub(crate) fn sha3_digest(data: &[u8]) -> (digest: crate::Hash)
    ensures
        digest@ == sha3_of(data@),
{
    sha3::Sha3_256::digest(data).into()
}

/// The lowercase hex character for a nibble value.
pub open spec fn hex_digit(nibble: int) -> char {
    if nibble == 0 {
        '0'
    } else if nibble == 1 {
        '1'
    } else if nibble == 2 {
        '2'
    } else if nibble == 3 {
        '3'
    } else if nibble == 4 {
        '4'
    } else if nibble == 5 {
        '5'
    } else if nibble == 6 {
        '6'
    } else if nibble == 7 {
        '7'
    } else if nibble == 8 {
        '8'
    } else if nibble == 9 {
        '9'
    } else if nibble == 10 {
        'a'
    } else if nibble == 11 {
        'b'
    } else if nibble == 12 {
        'c'
    } else if nibble == 13 {
        'd'
    } else if nibble == 14 {
        'e'
    } else {
        'f'
    }
}

/// The lowercase hex encoding of a byte sequence: two digits per byte, the
/// high nibble first.
pub open spec fn hex_seq(bytes: Seq<u8>) -> Seq<char> {
    Seq::new(
        bytes.len() * 2,
        |i: int|
            if i % 2 == 0 {
                hex_digit(bytes[i / 2] as int / 16)
            } else {
                hex_digit(bytes[i / 2] as int % 16)
            },
    )
}

/// Relies on hex::encode: each input byte becomes two lowercase hex digits,
/// high nibble first.
#[verifier::external_body]
pub(crate) fn encode_hex(hash: &crate::Hash) -> (encoded: String)
    ensures
        encoded@ == hex_seq(hash@),
{
    hex::encode(hash)
}

} // verus!
