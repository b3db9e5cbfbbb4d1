use vstd::prelude::*;
use sha1::{Digest, Sha1};
use crate::text::ascii_chars;

verus! {

/// The SHA-1 digest of `data`: 20 bytes.
pub uninterp spec fn sha1_of(data: Seq<u8>) -> Seq<u8>;

/// `Sha1::digest` of the crate sha1: the SHA-1 digest of `data`. The
/// digest is taken on trust; the contract gives it the name `sha1_of`,
/// as a function of the bytes alone.
#[verifier::external_body]
pub(crate) fn sha1_digest(data: &[u8]) -> (out: [u8; 20])
    ensures
        out@ == sha1_of(data@),
{
    Sha1::digest(data).into()
}

/// The ASCII code of the hexadecimal digit for `n`, in lower case.
pub open spec fn hex_digit(n: int) -> u8 {
    if n < 10 {
        (48 + n) as u8
    } else {
        (87 + n) as u8
    }
}

/// Two hexadecimal digits for each byte of `data`, the high half first.
pub open spec fn hex_digits(data: Seq<u8>) -> Seq<u8> {
    Seq::new(
        2 * data.len(),
        |i: int|
            if i % 2 == 0 {
                hex_digit(data[i / 2] as int / 16)
            } else {
                hex_digit(data[i / 2] as int % 16)
            },
    )
}

/// `hex::encode` of the crate hex: the bytes in hexadecimal, two lower
/// case digits for each. Taken on trust.
#[verifier::external_body]
pub(crate) fn hex_encode(data: &[u8]) -> (text: String)
    ensures
        text@ == ascii_chars(hex_digits(data@)),
{
    hex::encode(data)
}

/// The SHA-1 digest of `data`.
pub fn sha1(data: &[u8]) -> (out: [u8; 20])
    ensures
        out@ == sha1_of(data@),
{
    sha1_digest(data)
}

/// The bytes of `data` in hexadecimal: two lower case digits for each.
pub fn to_hex(data: &[u8]) -> (text: String)
    ensures
        text@ == ascii_chars(hex_digits(data@)),
{
    hex_encode(data)
}

} // verus!
