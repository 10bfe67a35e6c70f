//! Content hashes, written in hexadecimal.
use sha1::Digest;
use vstd::prelude::*;
use vstd::string::*;

verus! {

/// The SHA-1 digest of a byte string.
pub uninterp spec fn sha1_digest(bytes: Seq<u8>) -> Seq<u8>;

/// `sha1::Sha1::digest`: the result is the SHA-1 digest of the bytes, which is
/// twenty bytes long.
#[verifier::external_body]
fn sha1_of(bytes: &[u8]) -> (r: Vec<u8>)
    ensures
        r@ == sha1_digest(bytes@),
        r@.len() == 20,
{
    sha1::Sha1::digest(bytes).to_vec()
}

/// One lower-case hexadecimal digit.
pub open spec fn hex_digit(d: int) -> char {
    if d < 10 {
        (('0' as int) + d) as char
    } else {
        (('a' as int) + d - 10) as char
    }
}

/// Two lower-case hexadecimal digits for each byte, the high half first.
pub open spec fn hex_text(bytes: Seq<u8>) -> Seq<char> {
    Seq::new(
        2 * bytes.len(),
        |i: int|
            if i % 2 == 0 {
                hex_digit(bytes[i / 2] as int / 16)
            } else {
                hex_digit(bytes[i / 2] as int % 16)
            },
    )
}

/// `hex::encode`: each byte becomes two lower-case hexadecimal digits.
#[verifier::external_body]
fn hex_of(bytes: &[u8]) -> (r: String)
    ensures
        r@ == hex_text(bytes@),
{
    hex::encode(bytes)
}

/// The first `n` digits of the SHA-1 of a byte string.
pub open spec fn sha1_prefix(bytes: Seq<u8>, n: int) -> Seq<char> {
    hex_text(sha1_digest(bytes)).take(n)
}

/// The whole SHA-1 of a byte string, in hexadecimal.
pub fn sha1_hex(bytes: &[u8]) -> (r: String)
    ensures
        r@ == hex_text(sha1_digest(bytes@)),
        r@.len() == 40,
{
    let d = sha1_of(bytes);
    hex_of(&d)
}

/// The first digits of the SHA-1 of a byte string.
pub fn sha1_short(bytes: &[u8], n: usize) -> (r: String)
    requires
        n <= 40,
    ensures
        r@ == sha1_prefix(bytes@, n as int),
        r@.len() == n,
{
    let whole = sha1_hex(bytes);
    whole.as_str().substring_char(0, n).to_owned()
}

} // verus!
