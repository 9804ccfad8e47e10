use vstd::prelude::*;
use sha1::Digest;

verus! {

/// The SHA-1 digest of a byte string.
pub uninterp spec fn sha1_of(b: Seq<u8>) -> Seq<u8>;

/// Relies on sha1's `Sha1::digest`: the 20-byte SHA-1 digest of the input.
#[verifier::external_body]
fn sha1_digest(b: &[u8]) -> (r: Vec<u8>)
    ensures
        r@ == sha1_of(b@),
        r@.len() == 20,
{
    sha1::Sha1::digest(b).to_vec()
}

/// The lowercase hexadecimal digit for `n < 16`.
pub open spec fn hex_digit(n: u8) -> char {
    seq!['0', '1', '2', '3', '4', '5', '6', '7', '8', '9', 'a', 'b', 'c', 'd', 'e', 'f'][n as int]
}

/// Two lowercase hexadecimal digits for each byte, high nibble first.
pub open spec fn hex_of(b: Seq<u8>) -> Seq<char>
    decreases b.len(),
{
    if b.len() == 0 {
        Seq::empty()
    } else {
        hex_of(b.drop_last()) + seq![hex_digit(b.last() / 16), hex_digit(b.last() % 16)]
    }
}

pub proof fn lemma_hex_len(b: Seq<u8>)
    ensures
        hex_of(b).len() == 2 * b.len(),
    decreases b.len(),
{
    if b.len() > 0 {
        lemma_hex_len(b.drop_last());
    }
}

/// Relies on hex's `encode`: two lowercase hexadecimal digits per byte, high
/// nibble first.
#[verifier::external_body]
fn to_hex(b: &[u8]) -> (r: String)
    ensures
        r@ == hex_of(b@),
{
    hex::encode(b)
}

/// The content address of a byte string: its SHA-1 digest in lowercase hex.
pub open spec fn object_hash(b: Seq<u8>) -> Seq<char> {
    hex_of(sha1_of(b))
}

/// Hashes a buffer to its 40-digit lowercase hexadecimal SHA-1.
pub fn hash_bytes(b: &[u8]) -> (r: String)
    ensures
        r@ == object_hash(b@),
        r@.len() == 40,
{
    let d = sha1_digest(b);
    proof {
        lemma_hex_len(d@);
    }
    to_hex(d.as_slice())
}

} // verus!
