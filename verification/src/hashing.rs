use vstd::prelude::*;
use sha2::Digest;
use crate::text::{hex_of, bytes_to_hex};

verus! {

/// Digest that SHA-256 assigns to the UTF-8 encoding of a string.
pub uninterp spec fn sha256_of(input: Seq<char>) -> Seq<u8>;

/// Relies on sha2's `Sha256::digest`: the 32-byte SHA-256 digest of the
/// input's UTF-8 bytes, a function of the input alone.
#[verifier::external_body]
fn sha256_digest(input: &str) -> (r: Vec<u8>)
    ensures
        r@ == sha256_of(input@),
        r@.len() == 32,
{
    sha2::Sha256::digest(input.as_bytes()).to_vec()
}

/// SHA-256 digest of a string, rendered as 64 lowercase hexadecimal digits.
pub open spec fn sha_hex(input: Seq<char>) -> Seq<char> {
    hex_of(sha256_of(input))
}

/// Hash a string to its lowercase hexadecimal SHA-256 digest.
pub fn sha256_hex(input: &str) -> (r: String)
    ensures
        r@ == sha_hex(input@),
{
    let digest = sha256_digest(input);
    bytes_to_hex(digest.as_slice())
}

/// Value of a byte string read as a little-endian unsigned integer.
pub open spec fn le_bytes_to_int(bytes: Seq<u8>) -> int
    decreases bytes.len(),
{
    if bytes.len() == 0 {
        0
    } else {
        bytes[0] + 256 * le_bytes_to_int(bytes.skip(1))
    }
}

/// 256 raised to the given power.
pub open spec fn pow256(n: nat) -> int
    decreases n,
{
    if n == 0 {
        1
    } else {
        256 * pow256((n - 1) as nat)
    }
}

pub proof fn lemma_le_bytes_bound(bytes: Seq<u8>)
    ensures
        0 <= le_bytes_to_int(bytes) < pow256(bytes.len()),
    decreases bytes.len(),
{
    if bytes.len() > 0 {
        lemma_le_bytes_bound(bytes.skip(1));
    }
}

/// First eight digest bytes of a string's SHA-256 digest, read little-endian.
pub open spec fn sha_lead_u64(input: Seq<char>) -> int {
    le_bytes_to_int(sha256_of(input).take(8))
}

/// Hash a string and read the first eight digest bytes as a little-endian
/// unsigned 64-bit integer.
pub fn sha256_lead_u64(input: &str) -> (r: u64)
    ensures
        r as int == sha_lead_u64(input@),
{
    let digest = sha256_digest(input);
    let ghost lead = digest@.take(8);
    let mut acc: u64 = 0;
    let mut i: usize = 8;
    proof {
        assert(lead.skip(8) =~= Seq::<u8>::empty());
        reveal_with_fuel(pow256, 9);
    }
    while i > 0
        invariant
            i <= 8,
            digest@.len() == 32,
            lead == digest@.take(8),
            acc == le_bytes_to_int(lead.skip(i as int)),
        decreases i,
    {
        proof {
            lemma_le_bytes_bound(lead.skip(i as int));
            assert(pow256(lead.skip(i as int).len()) <= pow256(7)) by {
                reveal_with_fuel(pow256, 9);
            }
            reveal_with_fuel(pow256, 9);
        }
        let b = digest[i - 1];
        acc = acc * 256 + (b as u64);
        proof {
            assert(lead.skip(i - 1)[0] == lead[i - 1]);
            assert(lead.skip(i - 1).skip(1) =~= lead.skip(i as int));
            assert(lead[i - 1] == digest@[i - 1]);
        }
        i = i - 1;
    }
    proof {
        assert(lead.skip(0) =~= lead);
    }
    acc
}

} // verus!
