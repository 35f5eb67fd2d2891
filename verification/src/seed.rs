//! Seed derivation: arbitrary seed bytes are hashed to a fixed-width digest,
//! and a big-endian prefix of the digest becomes the 64-bit generator key.

use vstd::prelude::*;

use crate::ShuffleError;
use sha2::{Digest, Sha256};

verus! {

/// What hashing a byte string yields: the 64 lowercase hex-digit bytes of its
/// SHA-256 digest, a function of the input alone.
pub uninterp spec fn digest_of(seed: Seq<u8>) -> Seq<u8>;

/// Relies on sha2::Sha256 (new, update, finalize) and on the lowercase hex
/// formatting of its 32-byte digest: the result is 64 hex-digit bytes and
/// depends on the input bytes alone.
#[verifier::external_body]
pub fn hash(seed: &Vec<u8>) -> (r: Vec<u8>)
    ensures
        r@ == digest_of(seed@),
        r@.len() == 64,
{
    let mut hasher = Sha256::new();
    hasher.update(seed);
    let result = hasher.finalize();
    format!("{:x}", result).as_bytes().to_vec()
}

/// Big-endian value of the first eight bytes of `s`.
pub open spec fn be_u64_of(s: Seq<u8>) -> int
    recommends
        s.len() >= 8,
{
    s[0] * 0x100_0000_0000_0000 + s[1] * 0x1_0000_0000_0000 + s[2] * 0x100_0000_0000 + s[3]
        * 0x1_0000_0000 + s[4] * 0x100_0000 + s[5] * 0x1_0000 + s[6] * 0x100 + s[7]
}

/// The generator key a seed derives: the big-endian value of the first eight
/// digest bytes.
pub open spec fn key_of_seed(seed: Seq<u8>) -> u64 {
    be_u64_of(digest_of(seed).subrange(0, 8)) as u64
}

/// The first eight bytes of the digest of `v`.
pub fn byte_array(v: &Vec<u8>) -> (r: [u8; 8])
    ensures
        r@ == digest_of(v@).subrange(0, 8),
{
    let h = hash(v);
    let r: [u8; 8] = [h[0], h[1], h[2], h[3], h[4], h[5], h[6], h[7]];
    proof {
        assert(r@ =~= digest_of(v@).subrange(0, 8));
    }
    r
}

/// Reads the first eight bytes of a digest as a big-endian integer; a digest
/// shorter than that prefix is rejected, never padded.
pub fn truncate_to_u64(digest: &Vec<u8>) -> (r: Result<u64, ShuffleError>)
    ensures
        digest@.len() >= 8 ==> r == Ok::<u64, ShuffleError>(be_u64_of(digest@) as u64),
        digest@.len() >= 8 ==> be_u64_of(digest@) == r->Ok_0 as int,
        digest@.len() < 8 ==> r == Err::<u64, ShuffleError>(ShuffleError::KeyLengthError),
{
    if digest.len() < 8 {
        Err(ShuffleError::KeyLengthError)
    } else {
        let mut k: u64 = 0;
        k = k * 256 + digest[0] as u64;
        k = k * 256 + digest[1] as u64;
        k = k * 256 + digest[2] as u64;
        k = k * 256 + digest[3] as u64;
        k = k * 256 + digest[4] as u64;
        k = k * 256 + digest[5] as u64;
        k = k * 256 + digest[6] as u64;
        k = k * 256 + digest[7] as u64;
        Ok(k)
    }
}

/// Hashes the seed bytes and reads the key prefix; total, since the digest is
/// always long enough for the prefix.
pub fn derive_key(seed: &Vec<u8>) -> (k: u64)
    ensures
        k == key_of_seed(seed@),
{
    let h = hash(seed);
    match truncate_to_u64(&h) {
        Ok(k) => {
            proof {
                assert(h@.subrange(0, 8)[0] == h@[0]);
                assert(h@.subrange(0, 8)[1] == h@[1]);
                assert(h@.subrange(0, 8)[2] == h@[2]);
                assert(h@.subrange(0, 8)[3] == h@[3]);
                assert(h@.subrange(0, 8)[4] == h@[4]);
                assert(h@.subrange(0, 8)[5] == h@[5]);
                assert(h@.subrange(0, 8)[6] == h@[6]);
                assert(h@.subrange(0, 8)[7] == h@[7]);
            }
            k
        },
        Err(_) => {
            assert(false);
            0
        },
    }
}

} // verus!
