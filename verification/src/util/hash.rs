//! Hash functions.

use vstd::prelude::*;

verus! {

/// A hash function whose digests have at least 32 bytes.
pub trait HashFunction {
    /// The digest of `data`.
    spec fn digest_of(data: Seq<u8>) -> Seq<u8>;

    /// Digests are long enough to fill a tree node.
    proof fn digest_is_long(data: Seq<u8>)
        ensures
            Self::digest_of(data).len() >= 32,
    ;

    fn digest(data: &[u8]) -> (r: Vec<u8>)
        ensures
            r@ == Self::digest_of(data@),
    ;
}

/// The digest that `sha3::Keccak256` computes.
pub uninterp spec fn keccak256(data: Seq<u8>) -> Seq<u8>;

/// `digest` of `sha3::Keccak256`: the Keccak-256 digest, which has 32 bytes.
#[verifier::external_body]
pub(crate) fn keccak256_digest(data: &[u8]) -> (r: [u8; 32])
    ensures
        r@ == keccak256(data@),
{
    <sha3::Keccak256 as sha3::Digest>::digest(data).into()
}

/// The Keccak-256 digest, as a sequence of 32 bytes.
pub open spec fn keccak256_32(data: Seq<u8>) -> Seq<u8> {
    Seq::new(32, |i: int| keccak256(data)[i])
}

/// Keccak-256.
#[derive(Clone, Copy, Debug, PartialEq, Eq)]
pub struct Keccak256;

impl HashFunction for Keccak256 {
    open spec fn digest_of(data: Seq<u8>) -> Seq<u8> {
        keccak256_32(data)
    }

    proof fn digest_is_long(data: Seq<u8>) {
    }

    fn digest(data: &[u8]) -> (r: Vec<u8>) {
        let d = keccak256_digest(data);
        let mut r: Vec<u8> = Vec::new();
        let mut i: usize = 0;
        while i < 32
            invariant
                i <= 32,
                d@ == keccak256(data@),
                r@ == keccak256(data@).subrange(0, i as int),
            decreases 32 - i,
        {
            r.push(d[i]);
            i = i + 1;
            assert(r@ =~= keccak256(data@).subrange(0, i as int));
        }
        assert(r@ =~= keccak256_32(data@));
        r
    }
}

} // verus!
