//! Hashes, keys and the digest function the topics and candidate hashes come from.

use sp_runtime::traits::BlakeTwo256;
use vstd::prelude::*;

verus! {

/// A 32-byte content hash.
pub type H256 = [u8; 32];

/// The public session key of a validator.
pub type SessionKey = [u8; 32];

/// A signature over a statement.
pub type Signature = [u8; 64];

/// The identifier of a parachain.
pub type ParaId = u32;

/// Whether two hashes hold the same bytes.
pub fn hash_eq(a: &H256, b: &H256) -> (same: bool)
    ensures
        same == (*a == *b),
{
    let mut i: usize = 0;
    while i < 32
        invariant
            i <= 32,
            forall|k: int| 0 <= k < i ==> a[k] == b[k],
        decreases 32 - i,
    {
        if a[i] != b[i] {
            return false;
        }
        i = i + 1;
    }
    assert(*a =~= *b);
    true
}

/// The BLAKE2b digest of `data` with an output of 32 bytes and no key.
pub uninterp spec fn blake2_256_digest(data: Seq<u8>) -> Seq<u8>;

/// Calls `<BlakeTwo256 as Hash>::hash` of `sp_runtime::traits`, which hands the
/// bytes to BLAKE2b with a 32-byte output. The digest depends on the bytes
/// alone; the contract gives it the name `blake2_256_digest` and claims
/// nothing else of it.
#[verifier::external_body]
pub(crate) fn blake2_256(data: &[u8]) -> (digest: H256)
    ensures
        digest@ == blake2_256_digest(data@),
{
    <BlakeTwo256 as sp_runtime::traits::Hash>::hash(data).to_fixed_bytes()
}

/// The bytes of the ASCII word `attestations`.
pub open spec fn attestation_suffix() -> Seq<u8> {
    seq![97u8, 116u8, 116u8, 101u8, 115u8, 116u8, 97u8, 116u8, 105u8, 111u8, 110u8, 115u8]
}

/// The bytes a round's attestation topic is the digest of: the parent hash
/// followed by the word `attestations`.
pub fn attestation_preimage(parent_hash: &H256) -> (preimage: Vec<u8>)
    ensures
        preimage@ == parent_hash@ + attestation_suffix(),
{
    let mut preimage: Vec<u8> = Vec::new();
    let mut i: usize = 0;
    while i < 32
        invariant
            i <= 32,
            preimage@ == parent_hash@.subrange(0, i as int),
        decreases 32 - i,
    {
        preimage.push(parent_hash[i]);
        i = i + 1;
    }
    assert(parent_hash@.subrange(0, 32) == parent_hash@);
    preimage.push(97);
    preimage.push(116);
    preimage.push(116);
    preimage.push(101);
    preimage.push(115);
    preimage.push(116);
    preimage.push(97);
    preimage.push(116);
    preimage.push(105);
    preimage.push(111);
    preimage.push(110);
    preimage.push(115);
    preimage
}

/// The gossip topic on which the statements of the round with the given
/// parent hash are exchanged.
pub fn attestation_topic(parent_hash: H256) -> (topic: H256)
    ensures
        topic@ == blake2_256_digest(parent_hash@ + attestation_suffix()),
{
    let preimage = attestation_preimage(&parent_hash);
    blake2_256(preimage.as_slice())
}

/// A copy of the bytes.
pub fn copy_bytes(bytes: &Vec<u8>) -> (copy: Vec<u8>)
    ensures
        copy@ == bytes@,
{
    let mut copy: Vec<u8> = Vec::new();
    let mut i: usize = 0;
    while i < bytes.len()
        invariant
            i <= bytes.len(),
            copy@ == bytes@.subrange(0, i as int),
        decreases bytes.len() - i,
    {
        copy.push(bytes[i]);
        i = i + 1;
    }
    assert(bytes@.subrange(0, bytes@.len() as int) == bytes@);
    copy
}

/// A candidate's descriptor in its encoded form, together with the hash that
/// identifies it.
#[derive(Debug, PartialEq, Eq)]
pub struct CandidateReceipt {
    encoded: Vec<u8>,
    hash: H256,
}

impl Clone for CandidateReceipt {
    fn clone(&self) -> (copy: CandidateReceipt)
        ensures
            copy.spec_encoded() == self.spec_encoded(),
            copy.spec_hash() == self.spec_hash(),
    {
        proof {
            use_type_invariant(self);
        }
        CandidateReceipt { encoded: copy_bytes(&self.encoded), hash: self.hash }
    }
}

impl CandidateReceipt {
    /// The encoded descriptor.
    pub closed spec fn spec_encoded(&self) -> Seq<u8> {
        self.encoded@
    }

    /// The hash that identifies the candidate.
    pub closed spec fn spec_hash(&self) -> H256 {
        self.hash
    }

    /// The hash is the digest of the encoded descriptor.
    #[verifier::type_invariant]
    pub closed spec fn wf(&self) -> bool {
        self.hash@ == blake2_256_digest(self.encoded@)
    }

    /// The receipt of the candidate with the given encoded descriptor.
    pub fn new(encoded: Vec<u8>) -> (receipt: CandidateReceipt)
        ensures
            receipt.spec_encoded() == encoded@,
            receipt.spec_hash()@ == blake2_256_digest(encoded@),
    {
        let hash = blake2_256(encoded.as_slice());
        CandidateReceipt { encoded, hash }
    }

    /// The encoded descriptor.
    pub fn encoded(&self) -> (encoded: &Vec<u8>)
        ensures
            encoded@ == self.spec_encoded(),
    {
        &self.encoded
    }

    /// The hash that identifies the candidate: the digest of its encoded
    /// descriptor.
    pub fn hash(&self) -> (hash: H256)
        ensures
            hash == self.spec_hash(),
            hash@ == blake2_256_digest(self.spec_encoded()),
    {
        proof {
            use_type_invariant(self);
        }
        self.hash
    }
}

} // verus!
