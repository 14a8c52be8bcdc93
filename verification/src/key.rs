use vstd::prelude::*;

verus! {

/// A 32-bit identifier in the XOR-metric identity space.
#[derive(PartialEq, Eq, Structural, Clone, Copy, Hash, Debug)]
pub struct Key {
    pub key: u32,
}

/// The 32-bit fingerprint that `farmhash::fingerprint32` computes for a byte
/// sequence. It depends on the bytes alone, so it can be given a name.
pub uninterp spec fn fingerprint_of(data: Seq<u8>) -> u32;

impl Key {
    /// XOR distance between two identifiers.
    pub fn distance(self, other_key: Key) -> (r: u32)
        ensures
            r == (self.key ^ other_key.key),
    {
        self.key ^ other_key.key
    }

    /// Derives a content identifier from raw bytes.
    ///
    /// Relies on farmhash::fingerprint32: a deterministic, platform-independent
    /// 32-bit fingerprint of the input bytes.
    #[verifier::external_body]
    pub fn generate_hash_from_data(data: &[u8]) -> (r: Key)
        ensures
            r.key == fingerprint_of(data@),
    {
        Key { key: farmhash::fingerprint32(data) }
    }
}

/// The XOR distance is symmetric, and it is zero exactly on equal identifiers.
pub proof fn lemma_distance_metric(a: Key, b: Key)
    ensures
        (a.key ^ b.key) == (b.key ^ a.key),
        (a.key ^ a.key) == 0,
        (a.key ^ b.key) == 0 ==> a == b,
{
    let x = a.key;
    let y = b.key;
    assert((x ^ y) == (y ^ x)) by (bit_vector);
    assert((x ^ x) == 0) by (bit_vector);
    assert((x ^ y) == 0 ==> x == y) by (bit_vector);
}

} // verus!
