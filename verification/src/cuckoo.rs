//! Fingerprint-and-index derivation for a displacing filter's buckets.
//!
//! One 64-bit hash of the item is split in two: the upper half yields the
//! bucket fingerprint (bumped past the empty-slot marker), the lower half
//! the first bucket index.  The alternate index is the first one xored
//! with the fingerprint's own hash, so that either index recovers the
//! other.

use vstd::prelude::*;
use std::collections::hash_map::DefaultHasher;
use std::hash::Hasher;
use vstd::std_specs::hash::DefaultHasherAdditionalSpecFns;

verus! {

/// The number of bytes in a bucket fingerprint.
pub const FINGERPRINT_SIZE: usize = 1;

/// A bucket fingerprint: one byte, never zero (zero marks an empty slot).
#[derive(Clone, Copy, Debug, PartialEq, Eq, Structural)]
pub struct Fingerprint {
    /// The fingerprint byte.
    pub data: u8,
}

impl Fingerprint {
    /// A fingerprint from the byte, or nothing when the byte is the
    /// empty-slot marker.
    pub fn from_data(data: u8) -> (r: Option<Fingerprint>)
        ensures
            r matches Some(f) ==> f.data == data && data != 0,
            r is None <==> data == 0,
    {
        if data == 0 {
            None
        } else {
            Some(Fingerprint { data })
        }
    }
}

/// The 64-bit hash of the given bytes under `DefaultHasher`.
pub open spec fn spec_hash64(bytes: Seq<u8>) -> u64 {
    DefaultHasher::spec_finish(seq![bytes])
}

/// Hashes the data and splits the 64-bit result into the upper 32 bits
/// (used for the fingerprint) and the lower 32 bits (used for the
/// indexes).
pub fn get_hash(data: &[u8]) -> (r: (u32, u32))
    ensures
        r.0 == (spec_hash64(data@) >> 32) as u32,
        r.1 == (spec_hash64(data@) & 0xffff_ffff) as u32,
{
    let mut hasher = DefaultHasher::new();
    hasher.write(data);
    assert(hasher@ =~= seq![data@]);
    let h = hasher.finish();
    proof {
        assert((h & 0xffff_ffff) as u32 == h as u32) by (bit_vector);
    }
    ((h >> 32) as u32, h as u32)
}

/// The hash half that drives bucket displacement for a fingerprint.
pub open spec fn spec_fp_hash(fp: Fingerprint) -> usize {
    ((spec_hash64(seq![fp.data]) & 0xffff_ffff) as u32) as usize
}

/// The alternate bucket index for a fingerprint: the given index xored
/// with the fingerprint's own index hash.
pub open spec fn spec_alt_index(fp: Fingerprint, i: usize) -> usize {
    i ^ spec_fp_hash(fp)
}

/// Computes the alternate bucket index for a fingerprint.
pub fn get_alt_index(fp: Fingerprint, i: usize) -> (r: usize)
    ensures
        r == spec_alt_index(fp, i),
{
    let mut data: Vec<u8> = Vec::new();
    data.push(fp.data);
    assert(data@ =~= seq![fp.data]);
    let (_, index_hash) = get_hash(data.as_slice());
    i ^ (index_hash as usize)
}

/// Applying the alternate-index step twice returns the original index:
/// either of a fingerprint's two bucket indexes recovers the other.
pub proof fn lemma_alt_index_involution(fp: Fingerprint, i: usize)
    ensures
        spec_alt_index(fp, spec_alt_index(fp, i)) == i,
{
    let h = spec_fp_hash(fp);
    assert((i ^ h) ^ h == i) by (bit_vector);
}

/// A fingerprint and its item's two bucket indexes, with named fields
/// instead of a tuple.
#[derive(Clone, Copy, Debug, PartialEq, Eq, Structural)]
pub struct FaI {
    /// The bucket fingerprint.
    pub fp: Fingerprint,
    /// The first bucket index.
    pub i1: usize,
    /// The alternate bucket index.
    pub i2: usize,
}

/// The fingerprint byte an item's hash yields: the hash's top byte,
/// bumped to one when it would be the empty-slot marker.
pub open spec fn spec_fp_byte(h: u64) -> u8 {
    if (h >> 56) as u8 == 0 {
        1u8
    } else {
        (h >> 56) as u8
    }
}

impl FaI {
    /// Derives the fingerprint and both bucket indexes from the data's
    /// hash.
    fn from_data(data: &[u8]) -> (r: FaI)
        ensures
            r.fp.data == spec_fp_byte(spec_hash64(data@)),
            r.fp.data != 0,
            r.i1 == (spec_hash64(data@) & 0xffff_ffff) as u32 as usize,
            r.i2 == spec_alt_index(r.fp, r.i1),
    {
        let (fp_hash, index_hash) = get_hash(data);
        // the leading byte of the big-endian form of the upper hash half
        let b = (fp_hash >> 24) as u8;
        proof {
            let h = spec_hash64(data@);
            assert(((h >> 32) as u32 >> 24) as u8 == (h >> 56) as u8) by (bit_vector);
        }
        // bump past the empty-slot marker to reach a valid fingerprint
        let byte = if b == 0 {
            1u8
        } else {
            b
        };
        let fp = match Fingerprint::from_data(byte) {
            Some(f) => f,
            None => Fingerprint { data: 1 },
        };
        let i1 = index_hash as usize;
        let i2 = get_alt_index(fp, i1);
        FaI { fp, i1, i2 }
    }

    /// One of the item's two bucket indexes, chosen by a fresh coin flip.
    pub fn random_index(&self) -> (r: usize)
        ensures
            r == self.i1 || r == self.i2,
    {
        if coin_flip() {
            self.i1
        } else {
            self.i2
        }
    }
}

/// Relies on `rand::random::<bool>`: a fresh random draw; nothing is
/// promised about which outcome comes back.
#[verifier::external_body]
fn coin_flip() -> bool {
    rand::random()
}

/// Derives the fingerprint-and-indexes value for the given data.
pub fn get_fai(data: &[u8]) -> (r: FaI)
    ensures
        r.fp.data == spec_fp_byte(spec_hash64(data@)),
        r.fp.data != 0,
        r.i1 == (spec_hash64(data@) & 0xffff_ffff) as u32 as usize,
        r.i2 == spec_alt_index(r.fp, r.i1),
{
    FaI::from_data(data)
}

} // verus!
