//! Integrity metadata: a format version and a fingerprint of the append log.

use crate::pending::{u64_le_at, push_u64_le};
use vstd::bytes::{spec_u64_from_le_bytes, spec_u64_to_le_bytes};
use vstd::prelude::*;
use vstd::wrapping::u64_specs::wrapping_mul;

verus! {

/// Version of the persisted format.
pub const VERSION: u64 = 1;

/// Value that the fingerprint of no bytes has.
pub const CHECKSUM_BASIS: u64 = 0xcbf29ce484222325;

/// Factor that the fingerprint is multiplied by after each byte.
pub const CHECKSUM_PRIME: u64 = 0x100000001b3;

/// Fingerprint of a byte string: starting from the basis, each byte in turn
/// is xor-ed in and the sum multiplied by the prime, modulo 2^64.
pub open spec fn checksum(bytes: Seq<u8>) -> u64
    decreases bytes.len(),
{
    if bytes.len() == 0 {
        CHECKSUM_BASIS
    } else {
        wrapping_mul(checksum(bytes.drop_last()) ^ (bytes.last() as u64), CHECKSUM_PRIME)
    }
}

/// Computes the fingerprint of `bytes`.
pub fn hash_bytes(bytes: &[u8]) -> (hash: u64)
    ensures
        hash == checksum(bytes@),
{
    let mut hash: u64 = CHECKSUM_BASIS;
    let mut i: usize = 0;
    while i < bytes.len()
        invariant
            i <= bytes@.len(),
            hash == checksum(bytes@.take(i as int)),
        decreases bytes.len() - i,
    {
        assert(bytes@.take(i + 1).drop_last() =~= bytes@.take(i as int));
        hash = (hash ^ (bytes[i] as u64)).wrapping_mul(CHECKSUM_PRIME);
        i = i + 1;
    }
    assert(bytes@.take(i as int) =~= bytes@);
    hash
}

/// What is persisted beside the stores and the append log.
#[derive(Clone, Copy, Debug, PartialEq, Eq, Structural)]
pub struct Meta {
    /// Version of the format that wrote the database.
    pub version: u64,
    /// Fingerprint of the bytes of the append log.
    pub pending_hash: u64,
}

impl Meta {
    /// The metadata that belongs to an append log with the given bytes.
    pub open spec fn of(log: Seq<u8>) -> Meta {
        Meta { version: VERSION, pending_hash: checksum(log) }
    }

    /// The persisted form: the version, then the fingerprint, both
    /// little-endian.
    pub open spec fn encoded(self) -> Seq<u8> {
        spec_u64_to_le_bytes(self.version) + spec_u64_to_le_bytes(self.pending_hash)
    }

    /// The metadata that sixteen persisted bytes stand for.
    pub open spec fn decoded(bytes: Seq<u8>) -> Meta {
        Meta {
            version: spec_u64_from_le_bytes(bytes.subrange(0, 8)),
            pending_hash: spec_u64_from_le_bytes(bytes.subrange(8, 16)),
        }
    }

    /// The bytes to persist.
    pub fn to_bytes(&self) -> (bytes: Vec<u8>)
        ensures
            bytes@ == self.encoded(),
    {
        let mut bytes: Vec<u8> = Vec::new();
        push_u64_le(&mut bytes, self.version);
        push_u64_le(&mut bytes, self.pending_hash);
        assert(bytes@ =~= self.encoded());
        bytes
    }

    /// Reads persisted metadata; `None` unless there are exactly sixteen
    /// bytes.
    pub fn from_bytes(bytes: &Vec<u8>) -> (meta: Option<Meta>)
        ensures
            bytes@.len() == 16 ==> meta == Some(Meta::decoded(bytes@)),
            bytes@.len() != 16 ==> meta is None,
    {
        if bytes.len() != 16 {
            return None;
        }
        Some(Meta { version: u64_le_at(bytes, 0), pending_hash: u64_le_at(bytes, 8) })
    }
}

/// Persisted metadata reads back as it was written.
pub proof fn lemma_meta_round_trip(meta: Meta)
    ensures
        meta.encoded().len() == 16,
        Meta::decoded(meta.encoded()) == meta,
{
    vstd::bytes::lemma_auto_spec_u64_to_from_le_bytes();
    let bytes = meta.encoded();
    assert(bytes.subrange(0, 8) =~= spec_u64_to_le_bytes(meta.version));
    assert(bytes.subrange(8, 16) =~= spec_u64_to_le_bytes(meta.pending_hash));
}

} // verus!
