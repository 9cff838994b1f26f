//! The append log: entries of an index and a bloom, in the order written.

use crate::bloom::Bloom;
use crate::error::Error;
use crate::meta::{checksum, hash_bytes};
use byteorder::{ByteOrder, LittleEndian, WriteBytesExt};
use vstd::bytes::{spec_u64_from_le_bytes, spec_u64_to_le_bytes};
use vstd::prelude::*;

verus! {

/// Number of bytes in an entry: the index and the bloom.
pub const ENTRY_SIZE: usize = 264;

/// The bytes of one entry: the index, little-endian, then the bloom.
pub open spec fn entry_bytes(index: u64, bloom: Seq<u8>) -> Seq<u8> {
    spec_u64_to_le_bytes(index) + bloom
}

/// Number of whole entries in a log.
pub open spec fn entry_count(log: Seq<u8>) -> nat {
    log.len() / 264
}

/// The entry that starts at byte `offset` of a log.
pub open spec fn entry_at(log: Seq<u8>, offset: int) -> (u64, Seq<u8>) {
    (
        spec_u64_from_le_bytes(log.subrange(offset, offset + 8)),
        log.subrange(offset + 8, offset + 264),
    )
}

/// The whole entries of a log, in the order written. Bytes behind the last
/// whole entry belong to a write that did not finish, and are left out.
pub open spec fn entries(log: Seq<u8>) -> Seq<(u64, Seq<u8>)> {
    Seq::new(entry_count(log), |k: int| entry_at(log, k * 264))
}

/// Every whole entry of a log holds a whole bloom.
pub proof fn lemma_entries_whole(log: Seq<u8>)
    ensures
        forall|k: int| 0 <= k < entries(log).len() ==> (#[trigger] entries(log)[k]).1.len() == 256,
{
}

/// An entry written behind whole entries is the last entry of the log, and
/// the entries before it stay.
pub proof fn lemma_entries_after_append(log: Seq<u8>, index: u64, bloom: Seq<u8>)
    requires
        log.len() % 264 == 0,
        bloom.len() == 256,
    ensures
        (log + entry_bytes(index, bloom)).len() % 264 == 0,
        entries(log + entry_bytes(index, bloom)) == entries(log).push((index, bloom)),
{
    vstd::bytes::lemma_auto_spec_u64_to_from_le_bytes();
    let head = spec_u64_to_le_bytes(index);
    let longer = log + entry_bytes(index, bloom);
    let count = entry_count(log) as int;
    assert(log.len() == count * 264);
    assert(longer.len() == (count + 1) * 264);
    assert forall|k: int| 0 <= k < count + 1 implies entries(longer)[k] == entries(log).push(
        (index, bloom),
    )[k] by {
        if k < count {
            assert(longer.subrange(k * 264, k * 264 + 8) =~= log.subrange(k * 264, k * 264 + 8));
            assert(longer.subrange(k * 264 + 8, k * 264 + 264) =~= log.subrange(
                k * 264 + 8,
                k * 264 + 264,
            ));
        } else {
            assert(longer.subrange(k * 264, k * 264 + 8) =~= head);
            assert(longer.subrange(k * 264 + 8, k * 264 + 264) =~= bloom);
        }
    }
    assert(entries(longer) =~= entries(log).push((index, bloom)));
}

/// `byteorder::WriteBytesExt::write_u64` with `LittleEndian`, on a vector:
/// the eight bytes of `value`, lowest first, are added behind what the
/// vector holds.
#[verifier::external_body]
pub(crate) fn push_u64_le(bytes: &mut Vec<u8>, value: u64)
    ensures
        final(bytes)@ == old(bytes)@ + spec_u64_to_le_bytes(value),
{
    let _ = bytes.write_u64::<LittleEndian>(value);
}

/// `byteorder::ByteOrder::read_u64` of `LittleEndian`, on the bytes from
/// `offset` on: the number whose eight bytes, lowest first, stand there.
#[verifier::external_body]
pub(crate) fn u64_le_at(bytes: &Vec<u8>, offset: usize) -> (value: u64)
    requires
        offset + 8 <= bytes@.len(),
    ensures
        value == spec_u64_from_le_bytes(bytes@.subrange(offset as int, offset + 8)),
{
    LittleEndian::read_u64(&bytes[offset..])
}

/// Append log of blooms that no store holds yet.
pub struct Pending {
    bytes: Vec<u8>,
}

impl View for Pending {
    type V = Seq<u8>;

    closed spec fn view(&self) -> Seq<u8> {
        self.bytes@
    }
}

impl Pending {
    /// The log with the given bytes.
    pub fn open(bytes: Vec<u8>) -> (log: Pending)
        ensures
            log@ == bytes@,
    {
        Pending { bytes }
    }

    /// The bytes of the log.
    pub fn as_bytes(&self) -> (bytes: &[u8])
        ensures
            bytes@ == self@,
    {
        self.bytes.as_slice()
    }

    /// Writes one entry behind the end of the log.
    pub fn append(&mut self, index: u64, bloom: &Bloom)
        ensures
            final(self)@ == old(self)@ + entry_bytes(index, bloom@),
    {
        push_u64_le(&mut self.bytes, index);
        let ghost head = self.bytes@;
        let data: &[u8; 256] = bloom.data();
        let mut i: usize = 0;
        while i < 256
            invariant
                i <= 256,
                data@ == bloom@,
                self.bytes@ == head + bloom@.take(i as int),
            decreases 256 - i,
        {
            self.bytes.push(data[i]);
            assert(bloom@.take(i + 1) =~= bloom@.take(i as int).push(bloom@[i as int]));
            assert(self.bytes@ =~= head + bloom@.take(i + 1));
            i = i + 1;
        }
        assert(bloom@.take(256) =~= bloom@);
        assert(self.bytes@ =~= old(self)@ + entry_bytes(index, bloom@));
    }

    /// Empties the log.
    pub fn clear(&mut self)
        ensures
            final(self)@ == Seq::<u8>::empty(),
    {
        self.bytes.clear();
    }

    /// Fingerprint of the bytes of the log.
    pub fn hash(&self) -> (hash: u64)
        ensures
            hash == checksum(self@),
    {
        hash_bytes(self.bytes.as_slice())
    }

    /// A reader at the first entry.
    pub fn iterator(&self) -> (iter: PendingIterator<'_>)
        ensures
            iter.log() == self@,
            iter.offset() == 0,
    {
        PendingIterator { log: self, offset: 0 }
    }
}

/// Forward-only reader of the entries of a log.
pub struct PendingIterator<'a> {
    log: &'a Pending,
    offset: usize,
}

impl<'a> PendingIterator<'a> {
    /// The bytes of the log that is read.
    pub closed spec fn log(&self) -> Seq<u8> {
        self.log@
    }

    /// The byte at which the next entry starts.
    pub closed spec fn offset(&self) -> nat {
        self.offset as nat
    }

    /// Reads the next entry. `None` where fewer bytes are left than an index
    /// has; an error where the index is there and the bloom is cut short.
    /// Either way the reader then stands at the end of the log.
    pub fn next(&mut self) -> (res: Option<Result<(u64, Bloom), Error>>)
        requires
            old(self).offset() <= old(self).log().len(),
        ensures
            final(self).log() == old(self).log(),
            final(self).offset() <= final(self).log().len(),
            old(self).offset() + 264 <= old(self).log().len() ==> {
                &&& res is Some
                &&& res->Some_0 is Ok
                &&& (res->Some_0->Ok_0.0, res->Some_0->Ok_0.1@) == entry_at(
                    old(self).log(),
                    old(self).offset() as int,
                )
                &&& final(self).offset() == old(self).offset() + 264
            },
            old(self).offset() + 8 <= old(self).log().len() < old(self).offset() + 264 ==> {
                &&& res == Some(Err::<(u64, Bloom), Error>(Error::TruncatedEntry))
                &&& final(self).offset() == old(self).log().len()
            },
            old(self).log().len() < old(self).offset() + 8 ==> {
                &&& res is None
                &&& final(self).offset() == old(self).log().len()
            },
    {
        let len: usize = self.log.bytes.len();
        let left: usize = len - self.offset;
        if left < 8 {
            self.offset = len;
            return None;
        }
        if left < 264 {
            self.offset = len;
            return Some(Err(Error::TruncatedEntry));
        }
        let index: u64 = u64_le_at(&self.log.bytes, self.offset);
        let start: usize = self.offset + 8;
        let mut bytes: [u8; 256] = [0u8; 256];
        let mut i: usize = 0;
        while i < 256
            invariant
                i <= 256,
                start + 256 <= self.log.bytes@.len() == len,
                forall|j: int| 0 <= j < i ==> bytes@[j] == self.log.bytes@[start + j],
            decreases 256 - i,
        {
            bytes[i] = self.log.bytes[start + i];
            i = i + 1;
        }
        assert(bytes@ =~= self.log.bytes@.subrange(start as int, start + 256));
        self.offset = self.offset + 264;
        Some(Ok((index, Bloom::from_bytes(bytes))))
    }
}

} // verus!
