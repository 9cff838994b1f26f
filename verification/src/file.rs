use crate::bloom::{union_bytes, zero_bytes, Bloom};
use crate::error::Error;
use vstd::prelude::*;

verus! {

/// Whether a store can hold a record at `pos`: the bytes up to the end of
/// that record must be addressable.
pub open spec fn fits(pos: u64) -> bool {
    (pos + 1) * 256 <= usize::MAX
}

/// `records`, grown with empty blooms to at least `len` records.
pub open spec fn extended(records: Seq<Seq<u8>>, len: nat) -> Seq<Seq<u8>> {
    if len <= records.len() {
        records
    } else {
        records + Seq::new((len - records.len()) as nat, |i: int| zero_bytes(256))
    }
}

/// `records` after `bloom` was accrued into the record at `pos`, the store
/// grown to hold that record where it did not.
pub open spec fn accrued(records: Seq<Seq<u8>>, pos: int, bloom: Seq<u8>) -> Seq<Seq<u8>> {
    let grown = extended(records, (pos + 1) as nat);
    grown.update(pos, union_bytes(grown[pos], bloom))
}

/// `records` after the record at `pos` was replaced with `bloom`, the store
/// grown to hold that record where it did not.
pub open spec fn replaced(records: Seq<Seq<u8>>, pos: int, bloom: Seq<u8>) -> Seq<Seq<u8>> {
    extended(records, (pos + 1) as nat).update(pos, bloom)
}

/// The bytes of the records can be addressed, and every record is a whole
/// bloom.
pub open spec fn addressable(records: Seq<Seq<u8>>) -> bool {
    &&& records.len() * 256 <= usize::MAX
    &&& forall|i: int| 0 <= i < records.len() ==> (#[trigger] records[i]).len() == 256
}

/// The whole records that a byte string holds, 256 bytes each. Bytes behind
/// the last whole record are left out.
pub open spec fn records_of(bytes: Seq<u8>) -> Seq<Seq<u8>> {
    Seq::new(bytes.len() / 256, |k: int| bytes.subrange(k * 256, k * 256 + 256))
}

/// The bytes of the records, one behind the other.
pub open spec fn bytes_of(records: Seq<Seq<u8>>) -> Seq<u8>
    decreases records.len(),
{
    if records.len() == 0 {
        Seq::empty()
    } else {
        bytes_of(records.drop_last()) + records.last()
    }
}

/// Record store: a growable sequence of blooms, addressed by position.
pub struct File {
    records: Vec<Bloom>,
}

impl View for File {
    type V = Seq<Seq<u8>>;

    closed spec fn view(&self) -> Seq<Seq<u8>> {
        Seq::new(self.records@.len(), |i: int| self.records@[i]@)
    }
}

impl File {
    /// The store is addressable and every record is a whole bloom.
    pub open spec fn wf(&self) -> bool {
        addressable(self@)
    }

    /// A store without records.
    pub fn new() -> (file: File)
        ensures
            file.wf(),
            file@ == Seq::<Seq<u8>>::empty(),
    {
        let file = File { records: Vec::new() };
        assert(file@ =~= Seq::<Seq<u8>>::empty());
        file
    }

    /// Opens the store on its persisted bytes: it holds the whole records of
    /// `bytes`.
    pub fn open(bytes: &[u8]) -> (file: File)
        ensures
            file.wf(),
            file@ == records_of(bytes@),
    {
        let count: usize = bytes.len() / 256;
        let mut records: Vec<Bloom> = Vec::new();
        let mut k: usize = 0;
        while k < count
            invariant
                k <= count == bytes@.len() / 256,
                bytes@.len() <= usize::MAX,
                records@.len() == k,
                forall|j: int|
                    0 <= j < k ==> (#[trigger] records@[j])@ == bytes@.subrange(
                        j * 256,
                        j * 256 + 256,
                    ),
            decreases count - k,
        {
            let mut record: [u8; 256] = [0u8; 256];
            let mut i: usize = 0;
            while i < 256
                invariant
                    i <= 256,
                    k < count == bytes@.len() / 256,
                    bytes@.len() <= usize::MAX,
                    forall|j: int| 0 <= j < i ==> record@[j] == bytes@[k * 256 + j],
                decreases 256 - i,
            {
                record[i] = bytes[k * 256 + i];
                i = i + 1;
            }
            assert(record@ =~= bytes@.subrange(k * 256, k * 256 + 256));
            records.push(Bloom::from_bytes(record));
            k = k + 1;
        }
        let file = File { records };
        assert(file@ =~= records_of(bytes@));
        file
    }

    /// The bytes of the store: its records, one behind the other.
    pub fn to_bytes(&self) -> (bytes: Vec<u8>)
        ensures
            bytes@ == bytes_of(self@),
    {
        let mut bytes: Vec<u8> = Vec::new();
        let mut k: usize = 0;
        while k < self.records.len()
            invariant
                k <= self.records@.len(),
                bytes@ == bytes_of(self@.take(k as int)),
            decreases self.records.len() - k,
        {
            let ghost head = bytes@;
            let record: &[u8; 256] = self.records[k].data();
            let mut i: usize = 0;
            while i < 256
                invariant
                    i <= 256,
                    k < self.records@.len(),
                    record@ == self@[k as int],
                    bytes@ == head + record@.take(i as int),
                decreases 256 - i,
            {
                bytes.push(record[i]);
                assert(record@.take(i + 1) =~= record@.take(i as int).push(record@[i as int]));
                assert(bytes@ =~= head + record@.take(i + 1));
                i = i + 1;
            }
            assert(record@.take(256) =~= record@);
            assert(self@.take(k + 1).drop_last() =~= self@.take(k as int));
            k = k + 1;
        }
        assert(self@.take(k as int) =~= self@);
        bytes
    }

    /// Number of records in the store.
    pub fn len(&self) -> (len: usize)
        ensures
            len == self@.len(),
    {
        self.records.len()
    }

    /// Grows the store with empty blooms so that it has a record at `pos`.
    fn ensure_space_for_write(&mut self, pos: u64) -> (res: Result<(), Error>)
        requires
            old(self).wf(),
        ensures
            final(self).wf(),
            fits(pos) ==> res is Ok && final(self)@ == extended(old(self)@, (pos + 1) as nat),
            !fits(pos) ==> res == Err::<(), Error>(Error::OutOfSpace) && final(self)@ == old(self)@,
    {
        if pos >= (usize::MAX / 256) as u64 {
            return Err(Error::OutOfSpace);
        }
        let wanted: usize = (pos + 1) as usize;
        while self.records.len() < wanted
            invariant
                self.wf(),
                wanted == pos + 1,
                fits(pos),
                self@.len() >= old(self)@.len(),
                self@.len() == old(self)@.len() || self@.len() <= wanted,
                self@ == extended(old(self)@, self@.len()),
            decreases wanted - self.records.len(),
        {
            let ghost before = self@;
            self.records.push(Bloom::zero());
            assert(self@ =~= before.push(zero_bytes(256)));
            assert(self@ =~= extended(old(self)@, self@.len()));
        }
        assert(self@ =~= extended(old(self)@, (pos + 1) as nat));
        Ok(())
    }

    /// Reads the bloom at the given position.
    pub fn read_bloom(&self, pos: u64) -> (res: Result<Bloom, Error>)
        ensures
            pos < self@.len() ==> res is Ok && res->Ok_0@ == self@[pos as int],
            pos >= self@.len() ==> res == Err::<Bloom, Error>(Error::Exhausted),
    {
        if pos < self.records.len() as u64 {
            Ok(self.records[pos as usize])
        } else {
            Err(Error::Exhausted)
        }
    }

    /// Accrues `bloom` into the record at the given position.
    pub fn accrue_bloom(&mut self, pos: u64, bloom: &Bloom) -> (res: Result<(), Error>)
        requires
            old(self).wf(),
        ensures
            final(self).wf(),
            fits(pos) ==> res is Ok && final(self)@ == accrued(old(self)@, pos as int, bloom@),
            !fits(pos) ==> res == Err::<(), Error>(Error::OutOfSpace) && final(self)@ == old(self)@,
    {
        match self.ensure_space_for_write(pos) {
            Err(e) => Err(e),
            Ok(()) => {
                let ghost grown = self@;
                let mut merged: Bloom = self.records[pos as usize];
                merged.accrue_bloom(bloom);
                self.records.set(pos as usize, merged);
                assert(self@ =~= grown.update(pos as int, union_bytes(grown[pos as int], bloom@)));
                Ok(())
            },
        }
    }

    /// Replaces the record at the given position with `bloom`.
    pub fn replace_bloom(&mut self, pos: u64, bloom: &Bloom) -> (res: Result<(), Error>)
        requires
            old(self).wf(),
        ensures
            final(self).wf(),
            fits(pos) ==> res is Ok && final(self)@ == replaced(old(self)@, pos as int, bloom@),
            !fits(pos) ==> res == Err::<(), Error>(Error::OutOfSpace) && final(self)@ == old(self)@,
    {
        match self.ensure_space_for_write(pos) {
            Err(e) => Err(e),
            Ok(()) => {
                let ghost grown = self@;
                self.records.set(pos as usize, *bloom);
                assert(self@ =~= grown.update(pos as int, bloom@));
                Ok(())
            },
        }
    }

    /// A cursor at the first record.
    pub fn iterator(&self) -> (iter: FileIterator<'_>)
        ensures
            iter.store() == *self,
            iter.position() == 0,
    {
        FileIterator { file: self, pos: 0 }
    }

    /// A cursor at the record at `pos`.
    pub fn iterator_from(&self, pos: u64) -> (iter: FileIterator<'_>)
        ensures
            iter.store() == *self,
            iter.position() == pos,
    {
        FileIterator { file: self, pos }
    }
}

/// Forward-only cursor over the records of one store.
pub struct FileIterator<'a> {
    file: &'a File,
    pos: u64,
}

impl<'a> FileIterator<'a> {
    /// The store that the cursor reads.
    pub closed spec fn store(&self) -> File {
        *self.file
    }

    /// The position of the record that is read next.
    pub closed spec fn position(&self) -> nat {
        self.pos as nat
    }

    /// Skips `n` records without reading them.
    pub fn advance(&mut self, n: u64)
        requires
            old(self).position() + n <= u64::MAX,
        ensures
            final(self).store() == old(self).store(),
            final(self).position() == old(self).position() + n,
    {
        self.pos = self.pos + n;
    }

    /// Reads the record under the cursor and moves past it; `None` when the
    /// store has no record there.
    pub fn next(&mut self) -> (res: Option<Bloom>)
        ensures
            final(self).store() == old(self).store(),
            old(self).position() < old(self).store()@.len() ==> res is Some && res->Some_0@
                == old(self).store()@[old(self).position() as int] && final(self).position()
                == old(self).position() + 1,
            old(self).position() >= old(self).store()@.len() ==> res is None && final(self).position() == old(self).position(),
    {
        if self.pos < self.file.records.len() as u64 {
            let bloom: Bloom = self.file.records[self.pos as usize];
            self.pos = self.pos + 1;
            Some(bloom)
        } else {
            None
        }
    }
}

/// The bytes of whole records hold those records again.
pub proof fn lemma_records_of_bytes(records: Seq<Seq<u8>>)
    requires
        forall|i: int| 0 <= i < records.len() ==> (#[trigger] records[i]).len() == 256,
    ensures
        bytes_of(records).len() == records.len() * 256,
        records_of(bytes_of(records)) == records,
    decreases records.len(),
{
    if records.len() > 0 {
        let head = records.drop_last();
        assert forall|i: int| 0 <= i < head.len() implies (#[trigger] head[i]).len() == 256 by {
            assert(head[i] == records[i]);
        }
        lemma_records_of_bytes(head);
        let bytes = bytes_of(records);
        assert(records.last().len() == 256);
        assert(bytes.len() == records.len() * 256);
        assert forall|k: int| 0 <= k < records.len() implies records_of(bytes)[k]
            == records[k] by {
            if k < head.len() {
                assert(records_of(bytes_of(head))[k] == head[k]);
                assert(bytes.subrange(k * 256, k * 256 + 256) =~= bytes_of(head).subrange(
                    k * 256,
                    k * 256 + 256,
                ));
            } else {
                assert(bytes.subrange(k * 256, k * 256 + 256) =~= records.last());
            }
        }
        assert(records_of(bytes) =~= records);
    } else {
        assert(records_of(bytes_of(records)) =~= records);
    }
}

} // verus!
