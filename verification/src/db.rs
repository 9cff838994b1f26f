use crate::bloom::Bloom;
use crate::error::Error;
use crate::file::{addressable, fits, File, FileIterator};
use crate::matching::{
    consistent, is_match, lemma_run_finds_least, lemma_run_within_levels, lemma_scan_finds_all,
    theorem_scan_within_levels,
};
use crate::meta::{checksum, Meta, VERSION};
use crate::pending::{
    entries, entry_bytes, lemma_entries_after_append, lemma_entries_whole, Pending,
};
use crate::replay::{all_fit, apply, lemma_replay_keeps_consistent, replay};
use crate::scan::{
    aligned, fuel, lemma_run_advances, run, scan, start, step, IteratorState, Outcome, Query,
    Step, Stores, Walk,
};
use vstd::prelude::*;

verus! {

/// Positions of the records that belong to one index, level by level.
#[derive(Clone, Copy, Debug, PartialEq, Eq, Structural)]
pub struct Positions {
    pub top: u64,
    pub mid: u64,
    pub bot: u64,
}

impl Positions {
    /// The positions for `index`: one top record stands for 256 indices, one
    /// mid record for 16, one bot record for one.
    pub fn from_index(index: u64) -> (pos: Positions)
        ensures
            pos.top == index / 256,
            pos.mid == index / 16,
            pos.bot == index,
    {
        assert(index >> 8 == index / 256) by (bit_vector);
        assert(index >> 4 == index / 16) by (bit_vector);
        Positions { top: index >> 8, mid: index >> 4, bot: index }
    }
}

/// The bytes of the entries for `blooms` under the indices `from`,
/// `from + 1` and so on.
pub open spec fn run_bytes(from: u64, blooms: Seq<Bloom>) -> Seq<u8>
    decreases blooms.len(),
{
    if blooms.len() == 0 {
        Seq::empty()
    } else {
        run_bytes(from, blooms.drop_last()) + entry_bytes(
            (from + blooms.len() - 1) as u64,
            blooms.last()@,
        )
    }
}

/// The entries that an insertion adds to a log of whole entries: one for each
/// bloom, in order, under consecutive indices.
pub proof fn lemma_entries_of_run(log: Seq<u8>, from: u64, blooms: Seq<Bloom>)
    requires
        log.len() % 264 == 0,
        from + blooms.len() <= u64::MAX + 1,
    ensures
        (log + run_bytes(from, blooms)).len() % 264 == 0,
        entries(log + run_bytes(from, blooms)) == entries(log) + Seq::new(
            blooms.len(),
            |k: int| ((from + k) as u64, blooms[k]@),
        ),
    decreases blooms.len(),
{
    let added = Seq::new(blooms.len(), |k: int| ((from + k) as u64, blooms[k]@));
    if blooms.len() == 0 {
        assert(log + run_bytes(from, blooms) =~= log);
        assert(entries(log) + added =~= entries(log));
    } else {
        let head = blooms.drop_last();
        let index = (from + blooms.len() - 1) as u64;
        lemma_entries_of_run(log, from, head);
        let before = log + run_bytes(from, head);
        lemma_entries_after_append(before, index, blooms.last()@);
        assert(log + run_bytes(from, blooms) =~= before + entry_bytes(index, blooms.last()@));
        let shorter = Seq::new(head.len(), |k: int| ((from + k) as u64, head[k]@));
        assert((entries(log) + shorter).push((index, blooms.last()@)) =~= entries(log) + added);
    }
}

/// Blooms database: three levels of records, the append log, and the
/// metadata that vouches for the log.
pub struct Database {
    /// Every record is the union of 256 records of the bot level.
    top: File,
    /// Every record is the union of 16 records of the bot level.
    mid: File,
    /// Every record is the bloom inserted under its position.
    bot: File,
    /// Inserted blooms that the levels do not hold yet.
    pending: Pending,
    /// Version and fingerprint of the append log.
    meta: Meta,
}

impl Database {
    /// The records of the three levels.
    pub closed spec fn stores(&self) -> Stores {
        Stores { top: self.top@, mid: self.mid@, bot: self.bot@ }
    }

    /// The bytes of the append log.
    pub closed spec fn log(&self) -> Seq<u8> {
        self.pending@
    }

    /// The metadata as it is to be persisted.
    pub closed spec fn metadata(&self) -> Meta {
        self.meta
    }

    /// The levels are addressable and the metadata belongs to the log.
    pub open spec fn wf(&self) -> bool {
        &&& addressable(self.stores().top)
        &&& addressable(self.stores().mid)
        &&& addressable(self.stores().bot)
        &&& self.metadata() == Meta::of(self.log())
    }

    /// Opens a database on the persisted parts. Where metadata was persisted,
    /// its fingerprint must be that of the log.
    pub fn open(
        top: File,
        mid: File,
        bot: File,
        pending: Pending,
        meta: Option<Meta>,
    ) -> (res: Result<Database, Error>)
        requires
            top.wf(),
            mid.wf(),
            bot.wf(),
        ensures
            res is Ok <==> (meta is Some ==> meta->Some_0.pending_hash == checksum(pending@)),
            res is Err ==> res->Err_0 == Error::MalformedPending,
            res is Ok ==> {
                &&& res->Ok_0.wf()
                &&& res->Ok_0.stores() == (Stores { top: top@, mid: mid@, bot: bot@ })
                &&& res->Ok_0.log() == pending@
                &&& res->Ok_0.metadata() == Meta::of(pending@)
            },
    {
        let pending_hash: u64 = pending.hash();
        match meta {
            Some(stored) => {
                if pending_hash != stored.pending_hash {
                    return Err(Error::MalformedPending);
                }
            },
            None => {},
        }
        Ok(Database { top, mid, bot, pending, meta: Meta { version: VERSION, pending_hash } })
    }

    /// The top level.
    pub fn top(&self) -> (file: &File)
        ensures
            file@ == self.stores().top,
    {
        &self.top
    }

    /// The mid level.
    pub fn mid(&self) -> (file: &File)
        ensures
            file@ == self.stores().mid,
    {
        &self.mid
    }

    /// The bot level.
    pub fn bot(&self) -> (file: &File)
        ensures
            file@ == self.stores().bot,
    {
        &self.bot
    }

    /// The append log.
    pub fn pending(&self) -> (log: &Pending)
        ensures
            log@ == self.log(),
    {
        &self.pending
    }

    /// The metadata to persist.
    pub fn meta(&self) -> (meta: Meta)
        ensures
            meta == self.metadata(),
    {
        self.meta
    }

    /// Brings the metadata up to the log.
    fn flush_meta(&mut self)
        ensures
            final(self).stores() == old(self).stores(),
            final(self).log() == old(self).log(),
            final(self).metadata() == Meta::of(old(self).log()),
    {
        self.meta = Meta { version: VERSION, pending_hash: self.pending.hash() };
    }

    /// Appends consecutive blooms to the log, the first under index `from`.
    /// Nothing is appended where an index would pass the largest one.
    pub fn insert_blooms(&mut self, from: u64, blooms: &[Bloom]) -> (res: Result<(), Error>)
        requires
            old(self).wf(),
        ensures
            final(self).wf(),
            final(self).stores() == old(self).stores(),
            final(self).metadata() == Meta::of(final(self).log()),
            from + blooms@.len() <= u64::MAX + 1 ==> res is Ok && final(self).log() == old(self).log()
                + run_bytes(from, blooms@),
            from + blooms@.len() > u64::MAX + 1 ==> res == Err::<(), Error>(Error::OutOfSpace)
                && final(self).log() == old(self).log(),
    {
        let count: usize = blooms.len();
        if count > 0 && (count - 1) as u64 > u64::MAX - from {
            return Err(Error::OutOfSpace);
        }
        let mut i: usize = 0;
        while i < count
            invariant
                i <= count == blooms@.len(),
                from + count <= u64::MAX + 1,
                self.top == old(self).top,
                self.mid == old(self).mid,
                self.bot == old(self).bot,
                self.pending@ == old(self).pending@ + run_bytes(from, blooms@.take(i as int)),
            decreases count - i,
        {
            assert(blooms@.take(i + 1).drop_last() =~= blooms@.take(i as int));
            self.pending.append(from + i as u64, &blooms[i]);
            i = i + 1;
        }
        assert(blooms@.take(i as int) =~= blooms@);
        self.flush_meta();
        Ok(())
    }

    /// Whether every whole entry of the log has an index that the levels can
    /// hold.
    fn entries_fit(&self) -> (ok: bool)
        ensures
            ok == all_fit(entries(self.log())),
    {
        let limit: u64 = (usize::MAX / 256) as u64;
        let ghost es = entries(self.pending@);
        let mut iter = self.pending.iterator();
        let ghost mut k: int = 0;
        loop
            invariant_except_break
                iter.offset() == 264 * k,
            invariant
                iter.log() == self.pending@,
                es == entries(self.pending@),
                limit == usize::MAX / 256,
                0 <= k <= es.len(),
                all_fit(es.take(k)),
            ensures
                k == es.len(),
            decreases es.len() - k,
        {
            match iter.next() {
                Some(Ok((index, _))) => {
                    assert(es[k].0 == index);
                    if index >= limit {
                        return false;
                    }
                    proof {
                        k = k + 1;
                        assert forall|j: int| 0 <= j < es.take(k).len() implies fits(
                            #[trigger] es.take(k)[j].0,
                        ) by {
                            if j < k - 1 {
                                assert(es.take(k)[j] == es.take(k - 1)[j]);
                            }
                        }
                    }
                },
                _ => {
                    break;
                },
            }
        }
        assert(es.take(k) =~= es);
        true
    }

    /// Applies every whole entry of the log to the levels, in the order
    /// written, then empties the log. Where an entry has an index that the
    /// levels cannot hold, nothing is applied and the log is kept.
    pub fn flush(&mut self) -> (res: Result<(), Error>)
        requires
            old(self).wf(),
        ensures
            final(self).wf(),
            consistent(old(self).stores()) ==> consistent(final(self).stores()),
            all_fit(entries(old(self).log())) ==> {
                &&& res is Ok
                &&& final(self).stores() == replay(old(self).stores(), entries(old(self).log()))
                &&& final(self).log() == Seq::<u8>::empty()
            },
            !all_fit(entries(old(self).log())) ==> {
                &&& res == Err::<(), Error>(Error::OutOfSpace)
                &&& final(self).stores() == old(self).stores()
                &&& final(self).log() == old(self).log()
            },
    {
        if !self.entries_fit() {
            return Err(Error::OutOfSpace);
        }
        let ghost es = entries(self.pending@);
        let ghost before = self.stores();
        let mut iter = self.pending.iterator();
        let ghost mut k: int = 0;
        loop
            invariant_except_break
                iter.offset() == 264 * k,
            invariant
                self.top.wf(),
                self.mid.wf(),
                self.bot.wf(),
                self.pending@ == old(self).pending@,
                self.meta == old(self).meta,
                iter.log() == self.pending@,
                es == entries(self.pending@),
                all_fit(es),
                0 <= k <= es.len(),
                self.stores() == replay(before, es.take(k)),
            ensures
                k == es.len(),
            decreases es.len() - k,
        {
            match iter.next() {
                Some(Ok((index, bloom))) => {
                    let pos = Positions::from_index(index);
                    assert(es[k] == (index, bloom@));
                    assert(fits(es[k].0));
                    let ghost prior = self.stores();
                    match self.top.accrue_bloom(pos.top, &bloom) {
                        Ok(()) => {},
                        Err(e) => {
                            return Err(e);
                        },
                    }
                    match self.mid.accrue_bloom(pos.mid, &bloom) {
                        Ok(()) => {},
                        Err(e) => {
                            return Err(e);
                        },
                    }
                    match self.bot.replace_bloom(pos.bot, &bloom) {
                        Ok(()) => {},
                        Err(e) => {
                            return Err(e);
                        },
                    }
                    proof {
                        k = k + 1;
                        assert(es.take(k).drop_last() =~= es.take(k - 1));
                        assert(self.stores() == apply(prior, index, bloom@));
                    }
                },
                _ => {
                    break;
                },
            }
        }
        assert(es.take(k) =~= es);
        proof {
            if consistent(before) {
                lemma_entries_whole(self.pending@);
                lemma_replay_keeps_consistent(before, es);
            }
        }
        self.pending.clear();
        self.flush_meta();
        Ok(())
    }

    /// A scan for the indices from `from` to `to`, both included, whose
    /// bloom covers `bloom`. It starts at the block of 256 that holds `from`.
    pub fn iterate_matching(&self, from: u64, to: u64, bloom: &Bloom) -> (iter:
        DatabaseIterator<'_>)
        requires
            self.wf(),
        ensures
            iter.inv(),
            iter.query() == (Query { stores: self.stores(), from, to, bloom: bloom@ }),
            iter.walk() == start(from),
    {
        let index: u64 = from / 256 * 256;
        let pos = Positions::from_index(index);
        assert(pos.top == from / 256 && pos.mid == from / 256 * 16);
        DatabaseIterator {
            top: self.top.iterator_from(pos.top),
            mid: self.mid.iterator_from(pos.mid),
            bot: self.bot.iterator_from(pos.bot),
            state: IteratorState::Top,
            from,
            to,
            index,
            bloom: *bloom,
        }
    }
}

/// Scan over the three levels of a database, in lock-step.
pub struct DatabaseIterator<'a> {
    top: FileIterator<'a>,
    mid: FileIterator<'a>,
    bot: FileIterator<'a>,
    state: IteratorState,
    from: u64,
    to: u64,
    index: u64,
    bloom: Bloom,
}

impl<'a> DatabaseIterator<'a> {
    /// What the scan looks for.
    pub closed spec fn query(&self) -> Query {
        Query {
            stores: Stores {
                top: self.top.store()@,
                mid: self.mid.store()@,
                bot: self.bot.store()@,
            },
            from: self.from,
            to: self.to,
            bloom: self.bloom@,
        }
    }

    /// Where the scan stands.
    pub closed spec fn walk(&self) -> Walk {
        Walk {
            top: self.top.position() as int,
            mid: self.mid.position() as int,
            bot: self.bot.position() as int,
            state: self.state,
            index: self.index as int,
        }
    }

    /// The cursors agree with the index, and the levels are addressable.
    pub closed spec fn inv(&self) -> bool {
        &&& aligned(self.walk())
        &&& self.top.store().wf()
        &&& self.mid.store().wf()
        &&& self.bot.store().wf()
    }

    /// Goes on to the next match. `None` once the index has passed the end of
    /// the range; an error where a level has no record for an index within
    /// the range.
    pub fn next(&mut self) -> (res: Option<Result<u64, Error>>)
        requires
            old(self).inv(),
        ensures
            final(self).inv(),
            final(self).query() == old(self).query(),
            final(self).walk() == run(old(self).query(), old(self).walk()).0,
            match run(old(self).query(), old(self).walk()).1 {
                Outcome::Match(index) => res == Some(Ok::<u64, Error>(index)),
                Outcome::Done => res is None,
                Outcome::Exhausted => res == Some(Err::<u64, Error>(Error::Exhausted)),
            },
            consistent(old(self).query().stores) ==> {
                &&& res matches Some(Ok(index)) ==> {
                    &&& is_match(old(self).query(), index as int)
                    &&& forall|j: int|
                        old(self).walk().index <= j < index ==> !is_match(old(self).query(), j)
                }
                &&& !(res matches Some(Ok(_))) ==> forall|j: int|
                    old(self).walk().index <= j ==> !is_match(old(self).query(), j)
                &&& old(self).query().to < old(self).query().stores.bot.len() ==> !(res matches Some(
                    Err(_),
                ))
            },
    {
        let ghost q = self.query();
        proof {
            if consistent(q.stores) {
                lemma_run_finds_least(q, self.walk());
                if q.to < q.stores.bot.len() {
                    lemma_run_within_levels(q, self.walk());
                }
            }
        }
        let ghost first = self.walk();
        let ghost goal = run(q, first);
        loop
            invariant
                self.inv(),
                self.query() == q,
                q == old(self).query(),
                first == old(self).walk(),
                goal == run(q, first),
                run(q, self.walk()) == goal,
                consistent(q.stores) ==> {
                    &&& goal.1 is Match ==> {
                        &&& is_match(q, goal.1->Match_0 as int)
                        &&& forall|j: int| first.index <= j < goal.1->Match_0 ==> !is_match(q, j)
                    }
                    &&& !(goal.1 is Match) ==> forall|j: int| first.index <= j ==> !is_match(q, j)
                    &&& q.to < q.stores.bot.len() ==> !(goal.1 is Exhausted)
                },
            decreases fuel(q, self.walk()),
        {
            if self.index > self.to {
                return None;
            }
            let ghost w = self.walk();
            match self.state {
                IteratorState::Top => {
                    match self.top.next() {
                        None => {
                            return Some(Err(Error::Exhausted));
                        },
                        Some(record) => {
                            if record.contains_bloom(&self.bloom) {
                                self.state = IteratorState::Mid(16);
                            } else {
                                self.index = self.index + 256;
                                self.mid.advance(16);
                                self.bot.advance(256);
                            }
                        },
                    }
                },
                IteratorState::Mid(left) => {
                    if left == 0 {
                        self.state = IteratorState::Top;
                    } else {
                        match self.mid.next() {
                            None => {
                                return Some(Err(Error::Exhausted));
                            },
                            Some(record) => {
                                if record.contains_bloom(&self.bloom) && self.index + 16
                                    >= self.from {
                                    self.state = IteratorState::Bot { mid: left - 1, bot: 16 };
                                } else {
                                    self.index = self.index + 16;
                                    self.bot.advance(16);
                                    self.state = IteratorState::Mid(left - 1);
                                }
                            },
                        }
                    }
                },
                IteratorState::Bot { mid, bot } => {
                    if bot == 0 {
                        self.state = IteratorState::Mid(mid);
                    } else {
                        match self.bot.next() {
                            None => {
                                return Some(Err(Error::Exhausted));
                            },
                            Some(record) => {
                                let found: bool = record.contains_bloom(&self.bloom)
                                    && self.index >= self.from;
                                let result: u64 = self.index;
                                self.index = self.index + 1;
                                self.state = IteratorState::Bot { mid, bot: bot - 1 };
                                if found {
                                    return Some(Ok(result));
                                }
                            },
                        }
                    }
                },
            }
            assert(step(q, w) == Step::Move(self.walk()));
        }
    }

    /// Runs the scan to its end: every match from here on, in the order
    /// found, and the error that stopped the scan, if one did.
    pub fn collect_matches(&mut self) -> (res: (Vec<u64>, Result<(), Error>))
        requires
            old(self).inv(),
        ensures
            final(self).inv(),
            final(self).query() == old(self).query(),
            res.0@ == scan(old(self).query(), old(self).walk()).0,
            scan(old(self).query(), old(self).walk()).1 ==> res.1 == Err::<(), Error>(
                Error::Exhausted,
            ),
            !scan(old(self).query(), old(self).walk()).1 ==> res.1 is Ok,
            consistent(old(self).query().stores) ==> {
                &&& forall|k: int|
                    0 <= k < res.0@.len() ==> old(self).walk().index <= (#[trigger] res.0@[k])
                        && is_match(old(self).query(), res.0@[k] as int)
                &&& forall|j: int|
                    old(self).walk().index <= j && is_match(old(self).query(), j)
                        ==> res.0@.contains(j as u64)
                &&& forall|a: int, b: int| 0 <= a < b < res.0@.len() ==> res.0@[a] < res.0@[b]
                &&& old(self).query().to < old(self).query().stores.bot.len() ==> res.1 is Ok
            },
    {
        let ghost q = self.query();
        let ghost all = scan(q, self.walk());
        proof {
            if consistent(q.stores) {
                lemma_scan_finds_all(q, self.walk());
                if q.to < q.stores.bot.len() {
                    theorem_scan_within_levels(q, self.walk());
                }
            }
        }
        let ghost first = self.walk();
        let mut found: Vec<u64> = Vec::new();
        loop
            invariant
                self.inv(),
                self.query() == q,
                q == old(self).query(),
                all == scan(q, old(self).walk()),
                first == old(self).walk(),
                consistent(q.stores) ==> {
                    &&& forall|k: int|
                        0 <= k < all.0.len() ==> first.index <= (#[trigger] all.0[k]) && is_match(
                            q,
                            all.0[k] as int,
                        )
                    &&& forall|j: int|
                        first.index <= j && is_match(q, j) ==> all.0.contains(j as u64)
                    &&& forall|a: int, b: int| 0 <= a < b < all.0.len() ==> all.0[a] < all.0[b]
                    &&& q.to < q.stores.bot.len() ==> !all.1
                },
                found@ + scan(q, self.walk()).0 == all.0,
                scan(q, self.walk()).1 == all.1,
            decreases q.to + 1 - self.walk().index,
        {
            let ghost w = self.walk();
            proof {
                lemma_run_advances(q, w);
            }
            match self.next() {
                None => {
                    assert(found@ =~= all.0);
                    return (found, Ok(()));
                },
                Some(Err(e)) => {
                    assert(found@ =~= all.0);
                    return (found, Err(e));
                },
                Some(Ok(index)) => {
                    let ghost prior = found@;
                    found.push(index);
                    assert(found@ + scan(q, self.walk()).0 =~= prior + (seq![index] + scan(
                        q,
                        self.walk(),
                    ).0));
                },
            }
        }
    }
}

} // verus!
