//! The range scan as a transition system over three record sequences.

use crate::bloom::covers;
use vstd::prelude::*;

verus! {

/// Where the scan stands within the current block of 256 records.
#[derive(Clone, Copy, Debug, PartialEq, Eq, Structural)]
pub enum IteratorState {
    /// The next record is read from the top level.
    Top,
    /// This many records of the mid level are left in the block.
    Mid(usize),
    /// `bot` records of the bot level are left under the current mid record,
    /// and `mid` records of the mid level after it.
    Bot { mid: usize, bot: usize },
}

/// The records of the three levels.
pub struct Stores {
    pub top: Seq<Seq<u8>>,
    pub mid: Seq<Seq<u8>>,
    pub bot: Seq<Seq<u8>>,
}

/// What a scan looks for: the levels it reads, the closed index range and
/// the bloom that a record must cover.
pub struct Query {
    pub stores: Stores,
    pub from: u64,
    pub to: u64,
    pub bloom: Seq<u8>,
}

/// The moving part of a scan: one cursor per level, the state and the index
/// of the record that is looked at next.
pub struct Walk {
    pub top: int,
    pub mid: int,
    pub bot: int,
    pub state: IteratorState,
    pub index: int,
}

/// What one transition does.
pub enum Step {
    /// The scan goes on from the given walk.
    Move(Walk),
    /// The index the walk stood at is a match; the scan goes on from the
    /// given walk.
    Yield(Walk),
    /// The level that had to be read has no record under its cursor.
    Exhausted,
}

/// How a run of transitions ends.
#[derive(Clone, Copy, Debug, PartialEq, Eq, Structural)]
pub enum Outcome {
    /// The record at this index matches.
    Match(u64),
    /// The index has passed the end of the range.
    Done,
    /// A level ran out of records within the range.
    Exhausted,
}

/// Records of the bot level that the walk has left under its mid record.
pub open spec fn bot_left(state: IteratorState) -> int {
    match state {
        IteratorState::Bot { mid, bot } => bot as int,
        _ => 0,
    }
}

/// Records of the mid level that the walk has left under its top record.
pub open spec fn mid_left(state: IteratorState) -> int {
    match state {
        IteratorState::Top => 0,
        IteratorState::Mid(left) => left as int,
        IteratorState::Bot { mid, bot } => mid as int,
    }
}

/// The three cursors agree with the index: each stands behind the record
/// that summarises the index, or on it where that record is yet to be read.
pub open spec fn aligned(w: Walk) -> bool {
    &&& 0 <= w.index
    &&& w.bot == w.index
    &&& w.mid * 16 == w.index + bot_left(w.state)
    &&& w.top * 256 == w.index + bot_left(w.state) + 16 * mid_left(w.state)
}

/// The walk a scan starts with: at the start of the block of 256 records
/// that holds `from`.
pub open spec fn start(from: u64) -> Walk {
    Walk {
        top: from as int / 256,
        mid: from as int / 256 * 16,
        bot: from as int / 256 * 256,
        state: IteratorState::Top,
        index: from as int / 256 * 256,
    }
}

/// One transition. Each reads exactly one record from the level of the
/// state, unless the state has none left.
pub open spec fn step(q: Query, w: Walk) -> Step {
    match w.state {
        IteratorState::Top => {
            if !(0 <= w.top < q.stores.top.len()) {
                Step::Exhausted
            } else if covers(q.stores.top[w.top], q.bloom) {
                Step::Move(Walk { top: w.top + 1, state: IteratorState::Mid(16), ..w })
            } else {
                Step::Move(
                    Walk {
                        top: w.top + 1,
                        mid: w.mid + 16,
                        bot: w.bot + 256,
                        state: IteratorState::Top,
                        index: w.index + 256,
                    },
                )
            }
        },
        IteratorState::Mid(left) => {
            if left == 0 {
                Step::Move(Walk { state: IteratorState::Top, ..w })
            } else if !(0 <= w.mid < q.stores.mid.len()) {
                Step::Exhausted
            } else if covers(q.stores.mid[w.mid], q.bloom) && w.index + 16 >= q.from {
                Step::Move(
                    Walk {
                        mid: w.mid + 1,
                        state: IteratorState::Bot { mid: (left - 1) as usize, bot: 16 },
                        ..w
                    },
                )
            } else {
                Step::Move(
                    Walk {
                        mid: w.mid + 1,
                        bot: w.bot + 16,
                        state: IteratorState::Mid((left - 1) as usize),
                        index: w.index + 16,
                        ..w
                    },
                )
            }
        },
        IteratorState::Bot { mid, bot } => {
            if bot == 0 {
                Step::Move(Walk { state: IteratorState::Mid(mid), ..w })
            } else if !(0 <= w.bot < q.stores.bot.len()) {
                Step::Exhausted
            } else {
                let next = Walk {
                    bot: w.bot + 1,
                    state: IteratorState::Bot { mid, bot: (bot - 1) as usize },
                    index: w.index + 1,
                    ..w
                };
                if covers(q.stores.bot[w.bot], q.bloom) && w.index >= q.from {
                    Step::Yield(next)
                } else {
                    Step::Move(next)
                }
            }
        },
    }
}

/// How far a state is from the next read of a record.
pub open spec fn rank(state: IteratorState) -> int {
    match state {
        IteratorState::Top => 2,
        IteratorState::Mid(left) => if left == 0 { 3 } else { 1 },
        IteratorState::Bot { mid, bot } => if bot == 0 { 4 } else { 0 },
    }
}

/// A bound on the transitions that a run from `w` can make before it ends.
pub open spec fn fuel(q: Query, w: Walk) -> int {
    if w.index > q.to {
        0
    } else {
        (q.to - w.index + 1) * 5 + rank(w.state)
    }
}

/// Transitions from `w` up to the first match or the end: the walk that is
/// left and how the run ended.
pub open spec fn run(q: Query, w: Walk) -> (Walk, Outcome)
    decreases fuel(q, w),
{
    if w.index > q.to {
        (w, Outcome::Done)
    } else {
        match step(q, w) {
            Step::Move(next) => run(q, next),
            Step::Yield(next) => (next, Outcome::Match(w.index as u64)),
            Step::Exhausted => (w, Outcome::Exhausted),
        }
    }
}

/// A run ends at or behind the index it started from, and a match lies
/// between that index and the end of the range.
pub proof fn lemma_run_advances(q: Query, w: Walk)
    requires
        0 <= w.index,
    ensures
        run(q, w).0.index >= w.index,
        run(q, w).1 is Match ==> w.index <= run(q, w).1->Match_0 <= q.to && run(q, w).0.index
            == run(q, w).1->Match_0 + 1,
    decreases fuel(q, w),
{
    if w.index <= q.to {
        match step(q, w) {
            Step::Move(next) => {
                lemma_run_advances(q, next);
            },
            _ => {},
        }
    }
}

/// Every match of a scan from `w`, in the order found, and whether the
/// scan ended because a level ran out of records.
pub open spec fn scan(q: Query, w: Walk) -> (Seq<u64>, bool)
    decreases q.to + 1 - w.index,
    when 0 <= w.index
    via scan_decreases
{
    let (next, outcome) = run(q, w);
    match outcome {
        Outcome::Match(index) => {
            let (rest, exhausted) = scan(q, next);
            (seq![index] + rest, exhausted)
        },
        Outcome::Done => (Seq::empty(), false),
        Outcome::Exhausted => (Seq::empty(), true),
    }
}

#[via_fn]
proof fn scan_decreases(q: Query, w: Walk) {
    lemma_run_advances(q, w);
}

} // verus!
