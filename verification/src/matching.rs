//! What a scan finds, stated over the records of the bot level alone, and
//! the proof that the pruned walk over three levels finds exactly that.

use crate::bloom::{covers, lemma_covers_transitive, lemma_covers_zero, zero_bytes};
use crate::scan::{
    aligned, fuel, lemma_run_advances, run, scan, start, step, Outcome, Query, Step, Stores, Walk,
};
use vstd::prelude::*;

verus! {

/// Every record of every level is a whole bloom.
pub open spec fn well_sized(s: Stores) -> bool {
    &&& forall|i: int| 0 <= i < s.top.len() ==> (#[trigger] s.top[i]).len() == 256
    &&& forall|i: int| 0 <= i < s.mid.len() ==> (#[trigger] s.mid[i]).len() == 256
    &&& forall|i: int| 0 <= i < s.bot.len() ==> (#[trigger] s.bot[i]).len() == 256
}

/// The record of the bot level at `i` has its record of the mid and of the
/// top level, and both cover it.
pub open spec fn summarised(s: Stores, i: int) -> bool {
    &&& i / 256 < s.top.len()
    &&& i / 16 < s.mid.len()
    &&& covers(s.top[i / 256], s.bot[i])
    &&& covers(s.mid[i / 16], s.bot[i])
}

/// The upper levels summarise the bot level, record by record.
pub open spec fn consistent(s: Stores) -> bool {
    &&& well_sized(s)
    &&& forall|i: int| 0 <= i < s.bot.len() ==> #[trigger] summarised(s, i)
}

/// The index lies in the range, the bot level has a record for it, and that
/// record covers the bloom asked for.
pub open spec fn is_match(q: Query, i: int) -> bool {
    &&& q.from <= i <= q.to
    &&& 0 <= i < q.stores.bot.len()
    &&& covers(q.stores.bot[i], q.bloom)
}

/// Over consistent levels a run finds the least match at or behind the index
/// it starts from, and ends otherwise only where there is none.
pub proof fn lemma_run_finds_least(q: Query, w: Walk)
    requires
        consistent(q.stores),
        q.bloom.len() == 256,
        aligned(w),
    ensures
        aligned(run(q, w).0),
        run(q, w).1 is Match ==> {
            &&& is_match(q, run(q, w).1->Match_0 as int)
            &&& forall|j: int| w.index <= j < run(q, w).1->Match_0 ==> !is_match(q, j)
        },
        !(run(q, w).1 is Match) ==> forall|j: int| w.index <= j ==> !is_match(q, j),
    decreases fuel(q, w),
{
    let s = q.stores;
    if w.index > q.to {
    } else {
        match step(q, w) {
            Step::Exhausted => {
                assert forall|j: int| w.index <= j implies !is_match(q, j) by {
                    if is_match(q, j) {
                        assert(summarised(s, j));
                    }
                }
            },
            Step::Yield(next) => {},
            Step::Move(next) => {
                lemma_run_finds_least(q, next);
                assert forall|j: int| w.index <= j < next.index implies !is_match(q, j) by {
                    if is_match(q, j) {
                        assert(summarised(s, j));
                        if w.state is Top {
                            assert(j / 256 == w.top);
                            lemma_covers_transitive(s.top[w.top], s.bot[j], q.bloom);
                        } else if w.state is Mid {
                            assert(j / 16 == w.mid);
                            if covers(s.mid[w.mid], q.bloom) {
                                assert(w.index + 16 < q.from);
                            } else {
                                lemma_covers_transitive(s.mid[w.mid], s.bot[j], q.bloom);
                            }
                        }
                    }
                }
            },
        }
    }
}

/// Over consistent levels a scan finds the matches at or behind the index it
/// starts from: each of them, nothing else, in strictly ascending order.
pub proof fn lemma_scan_finds_all(q: Query, w: Walk)
    requires
        consistent(q.stores),
        q.bloom.len() == 256,
        aligned(w),
    ensures
        forall|k: int|
            0 <= k < scan(q, w).0.len() ==> w.index <= (#[trigger] scan(q, w).0[k]) && is_match(
                q,
                scan(q, w).0[k] as int,
            ),
        forall|j: int| w.index <= j && is_match(q, j) ==> scan(q, w).0.contains(j as u64),
        forall|a: int, b: int|
            0 <= a < b < scan(q, w).0.len() ==> scan(q, w).0[a] < scan(q, w).0[b],
    decreases q.to + 1 - w.index,
{
    lemma_run_advances(q, w);
    lemma_run_finds_least(q, w);
    let (next, outcome) = run(q, w);
    let found = scan(q, w).0;
    match outcome {
        Outcome::Match(index) => {
            lemma_scan_finds_all(q, next);
            let rest = scan(q, next).0;
            assert(found =~= seq![index] + rest);
            assert(found[0] == index);
            assert forall|k: int| 0 <= k < found.len() implies w.index <= (#[trigger] found[k])
                && is_match(q, found[k] as int) by {
                if k > 0 {
                    assert(found[k] == rest[k - 1]);
                }
            }
            assert forall|j: int| w.index <= j && is_match(q, j) implies found.contains(
                j as u64,
            ) by {
                if j == index {
                    assert(found[0] == j as u64);
                } else {
                    assert(rest.contains(j as u64));
                    let k = choose|k: int| 0 <= k < rest.len() && rest[k] == j as u64;
                    assert(found[k + 1] == j as u64);
                }
            }
            assert forall|a: int, b: int| 0 <= a < b < found.len() implies found[a] < found[b] by {
                assert(found[b] == rest[b - 1]);
                if a > 0 {
                    assert(found[a] == rest[a - 1]);
                }
            }
        },
        _ => {},
    }
}

/// A query over consistent levels yields exactly the indices of the range
/// whose record of the bot level covers the bloom asked for, each once and
/// in strictly ascending order.
pub proof fn theorem_query_yields_the_matches(q: Query)
    requires
        consistent(q.stores),
        q.bloom.len() == 256,
    ensures
        forall|k: int|
            0 <= k < scan(q, start(q.from)).0.len() ==> is_match(
                q,
                (#[trigger] scan(q, start(q.from)).0[k]) as int,
            ),
        forall|j: int| is_match(q, j) ==> scan(q, start(q.from)).0.contains(j as u64),
        forall|a: int, b: int|
            0 <= a < b < scan(q, start(q.from)).0.len() ==> scan(q, start(q.from)).0[a] < scan(
                q,
                start(q.from),
            ).0[b],
{
    lemma_scan_finds_all(q, start(q.from));
}

/// A query for the bloom with no bit set yields every index of the range
/// that the bot level has a record for.
pub proof fn theorem_zero_bloom_matches_everything(q: Query)
    requires
        consistent(q.stores),
        q.bloom == zero_bytes(256),
    ensures
        forall|j: u64|
            q.from <= j <= q.to && j < q.stores.bot.len() ==> #[trigger] scan(
                q,
                start(q.from),
            ).0.contains(j),
{
    lemma_scan_finds_all(q, start(q.from));
    assert forall|j: u64| q.from <= j <= q.to && j < q.stores.bot.len() implies #[trigger] scan(
        q,
        start(q.from),
    ).0.contains(j) by {
        lemma_covers_zero(q.stores.bot[j as int], 256);
        assert(is_match(q, j as int));
    }
}

/// Over consistent levels that hold the whole range, no run ends for want
/// of a record.
pub proof fn lemma_run_within_levels(q: Query, w: Walk)
    requires
        consistent(q.stores),
        aligned(w),
        q.to < q.stores.bot.len(),
    ensures
        !(run(q, w).1 is Exhausted),
        aligned(run(q, w).0),
    decreases fuel(q, w),
{
    if w.index <= q.to {
        assert(summarised(q.stores, w.index));
        match step(q, w) {
            Step::Move(next) => {
                lemma_run_within_levels(q, next);
            },
            _ => {},
        }
    }
}

/// Over consistent levels that hold the whole range, a scan ends without
/// error.
pub proof fn theorem_scan_within_levels(q: Query, w: Walk)
    requires
        consistent(q.stores),
        aligned(w),
        q.to < q.stores.bot.len(),
    ensures
        !scan(q, w).1,
    decreases q.to + 1 - w.index,
{
    lemma_run_advances(q, w);
    lemma_run_within_levels(q, w);
    let (next, outcome) = run(q, w);
    match outcome {
        Outcome::Match(index) => {
            theorem_scan_within_levels(q, next);
        },
        _ => {},
    }
}

/// Whatever the levels hold, a scan yields no more indices than lie between
/// the index it starts from, or the start of the range if that comes later,
/// and the end of the range.
pub proof fn lemma_scan_length(q: Query, w: Walk)
    requires
        0 <= w.index,
    ensures
        w.index <= q.to && q.from <= q.to ==> scan(q, w).0.len() <= q.to + 1 - if w.index
            >= q.from {
            w.index
        } else {
            q.from as int
        },
        w.index > q.to || q.from > q.to ==> scan(q, w).0.len() == 0,
    decreases q.to + 1 - w.index,
{
    lemma_run_advances(q, w);
    lemma_run_in_range(q, w);
    let (next, outcome) = run(q, w);
    match outcome {
        Outcome::Match(index) => {
            lemma_scan_length(q, next);
        },
        _ => {},
    }
}

/// A run yields no index before the start of the range.
pub proof fn lemma_run_in_range(q: Query, w: Walk)
    ensures
        run(q, w).1 is Match ==> q.from <= run(q, w).1->Match_0,
    decreases fuel(q, w),
{
    if w.index <= q.to {
        match step(q, w) {
            Step::Move(next) => {
                lemma_run_in_range(q, next);
            },
            _ => {},
        }
    }
}

/// A query for a single index yields at most one index, whatever the levels
/// hold.
pub proof fn theorem_single_index_range(q: Query)
    requires
        q.from == q.to,
    ensures
        scan(q, start(q.from)).0.len() <= 1,
{
    lemma_scan_length(q, start(q.from));
}

} // verus!
