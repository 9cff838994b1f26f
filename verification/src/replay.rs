//! What a flush does to the three levels, entry by entry.

use crate::bloom::{
    covers, lemma_covers_itself, lemma_covers_transitive, lemma_covers_zero, lemma_union_covers,
    union_bytes, zero_bytes,
};
use crate::file::{accrued, extended, fits, replaced};
use crate::matching::{consistent, summarised};
use crate::scan::Stores;
use vstd::prelude::*;

verus! {

/// The levels after one entry was applied: the bloom is accrued into the
/// record of the top and of the mid level that summarises `index`, and
/// replaces the record of the bot level at `index`.
pub open spec fn apply(s: Stores, index: u64, bloom: Seq<u8>) -> Stores {
    Stores {
        top: accrued(s.top, index as int / 256, bloom),
        mid: accrued(s.mid, index as int / 16, bloom),
        bot: replaced(s.bot, index as int, bloom),
    }
}

/// The levels after the entries were applied in order.
pub open spec fn replay(s: Stores, entries: Seq<(u64, Seq<u8>)>) -> Stores
    decreases entries.len(),
{
    if entries.len() == 0 {
        s
    } else {
        apply(replay(s, entries.drop_last()), entries.last().0, entries.last().1)
    }
}

/// Every entry has an index that the bot level can hold.
pub open spec fn all_fit(entries: Seq<(u64, Seq<u8>)>) -> bool {
    forall|k: int| 0 <= k < entries.len() ==> fits(#[trigger] entries[k].0)
}

/// Every entry holds a whole bloom.
pub open spec fn whole(entries: Seq<(u64, Seq<u8>)>) -> bool {
    forall|k: int| 0 <= k < entries.len() ==> (#[trigger] entries[k]).1.len() == 256
}

/// After an entry was applied the upper levels still summarise the bot
/// level.
pub proof fn lemma_apply_keeps_consistent(s: Stores, index: u64, bloom: Seq<u8>)
    requires
        consistent(s),
        bloom.len() == 256,
    ensures
        consistent(apply(s, index, bloom)),
{
    let after = apply(s, index, bloom);
    let top = extended(s.top, (index as int / 256 + 1) as nat);
    let mid = extended(s.mid, (index as int / 16 + 1) as nat);
    let bot = extended(s.bot, (index as int + 1) as nat);
    assert forall|i: int| 0 <= i < after.top.len() implies (#[trigger] after.top[i]).len()
        == 256 by {
        if i < s.top.len() {
            assert(s.top[i].len() == 256);
        }
    }
    assert forall|i: int| 0 <= i < after.mid.len() implies (#[trigger] after.mid[i]).len()
        == 256 by {
        if i < s.mid.len() {
            assert(s.mid[i].len() == 256);
        }
    }
    assert forall|i: int| 0 <= i < after.bot.len() implies (#[trigger] after.bot[i]).len()
        == 256 by {
        if i < s.bot.len() {
            assert(s.bot[i].len() == 256);
        }
    }
    assert forall|i: int| 0 <= i < after.bot.len() implies #[trigger] summarised(after, i) by {
        let t = i / 256;
        let m = i / 16;
        if i < s.bot.len() {
            assert(summarised(s, i));
            assert(s.bot[i].len() == 256);
            assert(s.top[t].len() == 256);
            assert(s.mid[m].len() == 256);
        }
        assert(top[t].len() == 256);
        assert(mid[m].len() == 256);
        lemma_union_covers(top[t], bloom, bot[i]);
        lemma_union_covers(mid[m], bloom, bot[i]);
        if i != index && i >= s.bot.len() {
            assert(after.bot[i] == zero_bytes(256));
            lemma_covers_zero(after.top[t], 256);
            lemma_covers_zero(after.mid[m], 256);
        }
    }
}

/// After a replay of whole entries the upper levels still summarise the bot
/// level.
pub proof fn lemma_replay_keeps_consistent(s: Stores, entries: Seq<(u64, Seq<u8>)>)
    requires
        consistent(s),
        whole(entries),
    ensures
        consistent(replay(s, entries)),
    decreases entries.len(),
{
    if entries.len() > 0 {
        let head = entries.drop_last();
        assert forall|k: int| 0 <= k < head.len() implies (#[trigger] head[k]).1.len() == 256 by {
            assert(head[k] == entries[k]);
        }
        lemma_replay_keeps_consistent(s, head);
        lemma_apply_keeps_consistent(replay(s, head), entries.last().0, entries.last().1);
    }
}

/// Accruing never clears a bit: after it, every record that the level had
/// covers what it held before, and has the length it had.
pub proof fn lemma_accrued_keeps_bits(records: Seq<Seq<u8>>, pos: int, bloom: Seq<u8>)
    requires
        0 <= pos,
    ensures
        records.len() <= accrued(records, pos, bloom).len(),
        forall|p: int|
            0 <= p < records.len() ==> {
                &&& (#[trigger] accrued(records, pos, bloom)[p]).len() == records[p].len()
                &&& covers(accrued(records, pos, bloom)[p], records[p])
            },
{
    let after = accrued(records, pos, bloom);
    assert forall|p: int| 0 <= p < records.len() implies {
        &&& (#[trigger] after[p]).len() == records[p].len()
        &&& covers(after[p], records[p])
    } by {
        assert forall|i: int| 0 <= i < records[p].len() implies after[p][i]
            & #[trigger] records[p][i] == records[p][i] by {
            let x: u8 = records[p][i];
            let y: u8 = bloom[i];
            assert(x & x == x) by (bit_vector);
            assert((x | y) & x == x) by (bit_vector);
        }
    }
}

/// A replay never clears a bit of the upper levels: every record that the
/// top or the mid level had covers, after the replay, what it held before.
pub proof fn theorem_replay_keeps_bits(s: Stores, entries: Seq<(u64, Seq<u8>)>)
    ensures
        s.top.len() <= replay(s, entries).top.len(),
        s.mid.len() <= replay(s, entries).mid.len(),
        forall|p: int|
            0 <= p < s.top.len() ==> {
                &&& (#[trigger] replay(s, entries).top[p]).len() == s.top[p].len()
                &&& covers(replay(s, entries).top[p], s.top[p])
            },
        forall|p: int|
            0 <= p < s.mid.len() ==> {
                &&& (#[trigger] replay(s, entries).mid[p]).len() == s.mid[p].len()
                &&& covers(replay(s, entries).mid[p], s.mid[p])
            },
    decreases entries.len(),
{
    let after = replay(s, entries);
    if entries.len() > 0 {
        let before = replay(s, entries.drop_last());
        let index = entries.last().0;
        let bloom = entries.last().1;
        theorem_replay_keeps_bits(s, entries.drop_last());
        lemma_accrued_keeps_bits(before.top, index as int / 256, bloom);
        lemma_accrued_keeps_bits(before.mid, index as int / 16, bloom);
        assert forall|p: int| 0 <= p < s.top.len() implies {
            &&& (#[trigger] after.top[p]).len() == s.top[p].len()
            &&& covers(after.top[p], s.top[p])
        } by {
            assert(before.top[p].len() == s.top[p].len());
            assert(accrued(before.top, index as int / 256, bloom)[p].len() == before.top[p].len());
            lemma_covers_transitive(after.top[p], before.top[p], s.top[p]);
        }
        assert forall|p: int| 0 <= p < s.mid.len() implies {
            &&& (#[trigger] after.mid[p]).len() == s.mid[p].len()
            &&& covers(after.mid[p], s.mid[p])
        } by {
            assert(before.mid[p].len() == s.mid[p].len());
            assert(accrued(before.mid, index as int / 16, bloom)[p].len() == before.mid[p].len());
            lemma_covers_transitive(after.mid[p], before.mid[p], s.mid[p]);
        }
    } else {
        assert forall|p: int| 0 <= p < s.top.len() implies covers(
            #[trigger] after.top[p],
            s.top[p],
        ) by {
            lemma_covers_itself(s.top[p]);
        }
        assert forall|p: int| 0 <= p < s.mid.len() implies covers(
            #[trigger] after.mid[p],
            s.mid[p],
        ) by {
            lemma_covers_itself(s.mid[p]);
        }
    }
}

/// One level after each entry was accrued at its index divided by `span`.
pub open spec fn accrue_all(records: Seq<Seq<u8>>, entries: Seq<(u64, Seq<u8>)>, span: int) -> Seq<
    Seq<u8>,
>
    decreases entries.len(),
{
    if entries.len() == 0 {
        records
    } else {
        accrued(
            accrue_all(records, entries.drop_last(), span),
            entries.last().0 as int / span,
            entries.last().1,
        )
    }
}

/// One level after each entry replaced the record at its index.
pub open spec fn replace_all(records: Seq<Seq<u8>>, entries: Seq<(u64, Seq<u8>)>) -> Seq<Seq<u8>>
    decreases entries.len(),
{
    if entries.len() == 0 {
        records
    } else {
        replaced(
            replace_all(records, entries.drop_last()),
            entries.last().0 as int,
            entries.last().1,
        )
    }
}

/// A replay works on each level by itself.
pub proof fn lemma_replay_by_level(s: Stores, entries: Seq<(u64, Seq<u8>)>)
    ensures
        replay(s, entries) == (Stores {
            top: accrue_all(s.top, entries, 256),
            mid: accrue_all(s.mid, entries, 16),
            bot: replace_all(s.bot, entries),
        }),
    decreases entries.len(),
{
    if entries.len() > 0 {
        lemma_replay_by_level(s, entries.drop_last());
    }
}

/// The level has a record for every entry, and accruing the entry into it
/// would change nothing.
pub open spec fn absorbs(records: Seq<Seq<u8>>, entries: Seq<(u64, Seq<u8>)>, span: int) -> bool {
    forall|k: int|
        0 <= k < entries.len() ==> {
            &&& (#[trigger] entries[k]).0 as int / span < records.len()
            &&& union_bytes(records[entries[k].0 as int / span], entries[k].1)
                == records[entries[k].0 as int / span]
        }
}

/// Accruing entries into a level that absorbs them changes nothing.
pub proof fn lemma_absorbed_entries_change_nothing(
    records: Seq<Seq<u8>>,
    entries: Seq<(u64, Seq<u8>)>,
    span: int,
)
    requires
        span > 0,
        absorbs(records, entries, span),
    ensures
        accrue_all(records, entries, span) == records,
    decreases entries.len(),
{
    if entries.len() > 0 {
        let head = entries.drop_last();
        assert forall|k: int| 0 <= k < head.len() implies {
            &&& (#[trigger] head[k]).0 as int / span < records.len()
            &&& union_bytes(records[head[k].0 as int / span], head[k].1)
                == records[head[k].0 as int / span]
        } by {
            assert(head[k] == entries[k]);
        }
        lemma_absorbed_entries_change_nothing(records, head, span);
        let last = entries[entries.len() - 1];
        let pos = last.0 as int / span;
        assert(0 <= pos) by (nonlinear_arith)
            requires
                span > 0,
                pos == last.0 as int / span,
                last.0 >= 0,
        ;
        assert(accrued(records, pos, last.1) =~= records);
    }
}

/// A level absorbs the entries that were accrued into it.
pub proof fn lemma_accrued_entries_are_absorbed(
    records: Seq<Seq<u8>>,
    entries: Seq<(u64, Seq<u8>)>,
    span: int,
)
    requires
        span > 0,
    ensures
        absorbs(accrue_all(records, entries, span), entries, span),
    decreases entries.len(),
{
    if entries.len() > 0 {
        let head = entries.drop_last();
        lemma_accrued_entries_are_absorbed(records, head, span);
        let before = accrue_all(records, head, span);
        let after = accrue_all(records, entries, span);
        let last = entries[entries.len() - 1];
        let pos = last.0 as int / span;
        assert(0 <= pos) by (nonlinear_arith)
            requires
                span > 0,
                pos == last.0 as int / span,
                last.0 >= 0,
        ;
        let grown = extended(before, (pos + 1) as nat);
        assert(after == grown.update(pos, union_bytes(grown[pos], last.1)));
        assert forall|k: int| 0 <= k < entries.len() implies {
            &&& (#[trigger] entries[k]).0 as int / span < after.len()
            &&& union_bytes(after[entries[k].0 as int / span], entries[k].1)
                == after[entries[k].0 as int / span]
        } by {
            let at = entries[k].0 as int / span;
            assert(0 <= at) by (nonlinear_arith)
                requires
                    span > 0,
                    at == entries[k].0 as int / span,
                    entries[k].0 >= 0,
            ;
            if k < head.len() {
                assert(head[k] == entries[k]);
                assert(union_bytes(before[at], entries[k].1) == before[at]);
                if at == pos {
                    lemma_union_keeps_absorbed(before[at], last.1, entries[k].1);
                }
            } else {
                lemma_union_absorbs(grown[pos], last.1);
            }
        }
    }
}

/// What was accrued into a bloom is absorbed by it.
pub proof fn lemma_union_absorbs(a: Seq<u8>, b: Seq<u8>)
    ensures
        union_bytes(union_bytes(a, b), b) == union_bytes(a, b),
{
    assert forall|i: int| 0 <= i < a.len() implies union_bytes(union_bytes(a, b), b)[i]
        == union_bytes(a, b)[i] by {
        let x: u8 = a[i];
        let y: u8 = b[i];
        assert((x | y) | y == x | y) by (bit_vector);
    }
    assert(union_bytes(union_bytes(a, b), b) =~= union_bytes(a, b));
}

/// What a bloom absorbed, it still absorbs after more was accrued into it.
pub proof fn lemma_union_keeps_absorbed(a: Seq<u8>, b: Seq<u8>, c: Seq<u8>)
    requires
        union_bytes(a, c) == a,
    ensures
        union_bytes(union_bytes(a, b), c) == union_bytes(a, b),
{
    assert forall|i: int| 0 <= i < a.len() implies union_bytes(union_bytes(a, b), c)[i]
        == union_bytes(a, b)[i] by {
        let x: u8 = a[i];
        let y: u8 = b[i];
        let z: u8 = c[i];
        assert(union_bytes(a, c)[i] == a[i]);
        assert(x | z == x);
        assert(x | z == x ==> (x | y) | z == x | y) by (bit_vector);
    }
    assert(union_bytes(union_bytes(a, b), c) =~= union_bytes(a, b));
}

/// After a replay the level has a record for every entry, and is no shorter
/// than before.
pub proof fn lemma_replace_all_len(records: Seq<Seq<u8>>, entries: Seq<(u64, Seq<u8>)>)
    ensures
        records.len() <= replace_all(records, entries).len(),
        forall|k: int|
            0 <= k < entries.len() ==> (#[trigger] entries[k]).0 < replace_all(
                records,
                entries,
            ).len(),
    decreases entries.len(),
{
    if entries.len() > 0 {
        let head = entries.drop_last();
        lemma_replace_all_len(records, head);
        assert forall|k: int| 0 <= k < entries.len() implies (#[trigger] entries[k]).0
            < replace_all(records, entries).len() by {
            if k < head.len() {
                assert(head[k] == entries[k]);
            }
        }
    }
}

/// After a replay the record at an index is the bloom of the last entry for
/// that index.
pub proof fn lemma_last_entry_stays(records: Seq<Seq<u8>>, entries: Seq<(u64, Seq<u8>)>, k: int)
    requires
        0 <= k < entries.len(),
        forall|l: int| k < l < entries.len() ==> (#[trigger] entries[l]).0 != entries[k].0,
    ensures
        entries[k].0 < replace_all(records, entries).len(),
        replace_all(records, entries)[entries[k].0 as int] == entries[k].1,
    decreases entries.len(),
{
    lemma_replace_all_len(records, entries);
    let head = entries.drop_last();
    if k < entries.len() - 1 {
        assert(head[k] == entries[k]);
        assert forall|l: int| k < l < head.len() implies (#[trigger] head[l]).0 != head[k].0 by {
            assert(head[l] == entries[l]);
        }
        lemma_last_entry_stays(records, head, k);
        assert(entries[entries.len() - 1].0 != entries[k].0);
    }
}

/// Replaying the first `n` entries once more leaves alone every record that
/// no later entry is for.
proof fn lemma_replace_again(records: Seq<Seq<u8>>, entries: Seq<(u64, Seq<u8>)>, n: int)
    requires
        0 <= n <= entries.len(),
    ensures
        replace_all(replace_all(records, entries), entries.take(n)).len() == replace_all(
            records,
            entries,
        ).len(),
        forall|i: int|
            0 <= i < replace_all(records, entries).len() && (forall|l: int|
                n <= l < entries.len() ==> (#[trigger] entries[l]).0 != i) ==> (
            #[trigger] replace_all(replace_all(records, entries), entries.take(n))[i])
                == replace_all(records, entries)[i],
    decreases n,
{
    let done = replace_all(records, entries);
    if n > 0 {
        lemma_replace_again(records, entries, n - 1);
        lemma_replace_all_len(records, entries);
        let before = replace_all(done, entries.take(n - 1));
        let after = replace_all(done, entries.take(n));
        let entry = entries[n - 1];
        assert(entries.take(n).drop_last() =~= entries.take(n - 1));
        assert(entries.take(n).last() == entry);
        assert(after == replaced(before, entry.0 as int, entry.1));
        assert forall|i: int|
            0 <= i < done.len() && (forall|l: int|
                n <= l < entries.len() ==> (#[trigger] entries[l]).0 != i) implies (
        #[trigger] after[i]) == done[i] by {
            if i == entry.0 {
                lemma_last_entry_stays(records, entries, n - 1);
            } else {
                assert forall|l: int| n - 1 <= l < entries.len() implies (#[trigger] entries[l]).0
                    != i by {}
                assert(before[i] == done[i]);
            }
        }
    } else {
        assert(entries.take(0) =~= Seq::<(u64, Seq<u8>)>::empty());
    }
}

/// A replay that was interrupted can be run again: where each level is
/// either as it was before the replay or as the replay leaves it, replaying
/// the same log gives the levels that the uninterrupted replay gives.
pub proof fn theorem_replay_after_interruption(
    s: Stores,
    entries: Seq<(u64, Seq<u8>)>,
    found: Stores,
)
    requires
        found.top == s.top || found.top == replay(s, entries).top,
        found.mid == s.mid || found.mid == replay(s, entries).mid,
        found.bot == s.bot || found.bot == replay(s, entries).bot,
    ensures
        replay(found, entries) == replay(s, entries),
{
    let once = replay(s, entries);
    lemma_replay_by_level(s, entries);
    lemma_replay_by_level(found, entries);
    if found.top != s.top {
        lemma_accrued_entries_are_absorbed(s.top, entries, 256);
        lemma_absorbed_entries_change_nothing(once.top, entries, 256);
    }
    if found.mid != s.mid {
        lemma_accrued_entries_are_absorbed(s.mid, entries, 16);
        lemma_absorbed_entries_change_nothing(once.mid, entries, 16);
    }
    if found.bot != s.bot {
        lemma_replace_again(s.bot, entries, entries.len() as int);
        assert(entries.take(entries.len() as int) =~= entries);
        assert(replace_all(once.bot, entries) =~= once.bot);
    }
}

/// Replaying a log a second time leaves the levels as the first replay left
/// them.
pub proof fn theorem_replay_twice(s: Stores, entries: Seq<(u64, Seq<u8>)>)
    ensures
        replay(replay(s, entries), entries) == replay(s, entries),
{
    theorem_replay_after_interruption(s, entries, replay(s, entries));
}

} // verus!
