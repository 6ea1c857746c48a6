//! Laws of the cache: what it finds, what it keeps in which order, and what leaves first.

use vstd::prelude::*;

use crate::cache::{Entry, Queues, GHOST_LIMIT};
use crate::cache;

verus! {

/// Whether a range has a block.
pub open spec fn has_block(e: Entry, b: int) -> bool {
    e.start <= b < e.start + e.num
}

/// A range covers blocks where it has each of them, and two ranges overlap where they have a
/// block in common.
pub proof fn ranges_are_sets_of_blocks(e: Entry, start: u64, num: usize)
    requires
        num > 0,
        e.num > 0,
    ensures
        cache::covers(e, start, num) <==> (forall|b: int|
            start <= b < start + num ==> #[trigger] has_block(e, b)),
        cache::overlap(start, num, e.start, e.num) <==> (exists|b: int|
            start <= b < start + num && #[trigger] has_block(e, b)),
{
    let last = start + num - 1;
    if forall|b: int| start <= b < start + num ==> #[trigger] has_block(e, b) {
        assert(has_block(e, start as int));
        assert(has_block(e, last));
    }
    if cache::overlap(start, num, e.start, e.num) {
        let b = if start < e.start { e.start as int } else { start as int };
        assert(has_block(e, b));
    }
}

/// Whether ranges are the same, but for one that has moved to the front.
pub open spec fn moved_to_front(after: Seq<Entry>, before: Seq<Entry>, i: int) -> bool {
    &&& 0 <= i < before.len()
    &&& after.len() == before.len()
    &&& after[0] == before[i]
    &&& forall|j: int| 0 <= j < i ==> #[trigger] after[j + 1] == before[j]
    &&& forall|j: int| i < j < before.len() ==> #[trigger] after[j] == before[j]
}

proof fn lemma_moved(before: Seq<Entry>, i: int)
    requires
        0 <= i < before.len(),
    ensures
        moved_to_front(seq![before[i]] + before.remove(i), before, i),
{
    let after = seq![before[i]] + before.remove(i);
    assert forall|j: int| 0 <= j < i implies #[trigger] after[j + 1] == before[j] by {
        assert(after[j + 1] == before.remove(i)[j]);
    }
    assert forall|j: int| i < j < before.len() implies #[trigger] after[j] == before[j] by {
        assert(after[j] == before.remove(i)[j - 1]);
    }
}

proof fn lemma_covering(entries: Seq<Entry>, start: u64, num: usize, from: int)
    requires
        0 <= from <= entries.len(),
    ensures
        match cache::covering(entries, start, num, from) {
            Some(i) => from <= i < entries.len() && cache::covers(entries[i], start, num) && (forall|
                j: int,
            |
                from <= j < i ==> !cache::covers(#[trigger] entries[j], start, num)),
            None => forall|j: int|
                from <= j < entries.len() ==> !cache::covers(#[trigger] entries[j], start, num),
        },
    decreases entries.len() - from,
{
    if from < entries.len() && !cache::covers(entries[from], start, num) {
        lemma_covering(entries, start, num, from + 1);
    }
}

/// Blocks are found where a range in the cache covers them, first among the ranges used
/// again. The range that is used moves to the front of its queue, and nothing else changes.
pub proof fn blocks_are_found_where_a_range_covers_them(c: Queues, start: u64, num: usize)
    ensures
        match cache::used(c, start, num) {
            Some((e, d)) => {
                &&& cache::covers(e, start, num)
                &&& d.a1_out == c.a1_out
                &&& (exists|i: int| #[trigger] moved_to_front(d.am, c.am, i) && c.am[i] == e && d.a1_in
                    == c.a1_in) || (exists|i: int| #[trigger] moved_to_front(d.a1_in, c.a1_in, i)
                    && c.a1_in[i] == e && d.am == c.am && (forall|j: int|
                    0 <= j < c.am.len() ==> !cache::covers(#[trigger] c.am[j], start, num)))
            },
            None => {
                &&& forall|j: int| 0 <= j < c.am.len() ==> !cache::covers(#[trigger] c.am[j], start, num)
                &&& forall|j: int|
                    0 <= j < c.a1_in.len() ==> !cache::covers(#[trigger] c.a1_in[j], start, num)
            },
        },
{
    lemma_covering(c.am, start, num, 0);
    lemma_covering(c.a1_in, start, num, 0);
    match cache::covering(c.am, start, num, 0) {
        Some(i) => {
            lemma_moved(c.am, i);
            let d = cache::used(c, start, num)->Some_0.1;
            assert(moved_to_front(d.am, c.am, i));
        },
        None => {
            match cache::covering(c.a1_in, start, num, 0) {
                Some(i) => {
                    lemma_moved(c.a1_in, i);
                    let d = cache::used(c, start, num)->Some_0.1;
                    assert(moved_to_front(d.a1_in, c.a1_in, i));
                },
                None => {},
            }
        },
    }
}

proof fn lemma_remembered(out: Seq<(u64, usize)>, start: u64, num: usize, from: int)
    requires
        0 <= from <= out.len(),
    ensures
        match cache::remembered(out, start, num, from) {
            Some(i) => from <= i < out.len() && cache::overlap(start, num, out[i].0, out[i].1) && (
            forall|j: int|
                from <= j < i ==> !cache::overlap(start, num, (#[trigger] out[j]).0, out[j].1)),
            None => forall|j: int|
                from <= j < out.len() ==> !cache::overlap(start, num, (#[trigger] out[j]).0, out[j].1),
        },
    decreases out.len() - from,
{
    if from < out.len() && !cache::overlap(start, num, out[from].0, out[from].1) {
        lemma_remembered(out, start, num, from + 1);
    }
}

/// Where there is room, a new range stands in front of those used once, and nothing leaves.
/// Where it shares blocks with a range that is remembered, it stands in front of those used
/// again, and the first such range is forgotten.
pub proof fn a_new_range_stands_in_front(c: Queues, e: Entry, limit: nat, a1_in_limit: nat)
    requires
        c.size() + e.data.len() <= limit,
    ensures
        ({
            let d = cache::inserted(c, e, limit, a1_in_limit);
            if exists|j: int|
                0 <= j < c.a1_out.len() && cache::overlap(
                    e.start,
                    e.num,
                    (#[trigger] c.a1_out[j]).0,
                    c.a1_out[j].1,
                ) {
                &&& d.am == seq![e] + c.am
                &&& d.a1_in == c.a1_in
                &&& exists|i: int|
                    0 <= i < c.a1_out.len() && d.a1_out == #[trigger] c.a1_out.remove(i) && cache::overlap(
                        e.start,
                        e.num,
                        c.a1_out[i].0,
                        c.a1_out[i].1,
                    )
            } else {
                &&& d.am == c.am
                &&& d.a1_in == seq![e] + c.a1_in
                &&& d.a1_out == c.a1_out
            }
        }),
{
    lemma_remembered(c.a1_out, e.start, e.num, 0);
    lemma_total_front(e, c.am);
    lemma_total_front(e, c.a1_in);
}

/// A range that is not larger than the cache stands in front of its queue, and then the cache
/// shrinks to its limit. A larger one changes nothing.
pub proof fn a_range_is_put_in_front_before_others_leave(
    c: Queues,
    e: Entry,
    limit: nat,
    a1_in_limit: nat,
)
    ensures
        e.data.len() > limit ==> cache::inserted(c, e, limit, a1_in_limit) == c,
        e.data.len() <= limit && (forall|j: int|
            0 <= j < c.a1_out.len() ==> !cache::overlap(
                e.start,
                e.num,
                (#[trigger] c.a1_out[j]).0,
                c.a1_out[j].1,
            )) ==> cache::inserted(c, e, limit, a1_in_limit) == cache::shrunk(
            Queues { am: c.am, a1_in: seq![e] + c.a1_in, a1_out: c.a1_out },
            limit,
            a1_in_limit,
        ),
        e.data.len() <= limit && (exists|j: int|
            0 <= j < c.a1_out.len() && cache::overlap(
                e.start,
                e.num,
                (#[trigger] c.a1_out[j]).0,
                c.a1_out[j].1,
            )) ==> exists|i: int|
            {
                &&& 0 <= i < c.a1_out.len()
                &&& cache::overlap(e.start, e.num, (#[trigger] c.a1_out[i]).0, c.a1_out[i].1)
                &&& forall|j: int|
                    0 <= j < i ==> !cache::overlap(
                        e.start,
                        e.num,
                        (#[trigger] c.a1_out[j]).0,
                        c.a1_out[j].1,
                    )
                &&& cache::inserted(c, e, limit, a1_in_limit) == cache::shrunk(
                    Queues { am: seq![e] + c.am, a1_in: c.a1_in, a1_out: c.a1_out.remove(i) },
                    limit,
                    a1_in_limit,
                )
            },
{
    lemma_remembered(c.a1_out, e.start, e.num, 0);
}

proof fn lemma_total_front(e: Entry, entries: Seq<Entry>)
    ensures
        cache::total_bytes(seq![e] + entries) == e.data.len() + cache::total_bytes(entries),
    decreases entries.len(),
{
    let all = seq![e] + entries;
    if entries.len() == 0 {
        assert(all.drop_last() =~= Seq::empty());
        assert(cache::total_bytes(Seq::empty()) == 0);
        assert(entries =~= Seq::empty());
    } else {
        assert(all.drop_last() =~= seq![e] + entries.drop_last());
        lemma_total_front(e, entries.drop_last());
    }
}

/// The size of the cache is the sum of the bytes of its ranges: one more range adds its own.
pub proof fn each_range_counts_its_bytes(e: Entry, c: Queues)
    ensures
        (Queues { am: Seq::empty(), a1_in: Seq::empty(), a1_out: c.a1_out }).size() == 0,
        (Queues { am: seq![e] + c.am, ..c }).size() == c.size() + e.data.len(),
        (Queues { a1_in: seq![e] + c.a1_in, ..c }).size() == c.size() + e.data.len(),
{
    lemma_total_front(e, c.am);
    lemma_total_front(e, c.a1_in);
}

proof fn lemma_total_prefix(entries: Seq<Entry>, n: int)
    requires
        0 <= n <= entries.len(),
    ensures
        cache::total_bytes(entries.take(n)) <= cache::total_bytes(entries),
    decreases entries.len() - n,
{
    if n == entries.len() {
        assert(entries.take(n) =~= entries);
    } else {
        lemma_total_prefix(entries, n + 1);
        assert(entries.take(n + 1).drop_last() =~= entries.take(n));
    }
}

/// To make room, the ranges used once leave from the back, and each that leaves is
/// remembered in front. A range used again leaves only once the ranges used once take no more
/// than their share, or are none. Nothing leaves where there is room.
pub proof fn what_was_used_once_and_longest_ago_leaves_first(
    c: Queues,
    limit: nat,
    a1_in_limit: nat,
)
    ensures
        ({
            let d = cache::shrunk(c, limit, a1_in_limit);
            &&& c.size() <= limit ==> d == c
            &&& d.a1_in.len() <= c.a1_in.len()
            &&& d.a1_in == c.a1_in.take(d.a1_in.len() as int)
            &&& d.am != c.am ==> cache::total_bytes(d.a1_in) <= a1_in_limit
            &&& d.am.len() <= c.am.len()
            &&& d.am.to_multiset().subset_of(c.am.to_multiset())
            &&& d.a1_in == c.a1_in ==> d.a1_out == c.a1_out
            &&& c.a1_in.len() > d.a1_in.len() && c.a1_out.len() <= GHOST_LIMIT ==> {
                &&& d.a1_out.len() > 0
                &&& d.a1_out[0] == (
                    c.a1_in[d.a1_in.len() as int].start,
                    c.a1_in[d.a1_in.len() as int].num,
                )
            }
        }),
    decreases c.am.len() + c.a1_in.len(),
{
    broadcast use vstd::seq_lib::group_to_multiset_ensures;

    assert(c.a1_in.take(c.a1_in.len() as int) =~= c.a1_in);
    if c.size() <= limit || (c.am.len() == 0 && c.a1_in.len() == 0) {
    } else if cache::total_bytes(c.a1_in) > a1_in_limit || c.am.len() == 0 {
        if c.a1_in.len() > 0 {
            let next = Queues {
                am: c.am,
                a1_in: c.a1_in.drop_last(),
                a1_out: cache::remembering(c.a1_out, c.a1_in.last()),
            };
            what_was_used_once_and_longest_ago_leaves_first(next, limit, a1_in_limit);
            let d = cache::shrunk(next, limit, a1_in_limit);
            let n = d.a1_in.len() as int;
            assert(next.a1_in.take(n) =~= c.a1_in.take(n));
            if n < next.a1_in.len() {
                assert(next.a1_in[n] == c.a1_in[n]);
            }
        }
    } else {
        let i = cache::last_largest(c.am);
        if 0 <= i < c.am.len() {
            let next = Queues { am: c.am.remove(i), a1_in: c.a1_in, a1_out: c.a1_out };
            what_was_used_once_and_longest_ago_leaves_first(next, limit, a1_in_limit);
            let d = cache::shrunk(next, limit, a1_in_limit);
            lemma_total_prefix(c.a1_in, d.a1_in.len() as int);
            assert(next.am.to_multiset() =~= c.am.to_multiset().remove(c.am[i]));
        }
    }
}

/// Of the ranges used again the largest leaves, and of several largest the one used longest
/// ago.
pub proof fn the_largest_range_leaves(entries: Seq<Entry>, j: int)
    requires
        0 <= j < entries.len(),
    ensures
        0 <= cache::last_largest(entries) < entries.len(),
        entries[j].data.len() <= entries[cache::last_largest(entries)].data.len(),
        j > cache::last_largest(entries) ==> entries[j].data.len()
            < entries[cache::last_largest(entries)].data.len(),
    decreases entries.len(),
{
    if entries.len() > 1 {
        let before = entries.drop_last();
        the_largest_range_leaves(before, if j < before.len() { j } else { 0 });
        assert(j < before.len() ==> before[j] == entries[j]);
    }
}

/// Without the blocks from one on, the ranges that start before it are left, in their order,
/// and are remembered as before.
pub proof fn ranges_before_a_block_are_retained(c: Queues, base: u64, e: Entry, r: (u64, usize))
    ensures
        cache::retained(c, base).am.contains(e) <==> c.am.contains(e) && e.start < base,
        cache::retained(c, base).a1_in.contains(e) <==> c.a1_in.contains(e) && e.start < base,
        cache::retained(c, base).a1_out.contains(r) <==> c.a1_out.contains(r) && r.0 < base,
{
    let p = |x: Entry| x.start < base;
    let q = |x: (u64, usize)| x.0 < base;
    lemma_filtered(c.am, p, e);
    lemma_filtered(c.a1_in, p, e);
    lemma_filtered(c.a1_out, q, r);
}

proof fn lemma_filtered<A>(s: Seq<A>, p: spec_fn(A) -> bool, a: A)
    ensures
        s.filter(p).contains(a) <==> s.contains(a) && p(a),
    decreases s.len(),
{
    reveal(Seq::filter);
    if s.len() > 0 {
        let before = s.drop_last();
        lemma_filtered(before, p, a);
        assert(s =~= before.push(s.last()));
        assert(s.contains(a) <==> before.contains(a) || a == s.last()) by {
            if before.contains(a) {
                let i = choose|i: int| 0 <= i < before.len() && before[i] == a;
                assert(s[i] == a);
            }
            if a == s.last() {
                assert(s[s.len() - 1] == a);
            }
        }
        let some = before.filter(p);
        if p(s.last()) {
            let all = some.push(s.last());
            assert(s.filter(p) == all);
            assert(all.contains(a) <==> some.contains(a) || a == s.last()) by {
                if some.contains(a) {
                    let i = choose|i: int| 0 <= i < some.len() && some[i] == a;
                    assert(all[i] == a);
                }
                if a == s.last() {
                    assert(all[some.len() as int] == a);
                }
            }
        }
    }
}

proof fn lemma_exact(entries: Seq<Entry>, start: u64, num: usize, from: int)
    requires
        0 <= from <= entries.len(),
    ensures
        match cache::exact(entries, start, num, from) {
            Some(i) => from <= i < entries.len() && entries[i].start == start && entries[i].num == num,
            None => forall|j: int|
                from <= j < entries.len() ==> (#[trigger] entries[j]).start != start || entries[j].num
                    != num,
        },
    decreases entries.len() - from,
{
    if from < entries.len() && !(entries[from].start == start && entries[from].num == num) {
        lemma_exact(entries, start, num, from + 1);
    }
}

/// One range of exactly these blocks leaves, of those used again if there is one among them,
/// and otherwise of those used once. Where there is none, nothing changes.
pub proof fn one_range_of_exactly_these_blocks_leaves(c: Queues, start: u64, num: usize)
    ensures
        ({
            let d = cache::without_exact(c, start, num);
            let again = exists|j: int|
                0 <= j < c.am.len() && (#[trigger] c.am[j]).start == start && c.am[j].num == num;
            let once = exists|j: int|
                0 <= j < c.a1_in.len() && (#[trigger] c.a1_in[j]).start == start && c.a1_in[j].num
                    == num;
            &&& d.a1_out == c.a1_out
            &&& again ==> d.a1_in == c.a1_in && (exists|i: int|
                0 <= i < c.am.len() && d.am == #[trigger] c.am.remove(i) && c.am[i].start == start
                    && c.am[i].num == num)
            &&& !again && once ==> d.am == c.am && (exists|i: int|
                0 <= i < c.a1_in.len() && d.a1_in == #[trigger] c.a1_in.remove(i) && c.a1_in[i].start
                    == start && c.a1_in[i].num == num)
            &&& !again && !once ==> d == c
        }),
{
    lemma_exact(c.am, start, num, 0);
    lemma_exact(c.a1_in, start, num, 0);
}

/// A range used once leaves only where those used once take more than their share, unless no range
/// used again is left.
pub proof fn ranges_used_once_keep_their_share(c: Queues, limit: nat, a1_in_limit: nat)
    ensures
        ({
            let d = cache::shrunk(c, limit, a1_in_limit);
            d.a1_in.len() < c.a1_in.len() && d.am.len() > 0 ==> cache::total_bytes(
                c.a1_in.take(d.a1_in.len() as int + 1),
            ) > a1_in_limit
        }),
    decreases c.am.len() + c.a1_in.len(),
{
    what_was_used_once_and_longest_ago_leaves_first(c, limit, a1_in_limit);
    if c.size() <= limit || (c.am.len() == 0 && c.a1_in.len() == 0) {
    } else if cache::total_bytes(c.a1_in) > a1_in_limit || c.am.len() == 0 {
        if c.a1_in.len() > 0 {
            let next = Queues {
                am: c.am,
                a1_in: c.a1_in.drop_last(),
                a1_out: cache::remembering(c.a1_out, c.a1_in.last()),
            };
            ranges_used_once_keep_their_share(next, limit, a1_in_limit);
            what_was_used_once_and_longest_ago_leaves_first(next, limit, a1_in_limit);
            let d = cache::shrunk(next, limit, a1_in_limit);
            let n = d.a1_in.len() as int;
            if n < next.a1_in.len() {
                assert(next.a1_in.take(n + 1) =~= c.a1_in.take(n + 1));
            } else {
                assert(c.a1_in.take(n + 1) =~= c.a1_in);
            }
        }
    } else {
        let i = cache::last_largest(c.am);
        if 0 <= i < c.am.len() {
            ranges_used_once_keep_their_share(
                Queues { am: c.am.remove(i), a1_in: c.a1_in, a1_out: c.a1_out },
                limit,
                a1_in_limit,
            );
        }
    }
}

proof fn lemma_total_remove(entries: Seq<Entry>, i: int)
    requires
        0 <= i < entries.len(),
    ensures
        cache::total_bytes(entries.remove(i)) + entries[i].data.len() == cache::total_bytes(entries),
    decreases entries.len(),
{
    if i == entries.len() - 1 {
        assert(entries.remove(i) =~= entries.drop_last());
    } else {
        lemma_total_remove(entries.drop_last(), i);
        assert(entries.remove(i).drop_last() =~= entries.drop_last().remove(i));
        assert(entries.remove(i).last() == entries.last());
    }
}

/// No more leaves than has to: where a range has left, the one that left last would not have had
/// room beside what stays.
pub proof fn nothing_leaves_that_has_room(c: Queues, limit: nat, a1_in_limit: nat) -> (last: Entry)
    ensures
        ({
            let d = cache::shrunk(c, limit, a1_in_limit);
            d.am == c.am && d.a1_in == c.a1_in || d.size() + last.data.len() > limit && (
            c.am.contains(last) || c.a1_in.contains(last))
        }),
    decreases c.am.len() + c.a1_in.len(),
{
    let d = cache::shrunk(c, limit, a1_in_limit);
    if c.size() <= limit || (c.am.len() == 0 && c.a1_in.len() == 0) {
        Entry { start: 0, num: 0, data: Seq::empty() }
    } else if cache::total_bytes(c.a1_in) > a1_in_limit || c.am.len() == 0 {
        if c.a1_in.len() > 0 {
            let next = Queues {
                am: c.am,
                a1_in: c.a1_in.drop_last(),
                a1_out: cache::remembering(c.a1_out, c.a1_in.last()),
            };
            let x = nothing_leaves_that_has_room(next, limit, a1_in_limit);
            assert(c.a1_in[c.a1_in.len() - 1] == c.a1_in.last());
            if d.am == next.am && d.a1_in == next.a1_in {
                c.a1_in.last()
            } else {
                if next.a1_in.contains(x) {
                    let i = choose|i: int| 0 <= i < next.a1_in.len() && next.a1_in[i] == x;
                    assert(c.a1_in[i] == x);
                }
                x
            }
        } else {
            Entry { start: 0, num: 0, data: Seq::empty() }
        }
    } else {
        let i = cache::last_largest(c.am);
        if 0 <= i < c.am.len() {
            let next = Queues { am: c.am.remove(i), a1_in: c.a1_in, a1_out: c.a1_out };
            let x = nothing_leaves_that_has_room(next, limit, a1_in_limit);
            lemma_total_remove(c.am, i);
            if d.am == next.am && d.a1_in == next.a1_in {
                c.am[i]
            } else {
                if next.am.contains(x) {
                    let k = choose|k: int| 0 <= k < next.am.len() && next.am[k] == x;
                    if k < i {
                        assert(c.am[k] == x);
                    } else {
                        assert(c.am[k + 1] == x);
                    }
                }
                x
            }
        } else {
            Entry { start: 0, num: 0, data: Seq::empty() }
        }
    }
}

} // verus!
