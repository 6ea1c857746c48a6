//! Laws of memory: what the joins hold in memory stays within its limit.

use vstd::prelude::*;

use crate::disk::Disk;
use crate::ops::cross::Cross;
use crate::ops::cross;
use crate::ops::cross_output::Crossing;
use crate::ops::cross_output;
use crate::ops::hash_join::{Bucket, BucketRun, NUM_BUCKETS};
use crate::ops::hash_join;
use crate::ops::join_output::Probing;
use crate::ops::join_output;
use crate::ops::joiner::Join;
use crate::ops::joiner;
use crate::ops::sort_chunk::Chunk;
use crate::ops::sort_chunk;
use crate::ops::Act;
use crate::row;
use crate::value::Val;

verus! {

/// The right rows of a cross join in memory stay below their limit.
pub proof fn the_right_rows_stay_below_the_limit(c: Cross, r: Seq<Val>, d: Disk)
    requires
        c.limit > 0,
    ensures
        cross::with_right(c, r, d).0.right_bytes < c.limit,
{
}

/// The memory of a bucket, if its rows are held.
pub open spec fn bytes_of(b: Bucket) -> nat {
    if b.spilled {
        0
    } else {
        b.bytes as nat
    }
}

/// The memory of the buckets whose rows are held.
pub open spec fn held_bytes(buckets: Seq<Bucket>) -> nat
    decreases buckets.len(),
{
    if buckets.len() == 0 {
        0
    } else {
        held_bytes(buckets.drop_last()) + bytes_of(buckets.last())
    }
}

proof fn lemma_held_update(buckets: Seq<Bucket>, k: int, b: Bucket)
    requires
        0 <= k < buckets.len(),
    ensures
        held_bytes(buckets.update(k, b)) + bytes_of(buckets[k]) == held_bytes(buckets) + bytes_of(
            b,
        ),
        bytes_of(buckets[k]) <= held_bytes(buckets),
    decreases buckets.len(),
{
    let after = buckets.update(k, b);
    if k == buckets.len() - 1 {
        assert(after.drop_last() =~= buckets.drop_last());
    } else {
        lemma_held_update(buckets.drop_last(), k, b);
        assert(after.drop_last() =~= buckets.drop_last().update(k, b));
    }
}

proof fn lemma_largest_is_largest(buckets: Seq<Bucket>, b: int)
    requires
        0 <= b < buckets.len(),
    ensures
        match joiner::largest(buckets) {
            Some(k) => 0 <= k < buckets.len() && !buckets[k].spilled && bytes_of(buckets[b])
                <= buckets[k].bytes,
            None => bytes_of(buckets[b]) == 0,
        },
    decreases buckets.len(),
{
    let before = buckets.drop_last();
    if b < before.len() {
        lemma_largest_is_largest(before, b);
        assert(before[b] == buckets[b]);
    } else if before.len() > 0 {
        lemma_largest_is_largest(before, 0);
    }
}

/// The right rows of a hash join in memory never take more than its budget: where a row makes
/// them too many, the largest bucket goes to blocks.
pub proof fn the_right_rows_stay_within_the_budget(j: Join, r: Seq<Val>, d: Disk)
    requires
        j.buckets.len() == NUM_BUCKETS,
        j.total == held_bytes(j.buckets),
        j.total <= j.budget,
        j.budget + row::row_weight(r) <= usize::MAX,
    ensures
        ({
            let after = joiner::with_right(j, r, d).0;
            &&& after.total == held_bytes(after.buckets)
            &&& after.total <= after.budget
            &&& after.budget == j.budget
            &&& after.buckets.len() == NUM_BUCKETS
        }),
{
    let b = hash_join::bucket_of(r[j.right_key]);
    let weight = row::saturated(row::row_weight(r));
    let got = hash_join::right_taken(
        j.buckets[b],
        r,
        j.right_key,
        weight,
        d,
        j.block_size,
        j.limit,
    );
    let more = j.buckets.update(b, got.0);
    lemma_held_update(j.buckets, b, got.0);
    if !j.buckets[b].spilled {
        let held = Join { buckets: more, total: row::saturated((j.total + weight) as nat), ..j };
        assert(held.total == held_bytes(more));
        if held.total > j.budget {
            lemma_largest_is_largest(more, b);
            match joiner::largest(more) {
                Some(k) => {
                    let sp = hash_join::bucket_spilled(more[k], got.1, j.block_size, j.limit);
                    lemma_held_update(more, k, sp.0);
                },
                None => {},
            }
        }
    }
}

/// The bucket that goes to blocks first is one that is held and takes no less memory than any
/// other; of several that take as much, the first one. Where no bucket takes memory, none goes.
pub proof fn the_largest_bucket_goes_to_blocks(buckets: Seq<Bucket>, b: int)
    requires
        0 <= b < buckets.len(),
    ensures
        match joiner::largest(buckets) {
            Some(k) => {
                &&& 0 <= k < buckets.len()
                &&& !buckets[k].spilled
                &&& bytes_of(buckets[b]) <= bytes_of(buckets[k])
                &&& b < k ==> bytes_of(buckets[b]) < bytes_of(buckets[k])
            },
            None => bytes_of(buckets[b]) == 0,
        },
    decreases buckets.len(),
{
    let before = buckets.drop_last();
    if b < before.len() {
        the_largest_bucket_goes_to_blocks(before, b);
        assert(before[b] == buckets[b]);
    } else if before.len() > 0 {
        the_largest_bucket_goes_to_blocks(before, 0);
    }
}

/// Of a bucket in blocks the side with fewer blocks is held by key, and the right side where both
/// have as many. A bucket without rows on one side has no pairs left.
pub proof fn the_side_with_fewer_blocks_is_held(b: Bucket)
    ensures
        match joiner::plan_of(b) {
            Some((build, probe, left_is_build)) => {
                &&& joiner::run_blocks(build) <= joiner::run_blocks(probe)
                &&& left_is_build ==> build == b.left_runs && probe == b.right_runs
                    && joiner::run_blocks(build) < joiner::run_blocks(probe)
                &&& !left_is_build ==> build == b.right_runs && probe == b.left_runs
                &&& build.len() > 0 && probe.len() > 0 && b.spilled
            },
            None => !b.spilled || b.left_runs.len() == 0 || b.right_runs.len() == 0,
        },
{
}

/// The blocks of runs are counted together, as far as they can be counted.
pub proof fn the_blocks_of_runs_are_counted(runs: Seq<BucketRun>, more: BucketRun)
    ensures
        joiner::run_blocks(Seq::empty()) == 0,
        joiner::run_blocks(runs) + more.num_blocks <= usize::MAX ==> joiner::run_blocks(
            runs.push(more),
        ) == joiner::run_blocks(runs) + more.num_blocks,
{
    assert(runs.push(more).drop_last() =~= runs);
    assert(runs.push(more).last() == more);
}

/// Where the right rows are in blocks, a left row waits, and the waiting rows meet the blocks as
/// soon as they take as much memory as they may: those that go on waiting take less. Where the
/// right rows are in memory, it meets them at once, and does not wait.
pub proof fn left_rows_wait_below_the_limit(c: Crossing, r: Seq<Val>)
    ensures
        ({
            let (after, pairs, res) = cross_output::left_arrived(c, r);
            &&& c.cross.right_blocks > 0 ==> {
                &&& res is Ok
                &&& pairs.len() == 0
                &&& after.cross.left_chunk == c.cross.left_chunk.push(r)
                &&& res->Ok_0 <==> after.cross.left_bytes >= c.cross.limit
            }
            &&& c.cross.right_blocks == 0 ==> {
                let met = cross::with_each(r, c.cross.right_rows, c.cross.columns, c.cross.tests);
                &&& after == c
                &&& pairs == met.0
                &&& res is Err <==> met.1 is Some
                &&& res is Ok ==> !res->Ok_0
            }
        }),
{
}

/// Waiting left rows meet the right blocks in turn, as many at once as a join may read, and wait no
/// longer once they have met all.
pub proof fn right_blocks_are_met_in_turn(c: Crossing)
    requires
        0 <= c.done <= c.cross.right_blocks,
        c.fetch >= 1,
        c.cross.right_start + c.cross.right_blocks <= u64::MAX,
    ensures
        match cross_output::cross_step(c).1 {
            Act::Fetch(at, n) => {
                &&& at == c.cross.right_start + c.done
                &&& 0 < n <= c.cross.right_blocks - c.done
                &&& n <= c.fetch
                &&& n == c.fetch || n == c.cross.right_blocks - c.done
                &&& cross_output::cross_step(c).0 == c
            },
            Act::Done => {
                &&& c.cross.left_chunk.len() == 0 || c.done == c.cross.right_blocks
                &&& cross_output::cross_step(c).0.cross.left_chunk.len() == 0
                &&& cross_output::cross_step(c).0.cross.left_bytes == 0
                &&& cross_output::cross_step(c).0.done == 0
            },
            _ => false,
        },
{
}

/// A sort counts for each row that it holds what the row weighs, as far as that can be counted.
pub proof fn a_sort_counts_what_its_rows_weigh(c: Chunk, r: Seq<Val>)
    ensures
        sort_chunk::empty_chunk().weight == 0,
        c.weight + row::row_weight(r) <= usize::MAX ==> sort_chunk::chunk_with(c, r).weight == c.weight
            + row::row_weight(r),
        c.weight + row::row_weight(r) > usize::MAX ==> sort_chunk::chunk_with(c, r).weight
            == usize::MAX,
{
}

/// A hash join holds rows of a bucket until their weight reaches its memory, and then loads no
/// more of them before the others have met those that it holds.
pub proof fn a_pass_holds_rows_until_memory_is_full(p: Probing, rows: Seq<Seq<Val>>, n: int)
    requires
        p.load.loaded + joiner::rows_weight(rows) <= usize::MAX,
    ensures
        ({
            let more = join_output::held_too(p.load, rows, n);
            &&& more.rows == p.load.rows + rows
            &&& more.loaded == p.load.loaded + joiner::rows_weight(rows)
            &&& more.full <==> more.loaded >= p.load.budget
        }),
        !p.probing && p.load.full ==> !(join_output::pass_step(p).1 is Fetch),
        !p.probing && p.load.full && p.load.rows.len() > 0 ==> (join_output::pass_step(p).0 matches Some(
            q,
        ) && q.probing && q.load.rows == p.load.rows),
{
}

} // verus!
