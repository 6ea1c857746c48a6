//! The course of a hash join: the right input, the left input, and then the buckets
//! whose rows are in blocks.

use vstd::prelude::*;
use vstd::slice::slice_subrange;

use crate::block::unpack_block;
use crate::block;
use crate::disk::{Disk, DiskState};
use crate::disk;
use crate::error::{DbError, Fault};
use crate::ops;
use crate::ops::hash::KeyTable;
use crate::ops::hash;
use crate::ops::hash_join::{find_bucket, push_pairs, Bucket, BucketRun, JoinBucket, NUM_BUCKETS};
use crate::ops::hash_join;
use crate::ops::rows::clone_row;
use crate::row::encode_row_len;
use crate::row;
use crate::schema::{find_column, Column, ColumnInfo};
use crate::schema;
use crate::value::{Data, Val};

verus! {

/// The most blocks that are read at once to be held by their key.
pub const LOAD_BLOCKS: usize = 32;

/// The most blocks that are read at once to be matched.
pub const PROBE_BLOCKS: usize = 256;

// ---- both inputs ----

/// The buckets of a hash join.
pub struct HashJoiner {
    pub buckets: Vec<JoinBucket>,
    pub left_key: usize,
    pub right_key: usize,
    pub block_size: usize,
    /// The memory that the right rows may take.
    pub budget: usize,
    /// The bytes of a bucket from which its rows go to blocks.
    pub limit: usize,
    /// The memory that the right rows take.
    pub right_total: usize,
}

/// The mathematical value of a [`HashJoiner`].
pub struct Join {
    pub buckets: Seq<Bucket>,
    pub left_key: int,
    pub right_key: int,
    pub block_size: nat,
    pub budget: nat,
    pub limit: nat,
    pub total: usize,
}

/// The mathematical value of buckets.
pub open spec fn buckets_view(buckets: Seq<JoinBucket>) -> Seq<Bucket> {
    buckets.map_values(|b: JoinBucket| b@)
}

impl View for HashJoiner {
    type V = Join;

    open spec fn view(&self) -> Join {
        Join {
            buckets: buckets_view(self.buckets@),
            left_key: self.left_key as int,
            right_key: self.right_key as int,
            block_size: self.block_size as nat,
            budget: self.budget as nat,
            limit: self.limit as nat,
            total: self.right_total,
        }
    }
}

/// The bucket that takes most memory: the first of the largest, if any takes memory.
pub open spec fn largest(buckets: Seq<Bucket>) -> Option<int>
    decreases buckets.len(),
{
    if buckets.len() == 0 {
        None
    } else {
        let before = largest(buckets.drop_last());
        let most = match before {
            Some(i) => buckets[i].bytes,
            None => 0,
        };
        if !buckets.last().spilled && buckets.last().bytes > most {
            Some(buckets.len() - 1)
        } else {
            before
        }
    }
}

/// The memory is over its limit: the largest bucket goes to blocks.
pub open spec fn relieved(j: Join, d: Disk) -> (Join, Disk, Seq<u8>) {
    match largest(j.buckets) {
        None => (j, d, Seq::empty()),
        Some(k) => {
            let got = hash_join::bucket_spilled(j.buckets[k], d, j.block_size, j.limit);
            (
                Join {
                    buckets: j.buckets.update(k, got.0),
                    total: if j.total >= j.buckets[k].bytes {
                        (j.total - j.buckets[k].bytes) as usize
                    } else {
                        0
                    },
                    ..j
                },
                got.1,
                got.2,
            )
        },
    }
}

/// A right row arrives.
pub open spec fn with_right(j: Join, r: Seq<Val>, d: Disk) -> (Join, Disk, Seq<u8>) {
    let b = hash_join::bucket_of(r[j.right_key]);
    let weight = row::saturated(row::row_weight(r));
    let got = hash_join::right_taken(
        j.buckets[b],
        r,
        j.right_key,
        weight,
        d,
        j.block_size,
        j.limit,
    );
    let more = Join { buckets: j.buckets.update(b, got.0), ..j };
    if j.buckets[b].spilled {
        (more, got.1, got.2)
    } else {
        let held = Join { total: row::saturated((j.total + weight) as nat), ..more };
        if held.total > j.budget {
            let rel = relieved(held, got.1);
            (rel.0, rel.1, got.2 + rel.2)
        } else {
            (held, got.1, got.2)
        }
    }
}

/// The right input ends for the first `n` buckets.
pub open spec fn right_finished(j: Join, d: Disk, n: nat) -> (Join, Disk, Seq<u8>)
    decreases n,
{
    if n == 0 {
        (j, d, Seq::empty())
    } else {
        let before = right_finished(j, d, (n - 1) as nat);
        let got = hash_join::right_done(before.0.buckets[n - 1], before.1, j.block_size);
        (
            Join { buckets: before.0.buckets.update(n - 1, got.0), ..before.0 },
            got.1,
            before.2 + got.2,
        )
    }
}

/// A left row arrives.
pub open spec fn with_left(j: Join, r: Seq<Val>, d: Disk) -> (Join, Disk, Seq<u8>, Seq<Seq<Val>>) {
    let b = hash_join::bucket_of(r[j.left_key]);
    let got = hash_join::left_taken(
        j.buckets[b],
        r,
        j.left_key,
        j.right_key,
        d,
        j.block_size,
        j.limit,
    );
    (Join { buckets: j.buckets.update(b, got.0), ..j }, got.1, got.2, got.3)
}

/// The left input ends for the first `n` buckets.
pub open spec fn left_finished(j: Join, d: Disk, n: nat) -> (Join, Disk, Seq<u8>)
    decreases n,
{
    if n == 0 {
        (j, d, Seq::empty())
    } else {
        let before = left_finished(j, d, (n - 1) as nat);
        let got = hash_join::left_done(before.0.buckets[n - 1], before.1, j.block_size);
        (
            Join { buckets: before.0.buckets.update(n - 1, got.0), ..before.0 },
            got.1,
            before.2 + got.2,
        )
    }
}

impl HashJoiner {
    /// Whether there are all buckets, and they are in order.
    pub open spec fn wf(self) -> bool {
        &&& self.block_size >= 2
        &&& self.buckets@.len() == NUM_BUCKETS
        &&& forall|i: int|
            0 <= i < self.buckets@.len() ==> (#[trigger] self.buckets@[i]).wf()
                && self.buckets@[i].table.key == self.right_key
    }

    /// A hash join before the first row, with this memory.
    pub fn new(left_key: usize, right_key: usize, block_size: usize, budget: usize) -> (res:
        HashJoiner)
        requires
            block_size >= 2,
        ensures
            res.wf(),
            res@ == (Join {
                buckets: Seq::new(NUM_BUCKETS as nat, |i: int| hash_join::empty_bucket()),
                left_key: left_key as int,
                right_key: right_key as int,
                block_size: block_size as nat,
                budget: budget as nat,
                limit: if budget / 16 < 1 {
                    1
                } else {
                    budget as nat / 16
                },
                total: 0,
            }),
    {
        let mut buckets: Vec<JoinBucket> = Vec::new();
        while buckets.len() < NUM_BUCKETS
            invariant
                buckets@.len() <= NUM_BUCKETS,
                forall|i: int|
                    0 <= i < buckets@.len() ==> (#[trigger] buckets@[i]).wf()
                        && buckets@[i].table.key == right_key && buckets@[i]@
                        == hash_join::empty_bucket(),
            decreases NUM_BUCKETS - buckets@.len(),
        {
            buckets.push(JoinBucket::new(right_key));
        }
        assert(buckets_view(buckets@) =~= Seq::new(
            NUM_BUCKETS as nat,
            |i: int| hash_join::empty_bucket(),
        ));
        let limit: usize = if budget / 16 < 1 {
            1
        } else {
            budget / 16
        };
        HashJoiner { buckets, left_key, right_key, block_size, budget, limit, right_total: 0 }
    }

    fn find_largest(&self) -> (res: Option<usize>)
        ensures
            match res {
                Some(i) => largest(self@.buckets) == Some(i as int) && i < self.buckets@.len(),
                None => largest(self@.buckets) is None,
            },
    {
        let ghost b = self@.buckets;
        let mut best: Option<usize> = None;
        let mut most: usize = 0;
        let mut i: usize = 0;
        assert(b.take(0) =~= Seq::empty());
        while i < self.buckets.len()
            invariant
                i <= self.buckets@.len(),
                b == self@.buckets,
                match best {
                    Some(k) => largest(b.take(i as int)) == Some(k as int) && k < i && most
                        == b[k as int].bytes,
                    None => largest(b.take(i as int)) is None && most == 0,
                },
            decreases self.buckets@.len() - i,
        {
            proof {
                assert(b.take(i + 1).drop_last() =~= b.take(i as int));
                assert(b.take(i + 1).last() == self.buckets@[i as int]@);
                match best {
                    Some(k) => {
                        assert(b.take(i + 1)[k as int] == b[k as int]);
                    },
                    None => {},
                }
            }
            if !self.buckets[i].spilled && self.buckets[i].bytes > most {
                most = self.buckets[i].bytes;
                best = Some(i);
            }
            i += 1;
        }
        assert(b.take(i as int) =~= b);
        best
    }

    /// Takes a row of the right input. Appends the bytes to send.
    pub fn push_right(&mut self, row: &Vec<Data>, disk: &mut DiskState, out: &mut Vec<u8>)
        requires
            old(self).wf(),
            old(disk).wf(),
            old(self).right_key < row@.len(),
        ensures
            final(self).wf(),
            final(disk).wf(),
            old(disk).sized_for(old(self).block_size as nat) ==> final(disk).sized_for(
                old(self).block_size as nat,
            ),
            ({
                let got = with_right(old(self)@, row.deep_view(), old(disk)@);
                final(self)@ == got.0 && final(disk)@ == got.1 && final(out)@ == old(out)@ + got.2
            }),
    {
        let ghost j0 = self@;
        let ghost d0 = disk@;
        let ghost sent = out@;
        let ghost r = row.deep_view();
        let weight: usize = encode_row_len(row);
        let b: usize = find_bucket(&row[self.right_key]);
        let was_spilled = self.buckets[b].spilled;
        let ghost old_buckets = self.buckets@;
        let (bs, limit): (usize, usize) = (self.block_size, self.limit);
        self.buckets[b].take_right(row, weight, disk, out, bs, limit);
        let ghost got = hash_join::right_taken(
            j0.buckets[b as int],
            r,
            j0.right_key,
            weight,
            d0,
            j0.block_size,
            j0.limit,
        );
        assert(self.buckets@ == old_buckets.update(b as int, self.buckets@[b as int]));
        assert(buckets_view(self.buckets@) =~= j0.buckets.update(b as int, got.0));
        if was_spilled {
            return;
        }
        self.right_total = self.right_total.saturating_add(weight);
        if self.right_total > self.budget {
            let ghost j1 = self@;
            let ghost d1 = disk@;
            match self.find_largest() {
                None => {
                    assert((sent + got.2) + Seq::<u8>::empty() =~= sent + got.2);
                    assert(got.2 + Seq::<u8>::empty() =~= got.2);
                },
                Some(k) => {
                    let bytes: usize = self.buckets[k].bytes;
                    self.right_total = self.right_total.saturating_sub(bytes);
                    let ghost mid = self.buckets@;
                    self.buckets[k].spill(disk, out, bs, limit);
                    let ghost sp = hash_join::bucket_spilled(
                        j1.buckets[k as int],
                        d1,
                        j1.block_size,
                        j1.limit,
                    );
                    assert(self.buckets@ == mid.update(k as int, self.buckets@[k as int]));
                    assert(buckets_view(self.buckets@) =~= j1.buckets.update(k as int, sp.0));
                    assert((sent + got.2) + sp.2 =~= sent + (got.2 + sp.2));
                },
            }
        }
    }

    /// Ends the right input. Appends the bytes to send.
    pub fn finish_right(&mut self, disk: &mut DiskState, out: &mut Vec<u8>)
        requires
            old(self).wf(),
            old(disk).wf(),
        ensures
            final(self).wf(),
            final(disk).wf(),
            old(disk).sized_for(old(self).block_size as nat) ==> final(disk).sized_for(
                old(self).block_size as nat,
            ),
            ({
                let got = right_finished(old(self)@, old(disk)@, NUM_BUCKETS as nat);
                final(self)@ == got.0 && final(disk)@ == got.1 && final(out)@ == old(out)@ + got.2
            }),
    {
        let ghost j0 = self@;
        let ghost d0 = disk@;
        let ghost sent = out@;
        let bs: usize = self.block_size;
        let mut i: usize = 0;
        assert(sent + Seq::<u8>::empty() =~= sent);
        while i < NUM_BUCKETS
            invariant
                i <= NUM_BUCKETS,
                self.wf(),
                disk.wf(),
                bs == self.block_size,
                old(disk).sized_for(bs as nat) ==> disk.sized_for(bs as nat),
                j0.block_size == bs,
                ({
                    let got = right_finished(j0, d0, i as nat);
                    self@ == got.0 && disk@ == got.1 && out@ == sent + got.2
                }),
            decreases NUM_BUCKETS - i,
        {
            let ghost before = right_finished(j0, d0, i as nat);
            let ghost old_buckets = self.buckets@;
            self.buckets[i].finish_right(disk, out, bs);
            let ghost got = hash_join::right_done(
                before.0.buckets[i as int],
                before.1,
                j0.block_size,
            );
            assert(self.buckets@ == old_buckets.update(i as int, self.buckets@[i as int]));
            assert(buckets_view(self.buckets@) =~= before.0.buckets.update(i as int, got.0));
            assert((sent + before.2) + got.2 =~= sent + (before.2 + got.2));
            i += 1;
        }
    }

    /// Takes a row of the left input. Appends the bytes to send, and the pairs with right
    /// rows in memory.
    pub fn push_left(
        &mut self,
        row: &Vec<Data>,
        disk: &mut DiskState,
        out: &mut Vec<u8>,
        pairs: &mut Vec<Vec<Data>>,
    )
        requires
            old(self).wf(),
            old(disk).wf(),
            old(self).left_key < row@.len(),
        ensures
            final(self).wf(),
            final(disk).wf(),
            old(disk).sized_for(old(self).block_size as nat) ==> final(disk).sized_for(
                old(self).block_size as nat,
            ),
            ({
                let got = with_left(old(self)@, row.deep_view(), old(disk)@);
                &&& final(self)@ == got.0
                &&& final(disk)@ == got.1
                &&& final(out)@ == old(out)@ + got.2
                &&& final(pairs).deep_view() == old(pairs).deep_view() + got.3
            }),
    {
        let ghost j0 = self@;
        let b: usize = find_bucket(&row[self.left_key]);
        let ghost old_buckets = self.buckets@;
        let (key, bs, limit): (usize, usize, usize) = (
            self.left_key,
            self.block_size,
            self.limit,
        );
        let ghost d0 = disk@;
        self.buckets[b].take_left(row, key, disk, out, pairs, bs, limit);
        let ghost got = hash_join::left_taken(
            j0.buckets[b as int],
            row.deep_view(),
            j0.left_key,
            j0.right_key,
            d0,
            j0.block_size,
            j0.limit,
        );
        assert(self.buckets@ == old_buckets.update(b as int, self.buckets@[b as int]));
        assert(buckets_view(self.buckets@) =~= j0.buckets.update(b as int, got.0));
    }

    /// Ends the left input. Appends the bytes to send.
    pub fn finish_left(&mut self, disk: &mut DiskState, out: &mut Vec<u8>)
        requires
            old(self).wf(),
            old(disk).wf(),
        ensures
            final(self).wf(),
            final(disk).wf(),
            old(disk).sized_for(old(self).block_size as nat) ==> final(disk).sized_for(
                old(self).block_size as nat,
            ),
            ({
                let got = left_finished(old(self)@, old(disk)@, NUM_BUCKETS as nat);
                final(self)@ == got.0 && final(disk)@ == got.1 && final(out)@ == old(out)@ + got.2
            }),
    {
        let ghost j0 = self@;
        let ghost d0 = disk@;
        let ghost sent = out@;
        let bs: usize = self.block_size;
        let mut i: usize = 0;
        assert(sent + Seq::<u8>::empty() =~= sent);
        while i < NUM_BUCKETS
            invariant
                i <= NUM_BUCKETS,
                self.wf(),
                disk.wf(),
                bs == self.block_size,
                old(disk).sized_for(bs as nat) ==> disk.sized_for(bs as nat),
                j0.block_size == bs,
                ({
                    let got = left_finished(j0, d0, i as nat);
                    self@ == got.0 && disk@ == got.1 && out@ == sent + got.2
                }),
            decreases NUM_BUCKETS - i,
        {
            let ghost before = left_finished(j0, d0, i as nat);
            let ghost old_buckets = self.buckets@;
            self.buckets[i].finish_left(disk, out, bs);
            let ghost got = hash_join::left_done(before.0.buckets[i as int], before.1, j0.block_size);
            assert(self.buckets@ == old_buckets.update(i as int, self.buckets@[i as int]));
            assert(buckets_view(self.buckets@) =~= before.0.buckets.update(i as int, got.0));
            assert((sent + before.2) + got.2 =~= sent + (before.2 + got.2));
            i += 1;
        }
    }

    /// Which side of a bucket in blocks is held by key, and which side is matched with
    /// it. A bucket in memory, or with a side that has no blocks, has no more pairs.
    pub fn probe_plan(&self, b: usize) -> (res: Option<ProbePlan>)
        requires
            self.wf(),
            b < NUM_BUCKETS,
        ensures
            match plan_of(self@.buckets[b as int]) {
                Some(p) => res matches Some(q) && q.build@ == p.0 && q.probe@ == p.1
                    && q.left_is_build == p.2,
                None => res is None,
            },
    {
        let bk = &self.buckets[b];
        assert(self@.buckets[b as int] == bk@);
        if !bk.spilled || bk.right_runs.len() == 0 || bk.left_runs.len() == 0 {
            return None;
        }
        let left: usize = count_run_blocks(&bk.left_runs);
        let right: usize = count_run_blocks(&bk.right_runs);
        if left < right {
            Some(
                ProbePlan {
                    build: copy_runs(&bk.left_runs),
                    probe: copy_runs(&bk.right_runs),
                    left_is_build: true,
                },
            )
        } else {
            Some(
                ProbePlan {
                    build: copy_runs(&bk.right_runs),
                    probe: copy_runs(&bk.left_runs),
                    left_is_build: false,
                },
            )
        }
    }
}

/// How the blocks of a bucket are matched.
pub struct ProbePlan {
    pub build: Vec<BucketRun>,
    pub probe: Vec<BucketRun>,
    pub left_is_build: bool,
}

/// The number of blocks of runs, held at the greatest `usize`.
pub open spec fn run_blocks(runs: Seq<BucketRun>) -> usize
    decreases runs.len(),
{
    if runs.len() == 0 {
        0
    } else {
        row::saturated((run_blocks(runs.drop_last()) + runs.last().num_blocks) as nat)
    }
}

/// The side with fewer blocks is held by key; the right side where both have as many.
pub open spec fn plan_of(b: Bucket) -> Option<(Seq<BucketRun>, Seq<BucketRun>, bool)> {
    if !b.spilled || b.right_runs.len() == 0 || b.left_runs.len() == 0 {
        None
    } else if run_blocks(b.left_runs) < run_blocks(b.right_runs) {
        Some((b.left_runs, b.right_runs, true))
    } else {
        Some((b.right_runs, b.left_runs, false))
    }
}

fn count_run_blocks(runs: &Vec<BucketRun>) -> (res: usize)
    ensures
        res == run_blocks(runs@),
{
    let mut sum: usize = 0;
    let mut i: usize = 0;
    assert(runs@.take(0) =~= Seq::empty());
    while i < runs.len()
        invariant
            i <= runs@.len(),
            sum == run_blocks(runs@.take(i as int)),
        decreases runs@.len() - i,
    {
        assert(runs@.take(i + 1).drop_last() =~= runs@.take(i as int));
        assert(runs@.take(i + 1).last() == runs@[i as int]);
        sum = sum.saturating_add(runs[i].num_blocks);
        i += 1;
    }
    assert(runs@.take(i as int) =~= runs@);
    sum
}

/// Copies runs.
pub fn copy_runs(runs: &Vec<BucketRun>) -> (res: Vec<BucketRun>)
    ensures
        res@ == runs@,
{
    let mut out: Vec<BucketRun> = Vec::new();
    let mut i: usize = 0;
    while i < runs.len()
        invariant
            i <= runs@.len(),
            out@ == runs@.take(i as int),
        decreases runs@.len() - i,
    {
        out.push(runs[i]);
        assert(out@ =~= runs@.take(i + 1));
        i += 1;
    }
    assert(out@ =~= runs@);
    out
}

// ---- reading the blocks of a bucket ----

/// A place in the blocks of runs.
pub struct RunCursor {
    pub runs: Vec<BucketRun>,
    pub run: usize,
    pub block: usize,
    /// The most blocks that are read at once.
    pub most: usize,
}

/// The mathematical value of a [`RunCursor`].
pub struct Cursor {
    pub runs: Seq<BucketRun>,
    pub run: int,
    pub block: int,
    pub most: int,
}

impl View for RunCursor {
    type V = Cursor;

    open spec fn view(&self) -> Cursor {
        Cursor {
            runs: self.runs@,
            run: self.run as int,
            block: self.block as int,
            most: self.most as int,
        }
    }
}

/// The place with runs that have been read left behind.
pub open spec fn moved_on(c: Cursor) -> Cursor
    decreases c.runs.len() - c.run,
{
    if 0 <= c.run < c.runs.len() && c.block >= c.runs[c.run].num_blocks {
        moved_on(Cursor { run: c.run + 1, block: 0, ..c })
    } else {
        c
    }
}

/// The blocks at the place: the first and their number.
pub open spec fn blocks_at(c: Cursor) -> Option<(u64, usize)> {
    if c.run >= c.runs.len() {
        None
    } else {
        let r = c.runs[c.run];
        let left = r.num_blocks - c.block;
        Some(
            (
                disk::wrapped_sum(r.start_block, c.block as u64),
                (if left < c.most {
                    left
                } else {
                    c.most
                }) as usize,
            ),
        )
    }
}

impl RunCursor {
    /// The first block of runs.
    pub fn new(runs: Vec<BucketRun>, most: usize) -> (res: RunCursor)
        ensures
            res@ == (Cursor { runs: runs@, run: 0, block: 0, most: most as int }),
    {
        RunCursor { runs, run: 0, block: 0, most }
    }

    /// Goes to the next blocks and gives them, or nothing at the end.
    pub fn next(&mut self) -> (res: Option<(u64, usize)>)
        ensures
            final(self)@ == moved_on(old(self)@),
            res == blocks_at(final(self)@),
            res matches Some((_, n)) ==> final(self).block + n <= usize::MAX,
    {
        while self.run < self.runs.len() && self.block >= self.runs[self.run].num_blocks
            invariant
                moved_on(self@) == moved_on(old(self)@),
            decreases self.runs@.len() - self.run,
        {
            self.run = self.run + 1;
            self.block = 0;
        }
        if self.run >= self.runs.len() {
            return None;
        }
        let r = self.runs[self.run];
        let left: usize = r.num_blocks - self.block;
        let n: usize = if left < self.most {
            left
        } else {
            self.most
        };
        Some((r.start_block.wrapping_add(self.block as u64), n))
    }

    /// Leaves `n` blocks behind.
    pub fn advance(&mut self, n: usize)
        requires
            old(self).block + n <= usize::MAX,
        ensures
            final(self)@ == (Cursor { block: old(self)@.block + n, ..old(self)@ }),
    {
        self.block = self.block + n;
    }

    /// Says whether all runs were left behind.
    pub fn at_end(&self) -> (res: bool)
        ensures
            res == (self@.run >= self@.runs.len()),
    {
        self.run >= self.runs.len()
    }
}

/// The weight of rows.
pub open spec fn rows_weight(rows: Seq<Seq<Val>>) -> nat
    decreases rows.len(),
{
    if rows.len() == 0 {
        0
    } else {
        rows_weight(rows.drop_last()) + row::row_weight(rows.last())
    }
}

/// The rows of one side of a bucket that are held by key, as many as memory takes.
pub struct BuildPass {
    pub schema: Vec<ColumnInfo>,
    pub block_size: usize,
    pub budget: usize,
    pub cursor: RunCursor,
    pub table: KeyTable,
    /// The memory that the rows of this pass take.
    pub loaded: usize,
    /// The memory is full.
    pub full: bool,
}

impl BuildPass {
    /// Whether the table is in order, and its key is a column.
    pub open spec fn wf(self) -> bool {
        &&& self.block_size >= 2
        &&& self.table.wf()
        &&& self.table.key < self.schema@.len()
    }

    /// The first pass over the runs.
    pub fn new(
        runs: Vec<BucketRun>,
        schema: Vec<ColumnInfo>,
        key: usize,
        block_size: usize,
        budget: usize,
    ) -> (res: BuildPass)
        requires
            block_size >= 2,
            key < schema@.len(),
        ensures
            res.wf(),
            res.table.key == key,
            res.table.rows.deep_view() == Seq::<Seq<Val>>::empty(),
            res.schema == schema,
            res.block_size == block_size,
            res.budget == budget,
            res.cursor@ == (Cursor { runs: runs@, run: 0, block: 0, most: LOAD_BLOCKS as int }),
            res.loaded == 0,
            !res.full,
    {
        BuildPass {
            schema,
            block_size,
            budget,
            cursor: RunCursor::new(runs, LOAD_BLOCKS),
            table: KeyTable::new(key),
            loaded: 0,
            full: false,
        }
    }

    /// The blocks to load next, or nothing where memory is full or all were loaded.
    pub fn next_load(&mut self) -> (res: Option<(u64, usize)>)
        requires
            old(self).wf(),
        ensures
            final(self).wf(),
            if old(self).full {
                res is None && *final(self) == *old(self)
            } else {
                &&& final(self).cursor@ == moved_on(old(self).cursor@)
                &&& res == blocks_at(final(self).cursor@)
                &&& res matches Some((_, n)) ==> final(self).cursor.block + n <= usize::MAX
                &&& final(self).table == old(self).table
                &&& final(self).schema == old(self).schema
                &&& final(self).block_size == old(self).block_size
                &&& final(self).budget == old(self).budget
                &&& final(self).loaded == old(self).loaded
                &&& !final(self).full
            },
    {
        if self.full {
            None
        } else {
            self.cursor.next()
        }
    }

    /// Takes `n` blocks that were loaded.
    pub fn accept(&mut self, data: &Vec<u8>, n: usize) -> (res: Result<(), DbError>)
        requires
            old(self).wf(),
            data@.len() == n * old(self).block_size,
            old(self).cursor.block + n <= usize::MAX,
        ensures
            match block::blocks_rows(
                data@,
                old(self).block_size as nat,
                old(self).schema.deep_view(),
                n as nat,
            ) {
                Err(f) => res matches Err(e) && e@ == f,
                Ok(rows) => {
                    &&& res is Ok
                    &&& final(self).wf()
                    &&& final(self).table.key == old(self).table.key
                    &&& final(self).table.rows.deep_view() == old(self).table.rows.deep_view()
                        + rows
                    &&& final(self).loaded == row::saturated(
                        (old(self).loaded + rows_weight(rows)) as nat,
                    )
                    &&& final(self).full == (final(self).loaded >= old(self).budget)
                    &&& final(self).cursor@ == (Cursor {
                        block: old(self).cursor@.block + n,
                        ..old(self).cursor@
                    })
                    &&& final(self).schema == old(self).schema
                    &&& final(self).block_size == old(self).block_size
                    &&& final(self).budget == old(self).budget
                },
            },
    {
        let ghost bs = self.block_size as nat;
        let ghost c = self.schema.deep_view();
        let ghost first = self.table.rows.deep_view();
        let ghost loaded0 = self.loaded as nat;
        let mut i: usize = 0;
        let mut at: usize = 0;
        assert(0 * bs == 0);
        assert(first + Seq::<Seq<Val>>::empty() =~= first);
        while i < n
            invariant
                i <= n,
                self.wf(),
                bs == self.block_size,
                c == self.schema.deep_view(),
                data@.len() == n * bs,
                at == i * bs,
                self.table.key == old(self).table.key,
                self.schema == old(self).schema,
                self.block_size == old(self).block_size,
                self.budget == old(self).budget,
                self.cursor == old(self).cursor,
                block::blocks_rows(data@, bs, c, i as nat) is Ok,
                ({
                    let rows = block::blocks_rows(data@, bs, c, i as nat)->Ok_0;
                    &&& self.table.rows.deep_view() == first + rows
                    &&& self.loaded == row::saturated(loaded0 + rows_weight(rows))
                }),
            decreases n - i,
        {
            let ghost before = block::blocks_rows(data@, bs, c, i as nat)->Ok_0;
            assert((i + 1) * bs == i * bs + bs && (i + 1) * bs <= n * bs) by (nonlinear_arith)
                requires
                    i < n,
                    bs >= 0,
            ;
            assert(data@.len() == data.len());
            let b = slice_subrange(data.as_slice(), at, at + self.block_size);
            assert(b@ =~= block::nth_block(data@, bs, i as int));
            match unpack_block(b, self.block_size, &self.schema) {
                Err(e) => {
                    proof {
                        lemma_blocks_fail(data@, bs, c, (i + 1) as nat, n as nat);
                    }
                    return Err(e);
                },
                Ok(rows) => {
                    self.hold(rows);
                    proof {
                        let r = rows.deep_view();
                        assert((first + before) + r =~= first + (before + r));
                        lemma_weight_append(before, r);
                    }
                },
            }
            at = at + self.block_size;
            i += 1;
        }
        self.cursor.advance(n);
        self.full = self.loaded >= self.budget;
        Ok(())
    }

    fn hold(&mut self, rows: Vec<Vec<Data>>)
        requires
            old(self).wf(),
            forall|i: int|
                0 <= i < rows@.len() ==> (#[trigger] rows@[i])@.len() == old(self).schema@.len(),
        ensures
            final(self).wf(),
            final(self).table.key == old(self).table.key,
            final(self).table.rows.deep_view() == old(self).table.rows.deep_view()
                + rows.deep_view(),
            final(self).loaded == row::saturated(
                (old(self).loaded + rows_weight(rows.deep_view())) as nat,
            ),
            final(self).schema == old(self).schema,
            final(self).block_size == old(self).block_size,
            final(self).budget == old(self).budget,
            final(self).cursor == old(self).cursor,
            final(self).full == old(self).full,
    {
        let ghost r = rows.deep_view();
        let ghost first = self.table.rows.deep_view();
        let mut i: usize = 0;
        assert(first + r.take(0) =~= first);
        assert(r.take(0) =~= Seq::empty());
        while i < rows.len()
            invariant
                i <= rows@.len(),
                r == rows.deep_view(),
                self.wf(),
                forall|k: int|
                    0 <= k < rows@.len() ==> (#[trigger] rows@[k])@.len() == self.schema@.len(),
                self.table.key == old(self).table.key,
                self.schema == old(self).schema,
                self.block_size == old(self).block_size,
                self.budget == old(self).budget,
                self.cursor == old(self).cursor,
                self.full == old(self).full,
                self.table.rows.deep_view() == first + r.take(i as int),
                self.loaded == row::saturated(
                    (old(self).loaded + rows_weight(r.take(i as int))) as nat,
                ),
            decreases rows@.len() - i,
        {
            proof {
                assert(r.take(i + 1).drop_last() =~= r.take(i as int));
                assert(r.take(i + 1).last() == rows@[i as int].deep_view());
                assert(first + r.take(i + 1) =~= (first + r.take(i as int)).push(r[i as int]));
                assert(rows@[i as int]@.len() == self.schema@.len());
            }
            self.loaded = self.loaded.saturating_add(encode_row_len(&rows[i]));
            let copy = clone_row(&rows[i]);
            self.table.insert(copy);
            i += 1;
        }
        assert(r.take(i as int) =~= r);
    }

    /// Says whether this pass loaded any row.
    pub fn has_rows(&self) -> (res: bool)
        ensures
            res == (self.table.rows.deep_view().len() > 0),
    {
        assert(self.table.rows.deep_view().len() == self.table.rows@.len());
        self.table.rows.len() > 0
    }

    /// Begins the next pass, behind what was loaded.
    pub fn next_pass(&mut self)
        requires
            old(self).wf(),
        ensures
            final(self).wf(),
            final(self).table.key == old(self).table.key,
            final(self).table.rows.deep_view() == Seq::<Seq<Val>>::empty(),
            final(self).loaded == 0,
            !final(self).full,
            final(self).cursor == old(self).cursor,
            final(self).schema == old(self).schema,
            final(self).block_size == old(self).block_size,
            final(self).budget == old(self).budget,
    {
        self.table = KeyTable::new(self.table.key);
        self.loaded = 0;
        self.full = false;
    }
}

proof fn lemma_blocks_fail(data: Seq<u8>, block_size: nat, columns: Seq<Column>, k: nat, n: nat)
    requires
        k <= n,
        block::blocks_rows(data, block_size, columns, k) is Err,
    ensures
        block::blocks_rows(data, block_size, columns, n) == block::blocks_rows(
            data,
            block_size,
            columns,
            k,
        ),
    decreases n,
{
    if k < n {
        lemma_blocks_fail(data, block_size, columns, k, (n - 1) as nat);
    }
}

proof fn lemma_weight_append(a: Seq<Seq<Val>>, b: Seq<Seq<Val>>)
    ensures
        rows_weight(a + b) == rows_weight(a) + rows_weight(b),
    decreases b.len(),
{
    if b.len() == 0 {
        assert(a + b =~= a);
    } else {
        assert((a + b).drop_last() =~= a + b.drop_last());
        lemma_weight_append(a, b.drop_last());
    }
}

// ---- matching ----

/// The pairs of rows with the rows that are held by key.
pub open spec fn probed(
    held: Seq<Seq<Val>>,
    held_key: int,
    rows: Seq<Seq<Val>>,
    key: int,
    left_is_build: bool,
) -> Seq<Seq<Val>>
    decreases rows.len(),
{
    if rows.len() == 0 {
        Seq::empty()
    } else {
        let r = rows.last();
        probed(held, held_key, rows.drop_last(), key, left_is_build) + hash_join::paired(
            r,
            hash::matching(held, held_key, r[key]),
            !left_is_build,
        )
    }
}

/// The pairs of the rows of the first `n` blocks with the rows that are held by key.
pub open spec fn blocks_probed(
    held: Seq<Seq<Val>>,
    held_key: int,
    data: Seq<u8>,
    block_size: nat,
    n: nat,
    columns: Seq<Column>,
    key: int,
    left_is_build: bool,
) -> (Seq<Seq<Val>>, Option<Fault>)
    decreases n,
{
    if n == 0 {
        (Seq::empty(), None)
    } else {
        let before = blocks_probed(
            held,
            held_key,
            data,
            block_size,
            (n - 1) as nat,
            columns,
            key,
            left_is_build,
        );
        if before.1 is Some {
            before
        } else {
            match block::block_rows(
                block::nth_block(data, block_size, n - 1),
                block_size,
                columns,
            ) {
                Err(e) => (before.0, Some(e)),
                Ok(rows) => (before.0 + probed(held, held_key, rows, key, left_is_build), None),
            }
        }
    }
}

proof fn lemma_probed_stops(
    held: Seq<Seq<Val>>,
    held_key: int,
    data: Seq<u8>,
    block_size: nat,
    k: nat,
    n: nat,
    columns: Seq<Column>,
    key: int,
    left_is_build: bool,
)
    requires
        k <= n,
        blocks_probed(held, held_key, data, block_size, k, columns, key, left_is_build).1 is Some,
    ensures
        blocks_probed(held, held_key, data, block_size, n, columns, key, left_is_build)
            == blocks_probed(held, held_key, data, block_size, k, columns, key, left_is_build),
    decreases n,
{
    if k < n {
        lemma_probed_stops(
            held,
            held_key,
            data,
            block_size,
            k,
            (n - 1) as nat,
            columns,
            key,
            left_is_build,
        );
    }
}

impl BuildPass {
    /// Appends the pairs of the rows of `n` blocks of the other side with the rows that
    /// are held.
    pub fn probe(
        &self,
        data: &Vec<u8>,
        n: usize,
        schema: &Vec<ColumnInfo>,
        key: usize,
        left_is_build: bool,
        pairs: &mut Vec<Vec<Data>>,
    ) -> (res: Result<(), DbError>)
        requires
            self.wf(),
            data@.len() == n * self.block_size,
            key < schema@.len(),
        ensures
            ({
                let got = blocks_probed(
                    self.table.rows.deep_view(),
                    self.table.key as int,
                    data@,
                    self.block_size as nat,
                    n as nat,
                    schema.deep_view(),
                    key as int,
                    left_is_build,
                );
                final(pairs).deep_view() == old(pairs).deep_view() + got.0 && ops::fault_of(res)
                    == got.1
            }),
    {
        let ghost bs = self.block_size as nat;
        let ghost c = schema.deep_view();
        let ghost held = self.table.rows.deep_view();
        let ghost hk = self.table.key as int;
        let ghost given = pairs.deep_view();
        let mut i: usize = 0;
        let mut at: usize = 0;
        assert(0 * bs == 0);
        assert(given + Seq::<Seq<Val>>::empty() =~= given);
        while i < n
            invariant
                i <= n,
                self.wf(),
                bs == self.block_size,
                c == schema.deep_view(),
                held == self.table.rows.deep_view(),
                hk == self.table.key,
                key < schema@.len(),
                data@.len() == n * bs,
                at == i * bs,
                given == old(pairs).deep_view(),
                ({
                    let got = blocks_probed(
                        held,
                        hk,
                        data@,
                        bs,
                        i as nat,
                        c,
                        key as int,
                        left_is_build,
                    );
                    got.1 is None && pairs.deep_view() == given + got.0
                }),
            decreases n - i,
        {
            let ghost before = blocks_probed(
                held,
                hk,
                data@,
                bs,
                i as nat,
                c,
                key as int,
                left_is_build,
            ).0;
            assert((i + 1) * bs == i * bs + bs && (i + 1) * bs <= n * bs) by (nonlinear_arith)
                requires
                    i < n,
                    bs >= 0,
            ;
            assert(data@.len() == data.len());
            let b = slice_subrange(data.as_slice(), at, at + self.block_size);
            assert(b@ =~= block::nth_block(data@, bs, i as int));
            match unpack_block(b, self.block_size, schema) {
                Err(e) => {
                    proof {
                        lemma_probed_stops(
                            held,
                            hk,
                            data@,
                            bs,
                            (i + 1) as nat,
                            n as nat,
                            c,
                            key as int,
                            left_is_build,
                        );
                    }
                    return Err(e);
                },
                Ok(rows) => {
                    self.probe_rows(&rows, key, left_is_build, pairs);
                    assert((given + before) + probed(
                        held,
                        hk,
                        rows.deep_view(),
                        key as int,
                        left_is_build,
                    ) =~= given + (before + probed(
                        held,
                        hk,
                        rows.deep_view(),
                        key as int,
                        left_is_build,
                    )));
                },
            }
            at = at + self.block_size;
            i += 1;
        }
        Ok(())
    }

    fn probe_rows(
        &self,
        rows: &Vec<Vec<Data>>,
        key: usize,
        left_is_build: bool,
        pairs: &mut Vec<Vec<Data>>,
    )
        requires
            self.wf(),
            forall|i: int| 0 <= i < rows@.len() ==> (#[trigger] rows@[i])@.len() > key,
        ensures
            final(pairs).deep_view() == old(pairs).deep_view() + probed(
                self.table.rows.deep_view(),
                self.table.key as int,
                rows.deep_view(),
                key as int,
                left_is_build,
            ),
    {
        let ghost r = rows.deep_view();
        let ghost held = self.table.rows.deep_view();
        let ghost hk = self.table.key as int;
        let ghost given = pairs.deep_view();
        let mut i: usize = 0;
        assert(r.take(0) =~= Seq::empty());
        assert(given + Seq::<Seq<Val>>::empty() =~= given);
        while i < rows.len()
            invariant
                i <= rows@.len(),
                r == rows.deep_view(),
                self.wf(),
                held == self.table.rows.deep_view(),
                hk == self.table.key,
                forall|k: int| 0 <= k < rows@.len() ==> (#[trigger] rows@[k])@.len() > key,
                pairs.deep_view() == given + probed(
                    held,
                    hk,
                    r.take(i as int),
                    key as int,
                    left_is_build,
                ),
            decreases rows@.len() - i,
        {
            let ghost before = probed(held, hk, r.take(i as int), key as int, left_is_build);
            proof {
                assert(r.take(i + 1).drop_last() =~= r.take(i as int));
                assert(r.take(i + 1).last() == rows@[i as int].deep_view());
                assert(rows@[i as int]@.len() > key);
            }
            let mut found: Vec<Vec<Data>> = Vec::new();
            assert(found.deep_view() =~= Seq::<Seq<Val>>::empty());
            self.table.find(&rows[i][key], &mut found);
            let ghost m = hash::matching(held, hk, r[i as int][key as int]);
            assert(found.deep_view() =~= m);
            push_pairs(&rows[i], &found, !left_is_build, pairs);
            let ghost here = hash_join::paired(r[i as int], m, !left_is_build);
            assert((given + before) + here =~= given + (before + here));
            i += 1;
        }
        assert(r.take(i as int) =~= r);
    }
}

// ---- the columns of a join ----

/// Finds the join columns of both inputs.
pub fn find_join_columns(
    left: &Vec<ColumnInfo>,
    right: &Vec<ColumnInfo>,
    left_col: &String,
    right_col: &String,
) -> (res: Result<(usize, usize), DbError>)
    ensures
        match (
            schema::column_index(left.deep_view(), left_col@),
            schema::column_index(right.deep_view(), right_col@),
        ) {
            (None, _) => res matches Err(e) && e@ == Fault::LeftJoinColumn(left_col@),
            (Some(_), None) => res matches Err(e) && e@ == Fault::RightJoinColumn(right_col@),
            (Some(l), Some(r)) => res matches Ok((a, b)) && a == l && b == r && a < left@.len()
                && b < right@.len(),
        },
{
    let l = match find_column(left, left_col) {
        Some(i) => i,
        None => {
            return Err(DbError::LeftJoinColumn(left_col.clone()));
        },
    };
    match find_column(right, right_col) {
        Some(r) => Ok((l, r)),
        None => Err(DbError::RightJoinColumn(right_col.clone())),
    }
}

} // verus!
