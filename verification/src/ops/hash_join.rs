//! Hash joins: the right rows are spread over buckets by their key; a bucket that
//! memory cannot hold goes to blocks, and so do the left rows that belong to it.

use vstd::prelude::*;
use vstd::slice::{slice_subrange, slice_to_vec};

use crate::block::{BlockWriter, Packing};
use crate::block;
use crate::disk::{allocate_anon_block_chunk, write_blocks, Disk, DiskState};
use crate::disk;
use crate::ops::hash::{hash_data, BloomFilter, KeyTable};
use crate::ops::hash;
use crate::ops::rows::{clone_row, join_row};
use crate::row::encode_row;
use crate::row;
use crate::value::{Data, Val};

verus! {

/// The number of buckets.
pub const NUM_BUCKETS: usize = 16;

/// The most blocks that are written at once.
pub const MAX_WRITE_BLOCKS: usize = 256;

/// The bucket of a key.
pub open spec fn bucket_of(key: Val) -> int {
    (hash::key_hash(key) % 16) as int
}

/// Finds the bucket of a key.
pub fn find_bucket(key: &Data) -> (res: usize)
    ensures
        res == bucket_of(key.deep_view()),
        res < NUM_BUCKETS,
{
    (hash_data(key) % 16) as usize
}

// ---- rows on their way to blocks ----

/// Blocks of a bucket.
#[derive(Clone, Copy, Debug)]
pub struct BucketRun {
    pub start_block: u64,
    pub num_blocks: usize,
}

/// Rows of a bucket on their way to blocks.
pub struct GraceBuffer {
    pub writer: BlockWriter,
    /// The bytes of the rows since the last time they were written.
    pub total_bytes: usize,
}

/// The mathematical value of a [`GraceBuffer`].
pub struct Grace {
    pub packing: Packing,
    pub total: usize,
}

impl View for GraceBuffer {
    type V = Grace;

    open spec fn view(&self) -> Grace {
        Grace { packing: self.writer@, total: self.total_bytes }
    }
}

/// A buffer without rows.
pub open spec fn empty_grace() -> Grace {
    Grace { packing: block::nothing_packed(), total: 0 }
}

/// A row joins a buffer.
pub open spec fn grace_with(g: Grace, r: Seq<Val>, block_size: nat) -> Grace {
    let enc = row::encode_vals(r);
    Grace {
        packing: block::packing_with(g.packing, enc, block_size),
        total: row::saturated((g.total + enc.len()) as nat),
    }
}

/// Rows join a buffer in turn.
pub open spec fn grace_with_all(g: Grace, rows: Seq<Seq<Val>>, block_size: nat) -> Grace
    decreases rows.len(),
{
    if rows.len() == 0 {
        g
    } else {
        grace_with(grace_with_all(g, rows.drop_last(), block_size), rows.last(), block_size)
    }
}

/// The open block of a buffer is closed if anything stands in it.
pub open spec fn grace_finished(g: Grace, block_size: nat) -> Grace {
    Grace { packing: block::packing_finished(g.packing, block_size), ..g }
}

/// Rows of a bucket on their way to blocks, the blocks they went to, the disk, and
/// what was sent.
pub struct Spill {
    pub grace: Grace,
    pub runs: Seq<BucketRun>,
    pub disk: Disk,
    pub sent: Seq<u8>,
}

/// Blocks are written from `from` on, a limited number at once.
pub open spec fn parts_written(
    d: Disk,
    start: u64,
    data: Seq<u8>,
    block_size: nat,
    from: int,
    num: int,
) -> (Disk, Seq<u8>)
    decreases num - from,
{
    if from >= num {
        (d, Seq::empty())
    } else {
        let k = if num - from < MAX_WRITE_BLOCKS {
            num - from
        } else {
            MAX_WRITE_BLOCKS as int
        };
        let got = disk::wrote(
            d,
            disk::wrapped_sum(start, from as u64),
            k as usize,
            data.subrange(from * block_size, (from + k) * block_size),
        );
        let rest = parts_written(got.0, start, data, block_size, from + k, num);
        (rest.0, got.1 + rest.1)
    }
}

/// The rows of a bucket go to blocks of their own, if there are any.
pub open spec fn bucket_flushed(s: Spill, block_size: nat) -> Spill {
    let p = block::packing_finished(s.grace.packing, block_size);
    if p.full.len() == 0 {
        Spill { grace: Grace { packing: p, ..s.grace }, ..s }
    } else {
        let num = p.full.len() / block_size;
        let got = parts_written(
            disk::allocated(s.disk, num as u64),
            s.disk.next,
            p.full,
            block_size,
            0,
            num as int,
        );
        Spill {
            grace: Grace { packing: Packing { full: Seq::empty(), ..p }, total: 0 },
            runs: s.runs.push(BucketRun { start_block: s.disk.next, num_blocks: num as usize }),
            disk: got.0,
            sent: s.sent + got.1,
        }
    }
}

/// A row of a bucket goes on its way; where enough rows wait, they go to blocks.
pub open spec fn graced(s: Spill, r: Seq<Val>, block_size: nat, limit: nat) -> Spill {
    let more = Spill { grace: grace_with(s.grace, r, block_size), ..s };
    if more.grace.total >= limit {
        bucket_flushed(more, block_size)
    } else {
        more
    }
}

/// Rows of a bucket go on their way in turn.
pub open spec fn all_graced(s: Spill, rows: Seq<Seq<Val>>, block_size: nat, limit: nat) -> Spill
    decreases rows.len(),
{
    if rows.len() == 0 {
        s
    } else {
        graced(all_graced(s, rows.drop_last(), block_size, limit), rows.last(), block_size, limit)
    }
}

impl GraceBuffer {
    /// A buffer without rows.
    pub fn new() -> (res: GraceBuffer)
        ensures
            res@ == empty_grace(),
    {
        GraceBuffer { writer: BlockWriter::new(), total_bytes: 0 }
    }

    /// Takes a row.
    pub fn push_row(&mut self, row: &Vec<Data>, block_size: usize)
        requires
            block_size >= 2,
        ensures
            final(self)@ == grace_with(old(self)@, row.deep_view(), block_size as nat),
    {
        let mut enc: Vec<u8> = Vec::new();
        encode_row(row, &mut enc);
        assert(enc@ =~= row::encode_vals(row.deep_view()));
        self.total_bytes = self.total_bytes.saturating_add(enc.len());
        self.writer.push_encoded(enc.as_slice(), block_size);
    }

    /// Closes the open block if anything stands in it.
    pub fn finish_block(&mut self, block_size: usize)
        requires
            block_size >= 2,
        ensures
            final(self)@ == grace_finished(old(self)@, block_size as nat),
    {
        self.writer.finish_block(block_size);
    }
}

fn write_parts(
    disk: &mut DiskState,
    start: u64,
    data: &Vec<u8>,
    block_size: usize,
    num: usize,
    out: &mut Vec<u8>,
)
    requires
        old(disk).wf(),
        num * block_size <= data@.len(),
    ensures
        final(disk).wf(),
        old(disk).sized_for(block_size as nat) ==> final(disk).sized_for(
            block_size as nat,
        ),
        ({
            let got = parts_written(
                old(disk)@,
                start,
                data@,
                block_size as nat,
                0,
                num as int,
            );
            final(disk)@ == got.0 && final(out)@ == old(out)@ + got.1
        }),
{
    let ghost bs = block_size as nat;
    let ghost all = parts_written(disk@, start, data@, bs, 0, num as int);
    let ghost sent = out@;
    let mut from: usize = 0;
    while from < num
        invariant
            from <= num,
            bs == block_size,
            num * bs <= data@.len(),
            disk.wf(),
            old(disk).sized_for(bs) ==> disk.sized_for(bs),
            ({
                let rest = parts_written(disk@, start, data@, bs, from as int, num as int);
                all.0 == rest.0 && sent + all.1 == out@ + rest.1
            }),
        decreases num - from,
    {
        let ghost rest = parts_written(disk@, start, data@, bs, from as int, num as int);
        let k: usize = if num - from < MAX_WRITE_BLOCKS {
            num - from
        } else {
            MAX_WRITE_BLOCKS
        };
        proof {
            let (f, t) = (from as int, from + k);
            assert(0 <= f * bs && f * bs <= t * bs && t * bs <= num * bs) by (nonlinear_arith)
                requires
                    0 <= f <= t <= num,
                    bs >= 0,
            ;
            assert(data@.len() == data.len());
            assert(t * bs - f * bs == k * bs) by (nonlinear_arith)
                requires
                    t == f + k,
            ;
        }
        let part = slice_to_vec(
            slice_subrange(data.as_slice(), from * block_size, (from + k) * block_size),
        );
        let ghost before = out@;
        let mut bytes = write_blocks(disk, start.wrapping_add(from as u64), k, &part);
        let ghost here = bytes@;
        out.append(&mut bytes);
        proof {
            let next = parts_written(disk@, start, data@, bs, from + k, num as int);
            assert(before + (here + next.1) =~= out@ + next.1);
        }
        from = from + k;
    }
    proof {
        let rest = parts_written(disk@, start, data@, bs, num as int, num as int);
        assert(out@ + rest.1 =~= out@);
    }
}

/// Writes the rows of a bucket to blocks of their own, if there are any.
pub fn flush_bucket(
    buffer: &mut GraceBuffer,
    runs: &mut Vec<BucketRun>,
    disk: &mut DiskState,
    out: &mut Vec<u8>,
    block_size: usize,
)
    requires
        block_size >= 2,
        old(disk).wf(),
    ensures
        final(disk).wf(),
        old(disk).sized_for(block_size as nat) ==> final(disk).sized_for(
            block_size as nat,
        ),
        ({
            let s = Spill {
                grace: old(buffer)@,
                runs: old(runs)@,
                disk: old(disk)@,
                sent: old(out)@,
            };
            bucket_flushed(s, block_size as nat) == (Spill {
                grace: final(buffer)@,
                runs: final(runs)@,
                disk: final(disk)@,
                sent: final(out)@,
            })
        }),
{
    buffer.finish_block(block_size);
    if buffer.writer.bytes.len() == 0 {
        return;
    }
    let num: usize = buffer.writer.bytes.len() / block_size;
    proof {
        let (n, b, l) = (num as int, block_size as int, buffer.writer.bytes@.len() as int);
        assert(n * b <= l) by (nonlinear_arith)
            requires
                b > 0,
                l >= 0,
                n == l / b,
        ;
    }
    let start: u64 = allocate_anon_block_chunk(disk, num as u64);
    write_parts(disk, start, &buffer.writer.bytes, block_size, num, out);
    runs.push(BucketRun { start_block: start, num_blocks: num });
    buffer.writer.bytes = Vec::new();
    buffer.total_bytes = 0;
}

/// Sends a row of a bucket on its way.
fn grace_row(
    buffer: &mut GraceBuffer,
    runs: &mut Vec<BucketRun>,
    row: &Vec<Data>,
    disk: &mut DiskState,
    out: &mut Vec<u8>,
    block_size: usize,
    limit: usize,
)
    requires
        block_size >= 2,
        old(disk).wf(),
    ensures
        final(disk).wf(),
        old(disk).sized_for(block_size as nat) ==> final(disk).sized_for(
            block_size as nat,
        ),
        ({
            let s = Spill {
                grace: old(buffer)@,
                runs: old(runs)@,
                disk: old(disk)@,
                sent: old(out)@,
            };
            graced(s, row.deep_view(), block_size as nat, limit as nat) == (Spill {
                grace: final(buffer)@,
                runs: final(runs)@,
                disk: final(disk)@,
                sent: final(out)@,
            })
        }),
{
    buffer.push_row(row, block_size);
    if buffer.total_bytes >= limit {
        flush_bucket(buffer, runs, disk, out, block_size);
    }
}

// ---- a bucket ----

/// A bucket of a hash join.
pub struct JoinBucket {
    /// The keys of the right rows.
    pub bloom: BloomFilter,
    /// The right rows are in blocks.
    pub spilled: bool,
    /// The right rows in memory, while the right input is read.
    pub rows: Vec<Vec<Data>>,
    pub bytes: usize,
    /// The right rows in memory by their key, once the right input was read.
    pub table: KeyTable,
    pub right: GraceBuffer,
    pub right_runs: Vec<BucketRun>,
    pub left: GraceBuffer,
    pub left_runs: Vec<BucketRun>,
}

/// The mathematical value of a [`JoinBucket`].
pub struct Bucket {
    pub bloom: Set<int>,
    pub spilled: bool,
    pub rows: Seq<Seq<Val>>,
    pub bytes: usize,
    pub table: Seq<Seq<Val>>,
    pub right: Grace,
    pub right_runs: Seq<BucketRun>,
    pub left: Grace,
    pub left_runs: Seq<BucketRun>,
}

impl View for JoinBucket {
    type V = Bucket;

    open spec fn view(&self) -> Bucket {
        Bucket {
            bloom: self.bloom@,
            spilled: self.spilled,
            rows: self.rows.deep_view(),
            bytes: self.bytes,
            table: self.table.rows.deep_view(),
            right: self.right@,
            right_runs: self.right_runs@,
            left: self.left@,
            left_runs: self.left_runs@,
        }
    }
}

/// A bucket without rows.
pub open spec fn empty_bucket() -> Bucket {
    Bucket {
        bloom: Set::empty(),
        spilled: false,
        rows: Seq::empty(),
        bytes: 0,
        table: Seq::empty(),
        right: empty_grace(),
        right_runs: Seq::empty(),
        left: empty_grace(),
        left_runs: Seq::empty(),
    }
}

/// The right rows of a bucket go to blocks.
pub open spec fn bucket_spilled(b: Bucket, d: Disk, block_size: nat, limit: nat) -> (
    Bucket,
    Disk,
    Seq<u8>,
) {
    let s = all_graced(
        Spill { grace: b.right, runs: b.right_runs, disk: d, sent: Seq::empty() },
        b.rows,
        block_size,
        limit,
    );
    (
        Bucket {
            spilled: true,
            rows: Seq::empty(),
            bytes: 0,
            right: s.grace,
            right_runs: s.runs,
            ..b
        },
        s.disk,
        s.sent,
    )
}

impl JoinBucket {
    /// Whether the parts are in order, and the rows have the key column.
    pub open spec fn wf(self) -> bool {
        &&& self.bloom.wf()
        &&& self.table.wf()
        &&& forall|i: int|
            0 <= i < self.rows@.len() ==> (#[trigger] self.rows@[i])@.len() > self.table.key
    }

    /// A bucket without rows.
    pub fn new(right_key: usize) -> (res: JoinBucket)
        ensures
            res.wf(),
            res.table.key == right_key,
            res@ == empty_bucket(),
    {
        let b = JoinBucket {
            bloom: BloomFilter::new(),
            spilled: false,
            rows: Vec::new(),
            bytes: 0,
            table: KeyTable::new(right_key),
            right: GraceBuffer::new(),
            right_runs: Vec::new(),
            left: GraceBuffer::new(),
            left_runs: Vec::new(),
        };
        assert(b@.rows =~= Seq::<Seq<Val>>::empty());
        assert(b@.right_runs =~= Seq::<BucketRun>::empty());
        assert(b@.left_runs =~= Seq::<BucketRun>::empty());
        b
    }

    /// Sends the right rows to blocks.
    pub fn spill(&mut self, disk: &mut DiskState, out: &mut Vec<u8>, block_size: usize, limit: usize)
        requires
            block_size >= 2,
            old(disk).wf(),
            old(self).wf(),
        ensures
            final(disk).wf(),
            old(disk).sized_for(block_size as nat) ==> final(disk).sized_for(
                block_size as nat,
            ),
            final(self).wf(),
            final(self).table.key == old(self).table.key,
            ({
                let got = bucket_spilled(old(self)@, old(disk)@, block_size as nat, limit as nat);
                final(self)@ == got.0 && final(disk)@ == got.1 && final(out)@ == old(out)@ + got.2
            }),
    {
        let ghost rows = self.rows.deep_view();
        let ghost s0 = Spill {
            grace: self.right@,
            runs: self.right_runs@,
            disk: disk@,
            sent: out@,
        };
        let ghost s1 = Spill { sent: Seq::empty(), ..s0 };
        let mut i: usize = 0;
        assert(rows.take(0) =~= Seq::empty());
        while i < self.rows.len()
            invariant
                i <= self.rows@.len(),
                block_size >= 2,
                disk.wf(),
                old(disk).sized_for(block_size as nat) ==> disk.sized_for(block_size as nat),
                rows == self.rows.deep_view(),
                self.wf(),
                self.table == old(self).table,
                self@ == (Bucket { right: self@.right, right_runs: self@.right_runs, ..old(self)@ }),
                all_graced(s0, rows.take(i as int), block_size as nat, limit as nat) == (Spill {
                    grace: self.right@,
                    runs: self.right_runs@,
                    disk: disk@,
                    sent: out@,
                }),
            decreases self.rows@.len() - i,
        {
            proof {
                assert(rows.take(i + 1).drop_last() =~= rows.take(i as int));
                assert(rows.take(i + 1).last() == self.rows@[i as int].deep_view());
            }
            grace_row(
                &mut self.right,
                &mut self.right_runs,
                &self.rows[i],
                disk,
                out,
                block_size,
                limit,
            );
            i += 1;
        }
        proof {
            assert(rows.take(i as int) =~= rows);
            lemma_sent_apart(s1, old(out)@, rows, block_size as nat, limit as nat);
            assert(old(out)@ + s1.sent =~= s0.sent);
        }
        self.rows = Vec::new();
        self.spilled = true;
        self.bytes = 0;
        assert(self.rows.deep_view() =~= Seq::<Seq<Val>>::empty());
    }

    /// Takes a right row: into memory, or on its way to blocks.
    pub fn take_right(
        &mut self,
        row: &Vec<Data>,
        weight: usize,
        disk: &mut DiskState,
        out: &mut Vec<u8>,
        block_size: usize,
        limit: usize,
    )
        requires
            block_size >= 2,
            old(disk).wf(),
            old(self).wf(),
            row@.len() > old(self).table.key,
        ensures
            final(disk).wf(),
            old(disk).sized_for(block_size as nat) ==> final(disk).sized_for(
                block_size as nat,
            ),
            final(self).wf(),
            final(self).table.key == old(self).table.key,
            ({
                let got = right_taken(
                    old(self)@,
                    row.deep_view(),
                    old(self).table.key as int,
                    weight,
                    old(disk)@,
                    block_size as nat,
                    limit as nat,
                );
                final(self)@ == got.0 && final(disk)@ == got.1 && final(out)@ == old(out)@ + got.2
            }),
    {
        let ghost before = self@;
        let ghost sent = out@;
        self.bloom.insert(&row[self.table.key]);
        if self.spilled {
            proof {
                let s = Spill {
                    grace: before.right,
                    runs: before.right_runs,
                    disk: disk@,
                    sent: Seq::empty(),
                };
                lemma_graced_apart(s, sent, row.deep_view(), block_size as nat, limit as nat);
                assert(sent + Seq::<u8>::empty() =~= sent);
            }
            grace_row(
                &mut self.right,
                &mut self.right_runs,
                row,
                disk,
                out,
                block_size,
                limit,
            );
        } else {
            let copy = clone_row(row);
            self.rows.push(copy);
            assert(self.rows.deep_view() =~= before.rows.push(row.deep_view()));
            self.bytes = self.bytes.saturating_add(weight);
            assert(sent + Seq::<u8>::empty() =~= sent);
        }
    }

    /// Ends the right rows: those on their way go to blocks, those in memory can be
    /// found by their key.
    pub fn finish_right(&mut self, disk: &mut DiskState, out: &mut Vec<u8>, block_size: usize)
        requires
            block_size >= 2,
            old(disk).wf(),
            old(self).wf(),
        ensures
            final(disk).wf(),
            old(disk).sized_for(block_size as nat) ==> final(disk).sized_for(
                block_size as nat,
            ),
            final(self).wf(),
            final(self).table.key == old(self).table.key,
            ({
                let got = right_done(old(self)@, old(disk)@, block_size as nat);
                final(self)@ == got.0 && final(disk)@ == got.1 && final(out)@ == old(out)@ + got.2
            }),
    {
        let ghost before = self@;
        let ghost sent = out@;
        if self.spilled {
            proof {
                let s = Spill {
                    grace: before.right,
                    runs: before.right_runs,
                    disk: disk@,
                    sent: Seq::empty(),
                };
                lemma_flushed_apart(s, sent, block_size as nat);
                assert(sent + Seq::<u8>::empty() =~= sent);
            }
            flush_bucket(&mut self.right, &mut self.right_runs, disk, out, block_size);
        } else {
            let ghost rows = self.rows.deep_view();
            let ghost first = self.table.rows.deep_view();
            let mut i: usize = 0;
            assert(first + rows.take(0) =~= first);
            while i < self.rows.len()
                invariant
                    i <= self.rows@.len(),
                    rows == self.rows.deep_view(),
                    self.wf(),
                    self.table.key == old(self).table.key,
                    before == old(self)@,
                    self@ == (Bucket { table: self@.table, ..before }),
                    self@.table == first + rows.take(i as int),
                decreases self.rows@.len() - i,
            {
                assert(self.rows@[i as int]@.len() > self.table.key);
                let r = clone_row(&self.rows[i]);
                self.table.insert(r);
                assert(first + rows.take(i + 1) =~= (first + rows.take(i as int)).push(
                    rows[i as int],
                ));
                i += 1;
            }
            assert(rows.take(i as int) =~= rows);
            self.rows = Vec::new();
            assert(self.rows.deep_view() =~= Seq::<Seq<Val>>::empty());
            assert(sent + Seq::<u8>::empty() =~= sent);
        }
    }

    /// Takes a left row: its pairs with right rows in memory are appended, or it goes on
    /// its way to blocks, or it has no match.
    pub fn take_left(
        &mut self,
        row: &Vec<Data>,
        left_key: usize,
        disk: &mut DiskState,
        out: &mut Vec<u8>,
        pairs: &mut Vec<Vec<Data>>,
        block_size: usize,
        limit: usize,
    )
        requires
            block_size >= 2,
            old(disk).wf(),
            old(self).wf(),
            left_key < row@.len(),
        ensures
            final(disk).wf(),
            old(disk).sized_for(block_size as nat) ==> final(disk).sized_for(
                block_size as nat,
            ),
            final(self).wf(),
            final(self).table.key == old(self).table.key,
            ({
                let got = left_taken(
                    old(self)@,
                    row.deep_view(),
                    left_key as int,
                    old(self).table.key as int,
                    old(disk)@,
                    block_size as nat,
                    limit as nat,
                );
                &&& final(self)@ == got.0
                &&& final(disk)@ == got.1
                &&& final(out)@ == old(out)@ + got.2
                &&& final(pairs).deep_view() == old(pairs).deep_view() + got.3
            }),
    {
        let ghost before = self@;
        let ghost sent = out@;
        let ghost given = pairs.deep_view();
        assert(sent + Seq::<u8>::empty() =~= sent);
        assert(given + Seq::<Seq<Val>>::empty() =~= given);
        if !self.bloom.might_contain(&row[left_key]) {
            return;
        }
        if self.spilled {
            if self.right_runs.len() == 0 {
                return;
            }
            proof {
                let s = Spill {
                    grace: before.left,
                    runs: before.left_runs,
                    disk: disk@,
                    sent: Seq::empty(),
                };
                lemma_graced_apart(s, sent, row.deep_view(), block_size as nat, limit as nat);
            }
            grace_row(
                &mut self.left,
                &mut self.left_runs,
                row,
                disk,
                out,
                block_size,
                limit,
            );
        } else {
            let mut found: Vec<Vec<Data>> = Vec::new();
            assert(found.deep_view() =~= Seq::<Seq<Val>>::empty());
            self.table.find(&row[left_key], &mut found);
            let ghost m = hash::matching(
                before.table,
                self.table.key as int,
                row.deep_view()[left_key as int],
            );
            assert(found.deep_view() =~= m);
            push_pairs(row, &found, true, pairs);
        }
    }

    /// Ends the left rows: those on their way go to blocks.
    pub fn finish_left(&mut self, disk: &mut DiskState, out: &mut Vec<u8>, block_size: usize)
        requires
            block_size >= 2,
            old(disk).wf(),
            old(self).wf(),
        ensures
            final(disk).wf(),
            old(disk).sized_for(block_size as nat) ==> final(disk).sized_for(
                block_size as nat,
            ),
            final(self).wf(),
            final(self).table.key == old(self).table.key,
            ({
                let got = left_done(old(self)@, old(disk)@, block_size as nat);
                final(self)@ == got.0 && final(disk)@ == got.1 && final(out)@ == old(out)@ + got.2
            }),
    {
        let ghost before = self@;
        let ghost sent = out@;
        assert(sent + Seq::<u8>::empty() =~= sent);
        if self.spilled {
            proof {
                let s = Spill {
                    grace: before.left,
                    runs: before.left_runs,
                    disk: disk@,
                    sent: Seq::empty(),
                };
                lemma_flushed_apart(s, sent, block_size as nat);
            }
            flush_bucket(&mut self.left, &mut self.left_runs, disk, out, block_size);
        }
    }
}

/// A row with each of others, one side first.
pub open spec fn paired(r: Seq<Val>, others: Seq<Seq<Val>>, first: bool) -> Seq<Seq<Val>> {
    others.map_values(
        |o: Seq<Val>|
            if first {
                r + o
            } else {
                o + r
            },
    )
}

/// Appends the pairs of a row with each of others.
pub fn push_pairs(row: &Vec<Data>, others: &Vec<Vec<Data>>, first: bool, pairs: &mut Vec<Vec<Data>>)
    ensures
        final(pairs).deep_view() == old(pairs).deep_view() + paired(
            row.deep_view(),
            others.deep_view(),
            first,
        ),
{
    let ghost given = pairs.deep_view();
    let ghost o = others.deep_view();
    let mut i: usize = 0;
    assert(given + paired(row.deep_view(), o, first).take(0) =~= given);
    while i < others.len()
        invariant
            i <= others@.len(),
            o == others.deep_view(),
            pairs.deep_view() == given + paired(row.deep_view(), o, first).take(i as int),
        decreases others@.len() - i,
    {
        let ghost before = pairs.deep_view();
        let pair = if first {
            join_row(row, &others[i])
        } else {
            join_row(&others[i], row)
        };
        pairs.push(pair);
        assert(pairs.deep_view() =~= before.push(pair.deep_view()));
        assert(pairs.deep_view() =~= given + paired(row.deep_view(), o, first).take(i + 1));
        i += 1;
    }
    assert(paired(row.deep_view(), o, first).take(i as int) =~= paired(row.deep_view(), o, first));
}

/// A right row comes to a bucket.
pub open spec fn right_taken(
    b: Bucket,
    r: Seq<Val>,
    key: int,
    weight: usize,
    d: Disk,
    block_size: nat,
    limit: nat,
) -> (Bucket, Disk, Seq<u8>) {
    let seen = Bucket { bloom: b.bloom.union(hash::bit_places(r[key])), ..b };
    if b.spilled {
        let s = graced(
            Spill { grace: b.right, runs: b.right_runs, disk: d, sent: Seq::empty() },
            r,
            block_size,
            limit,
        );
        (Bucket { right: s.grace, right_runs: s.runs, ..seen }, s.disk, s.sent)
    } else {
        (
            Bucket {
                rows: b.rows.push(r),
                bytes: row::saturated((b.bytes + weight) as nat),
                ..seen
            },
            d,
            Seq::empty(),
        )
    }
}

/// The right rows of a bucket are complete.
pub open spec fn right_done(b: Bucket, d: Disk, block_size: nat) -> (Bucket, Disk, Seq<u8>) {
    if b.spilled {
        let s = bucket_flushed(
            Spill { grace: b.right, runs: b.right_runs, disk: d, sent: Seq::empty() },
            block_size,
        );
        (Bucket { right: s.grace, right_runs: s.runs, ..b }, s.disk, s.sent)
    } else {
        (Bucket { table: b.table + b.rows, rows: Seq::empty(), ..b }, d, Seq::empty())
    }
}

/// A left row comes to a bucket. One whose key the filter does not know, or whose
/// bucket has no right row, has no match.
pub open spec fn left_taken(
    b: Bucket,
    r: Seq<Val>,
    left_key: int,
    right_key: int,
    d: Disk,
    block_size: nat,
    limit: nat,
) -> (Bucket, Disk, Seq<u8>, Seq<Seq<Val>>) {
    if !hash::bit_places(r[left_key]).subset_of(b.bloom) {
        (b, d, Seq::empty(), Seq::empty())
    } else if b.spilled {
        if b.right_runs.len() == 0 {
            (b, d, Seq::empty(), Seq::empty())
        } else {
            let s = graced(
                Spill { grace: b.left, runs: b.left_runs, disk: d, sent: Seq::empty() },
                r,
                block_size,
                limit,
            );
            (Bucket { left: s.grace, left_runs: s.runs, ..b }, s.disk, s.sent, Seq::empty())
        }
    } else {
        (
            b,
            d,
            Seq::empty(),
            paired(r, hash::matching(b.table, right_key, r[left_key]), true),
        )
    }
}

/// The left rows of a bucket are complete.
pub open spec fn left_done(b: Bucket, d: Disk, block_size: nat) -> (Bucket, Disk, Seq<u8>) {
    if b.spilled {
        let s = bucket_flushed(
            Spill { grace: b.left, runs: b.left_runs, disk: d, sent: Seq::empty() },
            block_size,
        );
        (Bucket { left: s.grace, left_runs: s.runs, ..b }, s.disk, s.sent)
    } else {
        (b, d, Seq::empty())
    }
}

/// What was sent before does not matter for what is sent.
proof fn lemma_sent_apart(
    s: Spill,
    before: Seq<u8>,
    rows: Seq<Seq<Val>>,
    block_size: nat,
    limit: nat,
)
    ensures
        ({
            let a = all_graced(s, rows, block_size, limit);
            all_graced(Spill { sent: before + s.sent, ..s }, rows, block_size, limit) == (Spill {
                sent: before + a.sent,
                ..a
            })
        }),
    decreases rows.len(),
{
    if rows.len() > 0 {
        lemma_sent_apart(s, before, rows.drop_last(), block_size, limit);
        let a = all_graced(s, rows.drop_last(), block_size, limit);
        lemma_graced_apart(a, before, rows.last(), block_size, limit);
    }
}

proof fn lemma_graced_apart(s: Spill, before: Seq<u8>, r: Seq<Val>, block_size: nat, limit: nat)
    ensures
        ({
            let a = graced(s, r, block_size, limit);
            graced(Spill { sent: before + s.sent, ..s }, r, block_size, limit) == (Spill {
                sent: before + a.sent,
                ..a
            })
        }),
{
    let more = Spill { grace: grace_with(s.grace, r, block_size), ..s };
    lemma_flushed_apart(more, before, block_size);
}

proof fn lemma_flushed_apart(s: Spill, before: Seq<u8>, block_size: nat)
    ensures
        ({
            let a = bucket_flushed(s, block_size);
            bucket_flushed(Spill { sent: before + s.sent, ..s }, block_size) == (Spill {
                sent: before + a.sent,
                ..a
            })
        }),
{
    let p = block::packing_finished(s.grace.packing, block_size);
    let num = p.full.len() / block_size;
    let got = parts_written(
        disk::allocated(s.disk, num as u64),
        s.disk.next,
        p.full,
        block_size,
        0,
        num as int,
    );
    assert((before + s.sent) + got.1 =~= before + (s.sent + got.1));
}

} // verus!
