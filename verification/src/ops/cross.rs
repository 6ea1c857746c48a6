//! Cross joins: the right rows are kept in memory, or in blocks once they are too
//! many, and every left row meets all of them.

use vstd::multiset::Multiset;
use vstd::prelude::*;
use vstd::slice::slice_subrange;

use crate::block::{pack_rows_into_blocks, unpack_block};
use crate::block;
use crate::disk::{allocate_anon_block_chunk, write_blocks, Disk, DiskState};
use crate::disk;
use crate::error::{DbError, Fault};
use crate::ops::rows::{clone_row, join_row};
use crate::ops;
use crate::query::{Predicate, Test};
use crate::row::{apply_split_predicates, encode_row_len};
use crate::row;
use crate::schema::{copy_columns, Column, ColumnInfo};
use crate::seqs;
use crate::value::{Data, Val};

verus! {

/// A cross join under way.
pub struct CrossJoin {
    pub block_size: usize,
    /// The memory that the right rows and the left rows may take, each.
    pub limit: usize,
    pub left_width: usize,
    pub right_columns: Vec<ColumnInfo>,
    /// The columns of the left input and then those of the right input.
    pub columns: Vec<ColumnInfo>,
    pub predicates: Option<Vec<Predicate>>,
    pub right_start_block: u64,
    pub total_right_blocks: usize,
    pub right_rows: Vec<Vec<Data>>,
    pub right_bytes: usize,
    pub left_chunk: Vec<Vec<Data>>,
    pub left_bytes: usize,
}

/// The mathematical value of a [`CrossJoin`].
pub struct Cross {
    pub block_size: nat,
    pub limit: nat,
    pub left_width: nat,
    pub right_columns: Seq<Column>,
    pub columns: Seq<Column>,
    pub tests: Option<Seq<Test>>,
    pub right_start: u64,
    pub right_blocks: usize,
    pub right_rows: Seq<Seq<Val>>,
    pub right_bytes: usize,
    pub left_chunk: Seq<Seq<Val>>,
    pub left_bytes: usize,
}

/// The mathematical value of optional predicates.
pub open spec fn tests_view(p: Option<Vec<Predicate>>) -> Option<Seq<Test>> {
    match p {
        Some(v) => Some(v.deep_view()),
        None => None,
    }
}

impl View for CrossJoin {
    type V = Cross;

    open spec fn view(&self) -> Cross {
        Cross {
            block_size: self.block_size as nat,
            limit: self.limit as nat,
            left_width: self.left_width as nat,
            right_columns: self.right_columns.deep_view(),
            columns: self.columns.deep_view(),
            tests: tests_view(self.predicates),
            right_start: self.right_start_block,
            right_blocks: self.total_right_blocks,
            right_rows: self.right_rows.deep_view(),
            right_bytes: self.right_bytes,
            left_chunk: self.left_chunk.deep_view(),
            left_bytes: self.left_bytes,
        }
    }
}

/// Whether all rows have a width.
pub open spec fn of_width(rows: Seq<Seq<Val>>, width: nat) -> bool {
    forall|i: int| 0 <= i < rows.len() ==> (#[trigger] rows[i]).len() == width
}

impl Cross {
    /// Whether the widths fit together.
    pub open spec fn wf(self) -> bool {
        &&& self.block_size >= 2
        &&& self.columns.len() == self.left_width + self.right_columns.len()
        &&& of_width(self.right_rows, self.right_columns.len())
        &&& of_width(self.left_chunk, self.left_width)
    }
}

// ---- pairs of rows ----

/// Whether a pair of rows passes the tests, where there are any.
pub open spec fn pair_outcome(
    pair: Seq<Val>,
    columns: Seq<Column>,
    tests: Option<Seq<Test>>,
) -> Result<bool, Fault> {
    match tests {
        None => Ok(true),
        Some(t) => row::pair_tests_outcome(pair, columns, t),
    }
}

/// A left row with each right row, as far as the pairs pass, up to the first test
/// that cannot be made.
pub open spec fn with_each(
    left: Seq<Val>,
    right: Seq<Seq<Val>>,
    columns: Seq<Column>,
    tests: Option<Seq<Test>>,
) -> (Seq<Seq<Val>>, Option<Fault>)
    decreases right.len(),
{
    if right.len() == 0 {
        (Seq::empty(), None)
    } else {
        let before = with_each(left, right.drop_last(), columns, tests);
        if before.1 is Some {
            before
        } else {
            let pair = left + right.last();
            match pair_outcome(pair, columns, tests) {
                Err(e) => (before.0, Some(e)),
                Ok(true) => (before.0.push(pair), None),
                Ok(false) => before,
            }
        }
    }
}

/// Each left row with each right row.
pub open spec fn all_pairs(
    left: Seq<Seq<Val>>,
    right: Seq<Seq<Val>>,
    columns: Seq<Column>,
    tests: Option<Seq<Test>>,
) -> (Seq<Seq<Val>>, Option<Fault>)
    decreases left.len(),
{
    if left.len() == 0 {
        (Seq::empty(), None)
    } else {
        let before = all_pairs(left.drop_last(), right, columns, tests);
        if before.1 is Some {
            before
        } else {
            let here = with_each(left.last(), right, columns, tests);
            (before.0 + here.0, here.1)
        }
    }
}

/// Each left row with each row of the first `n` blocks of the data, block by block.
pub open spec fn block_pairs(
    left: Seq<Seq<Val>>,
    data: Seq<u8>,
    block_size: nat,
    n: nat,
    right_columns: Seq<Column>,
    columns: Seq<Column>,
    tests: Option<Seq<Test>>,
) -> (Seq<Seq<Val>>, Option<Fault>)
    decreases n,
{
    if n == 0 {
        (Seq::empty(), None)
    } else {
        let before = block_pairs(
            left,
            data,
            block_size,
            (n - 1) as nat,
            right_columns,
            columns,
            tests,
        );
        if before.1 is Some {
            before
        } else {
            match block::block_rows(
                block::nth_block(data, block_size, n - 1),
                block_size,
                right_columns,
            ) {
                Err(e) => (before.0, Some(e)),
                Ok(right) => {
                    let here = all_pairs(left, right, columns, tests);
                    (before.0 + here.0, here.1)
                },
            }
        }
    }
}

proof fn lemma_with_each_stops(
    left: Seq<Val>,
    right: Seq<Seq<Val>>,
    columns: Seq<Column>,
    tests: Option<Seq<Test>>,
    n: int,
)
    requires
        0 <= n <= right.len(),
        with_each(left, right.take(n), columns, tests).1 is Some,
    ensures
        with_each(left, right, columns, tests) == with_each(left, right.take(n), columns, tests),
    decreases right.len() - n,
{
    if n == right.len() {
        assert(right.take(n) =~= right);
    } else {
        assert(right.take(n + 1).drop_last() =~= right.take(n));
        lemma_with_each_stops(left, right, columns, tests, n + 1);
    }
}

proof fn lemma_all_pairs_stop(
    left: Seq<Seq<Val>>,
    right: Seq<Seq<Val>>,
    columns: Seq<Column>,
    tests: Option<Seq<Test>>,
    n: int,
)
    requires
        0 <= n <= left.len(),
        all_pairs(left.take(n), right, columns, tests).1 is Some,
    ensures
        all_pairs(left, right, columns, tests) == all_pairs(left.take(n), right, columns, tests),
    decreases left.len() - n,
{
    if n == left.len() {
        assert(left.take(n) =~= left);
    } else {
        assert(left.take(n + 1).drop_last() =~= left.take(n));
        lemma_all_pairs_stop(left, right, columns, tests, n + 1);
    }
}

proof fn lemma_block_pairs_stop(
    left: Seq<Seq<Val>>,
    data: Seq<u8>,
    block_size: nat,
    k: nat,
    n: nat,
    right_columns: Seq<Column>,
    columns: Seq<Column>,
    tests: Option<Seq<Test>>,
)
    requires
        k <= n,
        block_pairs(left, data, block_size, k, right_columns, columns, tests).1 is Some,
    ensures
        block_pairs(left, data, block_size, n, right_columns, columns, tests) == block_pairs(
            left,
            data,
            block_size,
            k,
            right_columns,
            columns,
            tests,
        ),
    decreases n,
{
    if k < n {
        lemma_block_pairs_stop(
            left,
            data,
            block_size,
            k,
            (n - 1) as nat,
            right_columns,
            columns,
            tests,
        );
    }
}


fn pair_with_each(
    left: &Vec<Data>,
    right: &Vec<Vec<Data>>,
    columns: &Vec<ColumnInfo>,
    predicates: &Option<Vec<Predicate>>,
    out: &mut Vec<Vec<Data>>,
) -> (res: Result<(), DbError>)
    requires
        forall|i: int|
            0 <= i < right@.len() ==> left@.len() + (#[trigger] right@[i])@.len() >= columns@.len(),
    ensures
        ({
            let got = with_each(
                left.deep_view(),
                right.deep_view(),
                columns.deep_view(),
                tests_view(*predicates),
            );
            final(out).deep_view() == old(out).deep_view() + got.0 && ops::fault_of(res) == got.1
        }),
{
    let ghost (l, r) = (left.deep_view(), right.deep_view());
    let ghost (c, t) = (columns.deep_view(), tests_view(*predicates));
    let ghost start = out.deep_view();
    let mut i: usize = 0;
    assert(r.take(0) =~= Seq::empty());
    assert(start + Seq::<Seq<Val>>::empty() =~= start);
    while i < right.len()
        invariant
            i <= right@.len(),
            l == left.deep_view(),
            r == right.deep_view(),
            c == columns.deep_view(),
            t == tests_view(*predicates),
            start == old(out).deep_view(),
            forall|k: int|
                0 <= k < right@.len() ==> left@.len() + (#[trigger] right@[k])@.len()
                    >= columns@.len(),
            with_each(l, r.take(i as int), c, t).1 is None,
            out.deep_view() == start + with_each(l, r.take(i as int), c, t).0,
        decreases right@.len() - i,
    {
        let ghost so_far = with_each(l, r.take(i as int), c, t).0;
        proof {
            assert(r.take(i + 1).drop_last() =~= r.take(i as int));
            assert(r.take(i + 1).last() == right@[i as int].deep_view());
        }
        let passes = match predicates {
            None => true,
            Some(p) => match apply_split_predicates(left, &right[i], columns, p) {
                Ok(b) => b,
                Err(e) => {
                    proof {
                        lemma_with_each_stops(l, r, c, t, i + 1);
                    }
                    return Err(e);
                },
            },
        };
        if passes {
            let pair = join_row(left, &right[i]);
            let ghost before = out.deep_view();
            out.push(pair);
            assert(out.deep_view() =~= before.push(pair.deep_view()));
            assert(before.push(pair.deep_view()) =~= start + so_far.push(pair.deep_view()));
        }
        i += 1;
    }
    assert(r.take(i as int) =~= r);
    Ok(())
}

fn pair_all(
    left: &Vec<Vec<Data>>,
    right: &Vec<Vec<Data>>,
    columns: &Vec<ColumnInfo>,
    predicates: &Option<Vec<Predicate>>,
    out: &mut Vec<Vec<Data>>,
) -> (res: Result<(), DbError>)
    requires
        forall|k: int, i: int|
            0 <= k < left@.len() && 0 <= i < right@.len() ==> (#[trigger] left@[k])@.len() + (
            #[trigger] right@[i])@.len() >= columns@.len(),
    ensures
        ({
            let got = all_pairs(
                left.deep_view(),
                right.deep_view(),
                columns.deep_view(),
                tests_view(*predicates),
            );
            final(out).deep_view() == old(out).deep_view() + got.0 && ops::fault_of(res) == got.1
        }),
{
    let ghost (l, r) = (left.deep_view(), right.deep_view());
    let ghost (c, t) = (columns.deep_view(), tests_view(*predicates));
    let ghost start = out.deep_view();
    let mut i: usize = 0;
    assert(l.take(0) =~= Seq::empty());
    assert(start + Seq::<Seq<Val>>::empty() =~= start);
    while i < left.len()
        invariant
            i <= left@.len(),
            l == left.deep_view(),
            r == right.deep_view(),
            c == columns.deep_view(),
            t == tests_view(*predicates),
            start == old(out).deep_view(),
            forall|k: int, j: int|
                0 <= k < left@.len() && 0 <= j < right@.len() ==> (#[trigger] left@[k])@.len() + (
                #[trigger] right@[j])@.len() >= columns@.len(),
            all_pairs(l.take(i as int), r, c, t).1 is None,
            out.deep_view() == start + all_pairs(l.take(i as int), r, c, t).0,
        decreases left@.len() - i,
    {
        let ghost so_far = all_pairs(l.take(i as int), r, c, t).0;
        let ghost here = with_each(l[i as int], r, c, t);
        proof {
            assert(l.take(i + 1).drop_last() =~= l.take(i as int));
            assert(l.take(i + 1).last() == left@[i as int].deep_view());
        }
        let got = pair_with_each(&left[i], right, columns, predicates, out);
        assert((start + so_far) + here.0 =~= start + (so_far + here.0));
        match got {
            Ok(_) => {},
            Err(e) => {
                proof {
                    lemma_all_pairs_stop(l, r, c, t, i + 1);
                }
                return Err(e);
            },
        }
        i += 1;
    }
    assert(l.take(i as int) =~= l);
    Ok(())
}

// ---- the course of the join ----

/// The right rows go into blocks.
pub open spec fn spilled(c: Cross, d: Disk) -> (Cross, Disk, Seq<u8>) {
    let packed = block::packed_rows(c.right_rows, c.block_size);
    let num = (packed.len() / c.block_size) as usize;
    let start = d.next;
    let after = disk::wrote(disk::allocated(d, num as u64), start, num, packed);
    (
        Cross {
            right_start: if c.right_start == 0 {
                start
            } else {
                c.right_start
            },
            right_blocks: row::saturated((c.right_blocks + num) as nat),
            right_rows: Seq::empty(),
            right_bytes: 0,
            ..c
        },
        after.0,
        after.1,
    )
}

/// A right row arrives.
pub open spec fn with_right(c: Cross, r: Seq<Val>, d: Disk) -> (Cross, Disk, Seq<u8>) {
    let more = Cross {
        right_rows: c.right_rows.push(r),
        right_bytes: row::saturated((c.right_bytes + row::saturated(row::row_weight(r))) as nat),
        ..c
    };
    if more.right_bytes >= c.limit {
        spilled(more, d)
    } else {
        (more, d, Seq::empty())
    }
}

/// The right rows are complete: where some are in blocks, so are all.
pub open spec fn right_finished(c: Cross, d: Disk) -> (Cross, Disk, Seq<u8>) {
    if c.right_rows.len() > 0 && c.right_blocks > 0 {
        spilled(c, d)
    } else {
        (c, d, Seq::empty())
    }
}

impl CrossJoin {
    /// Whether the widths fit together.
    pub open spec fn wf(self) -> bool {
        self@.wf()
    }

    /// A cross join before the first row.
    pub fn new(
        left_columns: &Vec<ColumnInfo>,
        right_columns: Vec<ColumnInfo>,
        predicates: Option<Vec<Predicate>>,
        block_size: usize,
        limit: usize,
    ) -> (res: CrossJoin)
        requires
            block_size >= 2,
        ensures
            res.wf(),
            res@ == (Cross {
                block_size: block_size as nat,
                limit: limit as nat,
                left_width: left_columns@.len(),
                right_columns: right_columns.deep_view(),
                columns: left_columns.deep_view() + right_columns.deep_view(),
                tests: tests_view(predicates),
                right_start: 0,
                right_blocks: 0,
                right_rows: Seq::empty(),
                right_bytes: 0,
                left_chunk: Seq::empty(),
                left_bytes: 0,
            }),
    {
        let mut columns = copy_columns(left_columns);
        let mut more = copy_columns(&right_columns);
        columns.append(&mut more);
        assert(columns.deep_view() =~= left_columns.deep_view() + right_columns.deep_view());
        let c = CrossJoin {
            block_size,
            limit,
            left_width: left_columns.len(),
            right_columns,
            columns,
            predicates,
            right_start_block: 0,
            total_right_blocks: 0,
            right_rows: Vec::new(),
            right_bytes: 0,
            left_chunk: Vec::new(),
            left_bytes: 0,
        };
        assert(c@.right_rows =~= Seq::<Seq<Val>>::empty());
        assert(c@.left_chunk =~= Seq::<Seq<Val>>::empty());
        c
    }

    fn spill(&mut self, disk: &mut DiskState, out: &mut Vec<u8>)
        requires
            old(self).wf(),
            old(disk).wf(),
        ensures
            final(self).wf(),
            final(disk).wf(),
            old(disk).sized_for(old(self).block_size as nat) ==> final(disk).sized_for(
                old(self).block_size as nat,
            ),
            ({
                let got = spilled(old(self)@, old(disk)@);
                final(self)@ == got.0 && final(disk)@ == got.1 && final(out)@ == old(out)@ + got.2
            }),
    {
        let packed = pack_rows_into_blocks(&self.right_rows, self.block_size);
        let num: usize = packed.len() / self.block_size;
        proof {
            block::packed_rows_fill_blocks(
                block::rows_bytes(self.right_rows.deep_view()),
                self.block_size as nat,
            );
        }
        let start: u64 = allocate_anon_block_chunk(disk, num as u64);
        if self.right_start_block == 0 {
            self.right_start_block = start;
        }
        let mut sent = write_blocks(disk, start, num, &packed);
        out.append(&mut sent);
        self.total_right_blocks = self.total_right_blocks.saturating_add(num);
        self.right_rows = Vec::new();
        assert(self.right_rows.deep_view() =~= Seq::<Seq<Val>>::empty());
        self.right_bytes = 0;
    }

    /// Takes a row of the right input; where the rows have become too many, they are
    /// written to blocks. Appends the bytes to send.
    pub fn push_right(&mut self, row: &Vec<Data>, disk: &mut DiskState, out: &mut Vec<u8>)
        requires
            old(self).wf(),
            old(disk).wf(),
            row@.len() == old(self).right_columns@.len(),
        ensures
            final(self).wf(),
            final(disk).wf(),
            old(disk).sized_for(old(self).block_size as nat) ==> final(disk).sized_for(
                old(self).block_size as nat,
            ),
            ({
                let got = with_right(old(self)@, row.deep_view(), old(disk)@);
                final(self)@ == got.0 && final(disk)@ == got.1 && final(out)@ == old(out)@ + got.2
            }),
    {
        let ghost before = self.right_rows.deep_view();
        let ghost sent = out@;
        self.right_bytes = self.right_bytes.saturating_add(encode_row_len(row));
        let copy = clone_row(row);
        self.right_rows.push(copy);
        assert(self.right_rows.deep_view() =~= before.push(row.deep_view()));
        assert(row.deep_view().len() == row@.len());
        if self.right_bytes >= self.limit {
            self.spill(disk, out);
        }
        assert(sent + Seq::<u8>::empty() =~= sent);
    }

    /// Ends the right input.
    pub fn finish_right(&mut self, disk: &mut DiskState, out: &mut Vec<u8>)
        requires
            old(self).wf(),
            old(disk).wf(),
        ensures
            final(self).wf(),
            final(disk).wf(),
            old(disk).sized_for(old(self).block_size as nat) ==> final(disk).sized_for(
                old(self).block_size as nat,
            ),
            ({
                let got = right_finished(old(self)@, old(disk)@);
                final(self)@ == got.0 && final(disk)@ == got.1 && final(out)@ == old(out)@ + got.2
            }),
    {
        let ghost sent = out@;
        assert(self@.right_rows.len() == self.right_rows@.len());
        if self.right_rows.len() > 0 && self.total_right_blocks > 0 {
            self.spill(disk, out);
        }
        assert(sent + Seq::<u8>::empty() =~= sent);
    }

    /// Says whether the right input had no row, so that there is no pair.
    pub fn right_is_empty(&self) -> (res: bool)
        ensures
            res == (self@.right_blocks == 0 && self@.right_rows.len() == 0),
    {
        assert(self@.right_rows.len() == self.right_rows@.len());
        self.total_right_blocks == 0 && self.right_rows.len() == 0
    }

    /// Says whether all right rows are in memory.
    pub fn right_in_memory(&self) -> (res: bool)
        ensures
            res == (self@.right_blocks == 0),
    {
        self.total_right_blocks == 0
    }

    /// Appends the pairs of a left row with the right rows in memory.
    pub fn pair_in_memory(&self, left: &Vec<Data>, out: &mut Vec<Vec<Data>>) -> (res: Result<
        (),
        DbError,
    >)
        requires
            self.wf(),
            left@.len() == self.left_width,
        ensures
            ({
                let got = with_each(
                    left.deep_view(),
                    self@.right_rows,
                    self@.columns,
                    self@.tests,
                );
                final(out).deep_view() == old(out).deep_view() + got.0 && ops::fault_of(res) == got.1
            }),
    {
        assert forall|i: int| 0 <= i < self.right_rows@.len() implies left@.len() + (
        #[trigger] self.right_rows@[i])@.len() >= self.columns@.len() by {
            assert(self@.right_rows[i].len() == self.right_rows@[i]@.len());
            assert(self@.columns.len() == self.columns@.len());
        }
        pair_with_each(left, &self.right_rows, &self.columns, &self.predicates, out)
    }

    /// Takes a left row, and says whether the left rows now have to meet the right
    /// blocks.
    pub fn push_left(&mut self, row: &Vec<Data>) -> (res: bool)
        requires
            old(self).wf(),
            row@.len() == old(self).left_width,
        ensures
            final(self).wf(),
            final(self)@ == (Cross {
                left_chunk: old(self)@.left_chunk.push(row.deep_view()),
                left_bytes: row::saturated(
                    (old(self)@.left_bytes + row::saturated(
                        row::row_weight(row.deep_view()),
                    )) as nat,
                ),
                ..old(self)@
            }),
            res == (final(self)@.left_bytes >= old(self)@.limit),
    {
        let ghost before = self.left_chunk.deep_view();
        self.left_bytes = self.left_bytes.saturating_add(encode_row_len(row));
        let copy = clone_row(row);
        self.left_chunk.push(copy);
        assert(self.left_chunk.deep_view() =~= before.push(row.deep_view()));
        assert(row.deep_view().len() == row@.len());
        self.left_bytes >= self.limit
    }

    /// Appends the pairs of the waiting left rows with the rows of `n` right blocks.
    pub fn pair_with_blocks(&self, data: &Vec<u8>, n: usize, out: &mut Vec<Vec<Data>>) -> (res:
        Result<(), DbError>)
        requires
            self.wf(),
            data@.len() == n * self.block_size,
        ensures
            ({
                let got = block_pairs(
                    self@.left_chunk,
                    data@,
                    self@.block_size,
                    n as nat,
                    self@.right_columns,
                    self@.columns,
                    self@.tests,
                );
                final(out).deep_view() == old(out).deep_view() + got.0 && ops::fault_of(res) == got.1
            }),
    {
        let ghost bs = self@.block_size;
        let ghost (l, rc) = (self@.left_chunk, self@.right_columns);
        let ghost (c, t) = (self@.columns, self@.tests);
        let ghost start = out.deep_view();
        let mut i: usize = 0;
        let mut at: usize = 0;
        assert(0 * bs == 0);
        assert(start + Seq::<Seq<Val>>::empty() =~= start);
        while i < n
            invariant
                i <= n,
                self.wf(),
                bs == self@.block_size,
                bs == self.block_size,
                l == self@.left_chunk,
                rc == self@.right_columns,
                c == self@.columns,
                t == self@.tests,
                data@.len() == n * bs,
                at == i * bs,
                start == old(out).deep_view(),
                block_pairs(l, data@, bs, i as nat, rc, c, t).1 is None,
                out.deep_view() == start + block_pairs(l, data@, bs, i as nat, rc, c, t).0,
            decreases n - i,
        {
            let ghost so_far = block_pairs(l, data@, bs, i as nat, rc, c, t).0;
            assert((i + 1) * bs == i * bs + bs && (i + 1) * bs <= n * bs) by (nonlinear_arith)
                requires
                    i < n,
                    bs >= 0,
            ;
            assert(data@.len() == data.len());
            let b = slice_subrange(data.as_slice(), at, at + self.block_size);
            assert(b@ =~= block::nth_block(data@, bs, i as int));
            match unpack_block(b, self.block_size, &self.right_columns) {
                Err(e) => {
                    proof {
                        lemma_block_pairs_stop(
                            l,
                            data@,
                            bs,
                            (i + 1) as nat,
                            n as nat,
                            rc,
                            c,
                            t,
                        );
                    }
                    return Err(e);
                },
                Ok(right) => {
                    assert forall|k: int, j: int|
                        0 <= k < self.left_chunk@.len() && 0 <= j < right@.len() implies (
                    #[trigger] self.left_chunk@[k])@.len() + (#[trigger] right@[j])@.len()
                        >= self.columns@.len() by {
                        assert(self@.left_chunk[k].len() == self.left_chunk@[k]@.len());
                        assert(self@.columns.len() == self.columns@.len());
                        assert(self@.right_columns.len() == self.right_columns@.len());
                    }
                    let ghost here = all_pairs(l, right.deep_view(), c, t);
                    let got = pair_all(
                        &self.left_chunk,
                        &right,
                        &self.columns,
                        &self.predicates,
                        out,
                    );
                    assert((start + so_far) + here.0 =~= start + (so_far + here.0));
                    match got {
                        Ok(_) => {},
                        Err(e) => {
                            proof {
                                lemma_block_pairs_stop(
                                    l,
                                    data@,
                                    bs,
                                    (i + 1) as nat,
                                    n as nat,
                                    rc,
                                    c,
                                    t,
                                );
                            }
                            return Err(e);
                        },
                    }
                },
            }
            at = at + self.block_size;
            i += 1;
        }
        Ok(())
    }

    /// The waiting left rows have met all right blocks.
    pub fn clear_left(&mut self)
        requires
            old(self).wf(),
        ensures
            final(self).wf(),
            final(self)@ == (Cross { left_chunk: Seq::empty(), left_bytes: 0, ..old(self)@ }),
    {
        self.left_chunk = Vec::new();
        assert(self.left_chunk.deep_view() =~= Seq::<Seq<Val>>::empty());
        self.left_bytes = 0;
    }
}

// ---- what a cross join gives ----

proof fn lemma_with_each_append(
    left: Seq<Val>,
    a: Seq<Seq<Val>>,
    b: Seq<Seq<Val>>,
    columns: Seq<Column>,
    tests: Option<Seq<Test>>,
)
    requires
        with_each(left, a, columns, tests).1 is None,
        with_each(left, b, columns, tests).1 is None,
    ensures
        with_each(left, a + b, columns, tests) == (
            with_each(left, a, columns, tests).0 + with_each(left, b, columns, tests).0,
            None::<Fault>,
        ),
    decreases b.len(),
{
    if b.len() == 0 {
        assert(a + b =~= a);
        assert(with_each(left, a, columns, tests).0 + Seq::empty() =~= with_each(
            left,
            a,
            columns,
            tests,
        ).0);
    } else {
        assert((a + b).drop_last() =~= a + b.drop_last());
        lemma_with_each_append(left, a, b.drop_last(), columns, tests);
        let x = with_each(left, a, columns, tests).0;
        let y = with_each(left, b.drop_last(), columns, tests).0;
        let pair = left + b.last();
        assert((x + y).push(pair) =~= x + y.push(pair));
    }
}

/// Joining with two parts of the right rows in turn gives, in some order, what
/// joining with all of them gives.
pub proof fn lemma_pairs_of_parts(
    left: Seq<Seq<Val>>,
    a: Seq<Seq<Val>>,
    b: Seq<Seq<Val>>,
    columns: Seq<Column>,
    tests: Option<Seq<Test>>,
)
    requires
        all_pairs(left, a, columns, tests).1 is None,
        all_pairs(left, b, columns, tests).1 is None,
    ensures
        all_pairs(left, a + b, columns, tests).1 is None,
        all_pairs(left, a + b, columns, tests).0.to_multiset() == all_pairs(
            left,
            a,
            columns,
            tests,
        ).0.to_multiset().add(all_pairs(left, b, columns, tests).0.to_multiset()),
    decreases left.len(),
{
    if left.len() == 0 {
        seqs::lemma_empty_multiset::<Seq<Val>>();
        assert(Multiset::<Seq<Val>>::empty().add(Multiset::empty()) =~= Multiset::empty());
    } else {
        let before = left.drop_last();
        lemma_pairs_of_parts(before, a, b, columns, tests);
        lemma_with_each_append(left.last(), a, b, columns, tests);
        let (xa, xb) = (
            all_pairs(before, a, columns, tests).0,
            all_pairs(before, b, columns, tests).0,
        );
        let (ya, yb) = (
            with_each(left.last(), a, columns, tests).0,
            with_each(left.last(), b, columns, tests).0,
        );
        let both = all_pairs(before, a + b, columns, tests).0;
        vstd::seq_lib::lemma_multiset_commutative(both, ya + yb);
        vstd::seq_lib::lemma_multiset_commutative(ya, yb);
        vstd::seq_lib::lemma_multiset_commutative(xa, ya);
        vstd::seq_lib::lemma_multiset_commutative(xb, yb);
        assert(both.to_multiset().add(ya.to_multiset().add(yb.to_multiset()))
            =~= xa.to_multiset().add(ya.to_multiset()).add(
            xb.to_multiset().add(yb.to_multiset()),
        ));
    }
}

/// Joining with blocks gives, in some order, what joining with the rows of the
/// blocks gives.
pub proof fn joining_with_blocks_agrees(
    left: Seq<Seq<Val>>,
    data: Seq<u8>,
    block_size: nat,
    n: nat,
    right_columns: Seq<Column>,
    columns: Seq<Column>,
    tests: Option<Seq<Test>>,
)
    requires
        block_pairs(left, data, block_size, n, right_columns, columns, tests).1 is None,
    ensures
        block::blocks_rows(data, block_size, right_columns, n) matches Ok(right) && {
            &&& all_pairs(left, right, columns, tests).1 is None
            &&& all_pairs(left, right, columns, tests).0.to_multiset() == block_pairs(
                left,
                data,
                block_size,
                n,
                right_columns,
                columns,
                tests,
            ).0.to_multiset()
        },
    decreases n,
{
    if n == 0 {
        lemma_no_right_rows(left, columns, tests);
    } else {
        joining_with_blocks_agrees(
            left,
            data,
            block_size,
            (n - 1) as nat,
            right_columns,
            columns,
            tests,
        );
        let right = block::blocks_rows(data, block_size, right_columns, (n - 1) as nat)->Ok_0;
        let more = block::block_rows(
            block::nth_block(data, block_size, n - 1),
            block_size,
            right_columns,
        )->Ok_0;
        lemma_pairs_of_parts(left, right, more, columns, tests);
        let x = block_pairs(
            left,
            data,
            block_size,
            (n - 1) as nat,
            right_columns,
            columns,
            tests,
        ).0;
        let y = all_pairs(left, more, columns, tests).0;
        vstd::seq_lib::lemma_multiset_commutative(x, y);
    }
}

/// No right rows give no pairs.
pub proof fn lemma_no_right_rows(
    left: Seq<Seq<Val>>,
    columns: Seq<Column>,
    tests: Option<Seq<Test>>,
)
    ensures
        all_pairs(left, Seq::empty(), columns, tests) == (Seq::<Seq<Val>>::empty(), None::<Fault>),
    decreases left.len(),
{
    if left.len() > 0 {
        lemma_no_right_rows(left.drop_last(), columns, tests);
        assert(Seq::<Seq<Val>>::empty() + Seq::empty() =~= Seq::<Seq<Val>>::empty());
    }
}

} // verus!
