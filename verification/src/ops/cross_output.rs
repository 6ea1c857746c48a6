//! The left input of a cross join: its rows meet the right rows in memory, or, many at a
//! time, those in blocks. Each step says what to do next.

use vstd::prelude::*;

use crate::disk;
use crate::error::{DbError, Fault};
use crate::ops::cross::{Cross, CrossJoin};
use crate::ops::cross;
use crate::ops::{Act, Action};
use crate::ops;
use crate::row;
use crate::value::{Data, Val};

verus! {

/// A cross join whose right input has ended.
pub struct CrossOutput {
    pub join: CrossJoin,
    /// The most right blocks that are read at once.
    pub fetch: usize,
    /// The right blocks that the waiting left rows have met.
    pub done: usize,
}

/// The mathematical value of a [`CrossOutput`].
pub struct Crossing {
    pub cross: Cross,
    pub fetch: int,
    pub done: int,
}

impl View for CrossOutput {
    type V = Crossing;

    open spec fn view(&self) -> Crossing {
        Crossing { cross: self.join@, fetch: self.fetch as int, done: self.done as int }
    }
}

/// The number of right blocks that are read at once: 10 percent of the memory, at
/// least one block and at most 256.
pub open spec fn fetch_size(memory_limit_mb: int, block_size: int) -> int {
    let n = memory_limit_mb * 1024 * 1024 * 10 / 100 / block_size;
    if n < 1 {
        1
    } else if n > 256 {
        256
    } else {
        n
    }
}

/// A left row waits for the right blocks.
pub open spec fn with_left(c: Cross, r: Seq<Val>) -> Cross {
    Cross {
        left_chunk: c.left_chunk.push(r),
        left_bytes: row::saturated(
            (c.left_bytes + row::saturated(row::row_weight(r))) as nat,
        ),
        ..c
    }
}

/// A left row arrives: the state then, its pairs with right rows in memory, what went
/// wrong, and whether the waiting rows now have to meet the right blocks.
pub open spec fn left_arrived(c: Crossing, r: Seq<Val>) -> (
    Crossing,
    Seq<Seq<Val>>,
    Result<bool, Fault>,
) {
    if c.cross.right_blocks == 0 {
        let (pairs, fault) = cross::with_each(
            r,
            c.cross.right_rows,
            c.cross.columns,
            c.cross.tests,
        );
        (
            c,
            pairs,
            match fault {
                Some(e) => Err(e),
                None => Ok(false),
            },
        )
    } else {
        let more = with_left(c.cross, r);
        (
            Crossing { cross: more, ..c },
            Seq::empty(),
            Ok(more.left_bytes >= c.cross.limit),
        )
    }
}

/// One step by which the waiting left rows meet the right blocks: the next blocks are
/// needed, or all have been met, and the rows wait no longer.
pub open spec fn cross_step(c: Crossing) -> (Crossing, Act) {
    let left = c.cross.right_blocks - c.done;
    if c.cross.left_chunk.len() > 0 && left > 0 {
        (
            c,
            Act::Fetch(
                disk::wrapped_sum(c.cross.right_start, c.done as u64),
                (if c.fetch < left {
                    c.fetch
                } else {
                    left
                }) as usize,
            ),
        )
    } else {
        (
            Crossing {
                cross: Cross { left_chunk: Seq::empty(), left_bytes: 0, ..c.cross },
                done: 0,
                ..c
            },
            Act::Done,
        )
    }
}

/// The right blocks that were asked for have been read.
pub open spec fn cross_supplied(c: Crossing, data: Seq<u8>, n: int) -> (
    Crossing,
    Seq<Seq<Val>>,
    Option<Fault>,
) {
    let (pairs, fault) = cross::block_pairs(
        c.cross.left_chunk,
        data,
        c.cross.block_size,
        n as nat,
        c.cross.right_columns,
        c.cross.columns,
        c.cross.tests,
    );
    (Crossing { done: c.done + n, ..c }, pairs, fault)
}

impl CrossOutput {
    /// Whether the widths fit together, and no more blocks have been met than there are.
    pub open spec fn wf(self) -> bool {
        &&& self.join.wf()
        &&& self.fetch >= 1
        &&& self.done <= self.join.total_right_blocks
    }

    /// Whether `n` blocks can be taken.
    pub open spec fn takes(self, n: usize) -> bool {
        self.done + n <= self.join.total_right_blocks
    }

    /// Begins with the left input, where the right input has ended.
    pub fn start(join: CrossJoin, memory_limit_mb: u64) -> (res: CrossOutput)
        requires
            join.wf(),
            memory_limit_mb * 1024 * 1024 * 10 <= usize::MAX,
        ensures
            res.wf(),
            res.join == join,
            res@ == (Crossing {
                cross: join@,
                fetch: fetch_size(memory_limit_mb as int, join@.block_size as int),
                done: 0,
            }),
    {
        let n: usize = memory_limit_mb as usize * 1024 * 1024 * 10 / 100 / join.block_size;
        let fetch: usize = if n < 1 {
            1
        } else if n > 256 {
            256
        } else {
            n
        };
        CrossOutput { join, fetch, done: 0 }
    }

    /// Takes a left row, appends its pairs with right rows in memory, and says whether the
    /// waiting rows now have to meet the right blocks.
    pub fn take_left(&mut self, row: &Vec<Data>, pairs: &mut Vec<Vec<Data>>) -> (res: Result<
        bool,
        DbError,
    >)
        requires
            old(self).wf(),
            row@.len() == old(self).join.left_width,
        ensures
            final(self).wf(),
            final(self)@.cross.block_size == old(self)@.cross.block_size,
            final(self).join.left_width == old(self).join.left_width,
            ({
                let got = left_arrived(old(self)@, row.deep_view());
                &&& final(self)@ == got.0
                &&& final(pairs).deep_view() == old(pairs).deep_view() + got.1
                &&& row::outcome_view(res) == got.2
            }),
    {
        let ghost given = pairs.deep_view();
        assert(given + Seq::<Seq<Val>>::empty() =~= given);
        if self.join.right_in_memory() {
            match self.join.pair_in_memory(row, pairs) {
                Ok(_) => Ok(false),
                Err(e) => Err(e),
            }
        } else {
            Ok(self.join.push_left(row))
        }
    }

    /// Makes one step by which the waiting left rows meet the right blocks.
    pub fn step(&mut self) -> (res: Action)
        requires
            old(self).wf(),
        ensures
            final(self).wf(),
            final(self)@.cross.block_size == old(self)@.cross.block_size,
            final(self).join.left_width == old(self).join.left_width,
            (final(self)@, res@) == cross_step(old(self)@),
            res matches Action::Fetch(_, n) ==> final(self).takes(n),
    {
        assert(self.join.left_chunk@.len() == self@.cross.left_chunk.len());
        if self.join.left_chunk.len() > 0 && self.done < self.join.total_right_blocks {
            let left: usize = self.join.total_right_blocks - self.done;
            let n: usize = if self.fetch < left {
                self.fetch
            } else {
                left
            };
            Action::Fetch(self.join.right_start_block.wrapping_add(self.done as u64), n)
        } else {
            self.join.clear_left();
            self.done = 0;
            Action::Done
        }
    }

    /// Takes the right blocks that were asked for. Appends the pairs.
    pub fn supply(&mut self, data: &Vec<u8>, n: usize, pairs: &mut Vec<Vec<Data>>) -> (res: Result<
        (),
        DbError,
    >)
        requires
            old(self).wf(),
            old(self).takes(n),
            data@.len() == n * old(self).join.block_size,
        ensures
            final(self).wf(),
            final(self).join == old(self).join,
            ({
                let got = cross_supplied(old(self)@, data@, n as int);
                &&& final(self)@ == got.0
                &&& final(pairs).deep_view() == old(pairs).deep_view() + got.1
                &&& ops::fault_of(res) == got.2
            }),
    {
        self.done = self.done + n;
        self.join.pair_with_blocks(data, n, pairs)
    }
}

} // verus!
