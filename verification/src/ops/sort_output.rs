//! The output of a sort: the rows come from memory, or from runs that are merged, where
//! there are too many runs in several rounds. Each step says what to do next.

use vstd::prelude::*;

use crate::block;
use crate::disk::{allocate_anon_block_chunk, rewind_anon_block_allocator, Disk, DiskState};
use crate::disk;
use crate::error::{DbError, Fault};
use crate::ops::merge::{Merging, RunMerge};
use crate::ops::merge;
use crate::ops::sort::{keys_view, keys_within};
use crate::ops::sort_chunk::{Run, SortInput};
use crate::ops::sort_chunk;
use crate::ops::sort_merge::{count_blocks, reversed, Growing, RunWriter, MAX_MERGE_WIDTH};
use crate::ops::sort_merge;
use crate::ops::{Act, Action};
use crate::ops;
use crate::row;
use crate::schema::{Column, ColumnInfo};
use crate::value::{Data, Val};

verus! {

/// The memory that the runs of a merge share: 30 percent of all.
pub open spec fn merge_pool(memory_limit_mb: int) -> int {
    memory_limit_mb * 1024 * 1024 * 30 / 100
}

/// Computes the memory that the runs of a merge share.
pub fn merge_pool_bytes(memory_limit_mb: u64) -> (res: usize)
    requires
        memory_limit_mb * 1024 * 1024 * 30 <= usize::MAX,
    ensures
        res == merge_pool(memory_limit_mb as int),
{
    memory_limit_mb as usize * 1024 * 1024 * 30 / 100
}

/// A round of merging: runs are merged in groups, each group to one run.
pub struct Cascade {
    pub runs: Vec<Run>,
    /// The first run behind the group that is merged.
    pub upto: usize,
    /// The merged runs of the groups before.
    pub done: Vec<Run>,
    pub merge: RunMerge,
    pub writer: RunWriter,
    /// The blocks that were taken for the merged run.
    pub taken: usize,
}

/// Where the rows of a sort come from.
pub enum SortStage {
    /// From memory; the first row stands last.
    Memory(Vec<Vec<Data>>),
    /// From runs, of which there are too many.
    Cascade(Cascade),
    /// From runs that are merged.
    Last(RunMerge),
    /// All rows have been given.
    Over,
}

/// The output of a sort.
pub struct SortOutput {
    pub schema: Vec<ColumnInfo>,
    pub keys: Vec<(usize, bool)>,
    pub block_size: usize,
    /// The memory that runs share.
    pub pool: usize,
    pub stage: SortStage,
}

/// The mathematical value of a [`SortStage`].
pub enum Stage {
    Memory(Seq<Seq<Val>>),
    Cascade(Round),
    Last(Merging),
    Over,
}

/// The mathematical value of a [`Cascade`].
pub struct Round {
    pub runs: Seq<Run>,
    pub upto: int,
    pub done: Seq<Run>,
    pub merge: Merging,
    pub growing: Growing,
    pub taken: usize,
}

/// The mathematical value of a [`SortOutput`].
pub struct Sorting {
    pub columns: Seq<Column>,
    pub keys: Seq<(int, bool)>,
    pub block_size: int,
    pub pool: int,
    pub stage: Stage,
}

impl View for SortStage {
    type V = Stage;

    open spec fn view(&self) -> Stage {
        match *self {
            SortStage::Memory(rows) => Stage::Memory(rows.deep_view().reverse()),
            SortStage::Cascade(c) => Stage::Cascade(
                Round {
                    runs: c.runs@,
                    upto: c.upto as int,
                    done: c.done@,
                    merge: c.merge@,
                    growing: c.writer@,
                    taken: c.taken,
                },
            ),
            SortStage::Last(m) => Stage::Last(m@),
            SortStage::Over => Stage::Over,
        }
    }
}

impl View for SortOutput {
    type V = Sorting;

    open spec fn view(&self) -> Sorting {
        Sorting {
            columns: self.schema.deep_view(),
            keys: keys_view(self.keys@),
            block_size: self.block_size as int,
            pool: self.pool as int,
            stage: self.stage@,
        }
    }
}

/// The end of the group that begins with a run.
pub open spec fn group_end(from: int, n: int) -> int {
    if from + MAX_MERGE_WIDTH < n {
        from + MAX_MERGE_WIDTH
    } else {
        n
    }
}

/// The group that begins with a run is merged to a new run, for which as many blocks are
/// taken as the group has.
pub open spec fn group_begun(s: Sorting, runs: Seq<Run>, from: int, done: Seq<Run>, d: Disk) -> (
    Stage,
    Disk,
) {
    let upto = group_end(from, runs.len() as int);
    let group = runs.subrange(from, upto);
    let taken = row::saturated(sort_merge::blocks_of_runs(group));
    (
        Stage::Cascade(
            Round {
                runs,
                upto,
                done,
                merge: merge::merging_of(group, s.columns, s.keys, s.pool, s.block_size),
                growing: Growing {
                    block_size: s.block_size as nat,
                    packing: block::nothing_packed(),
                    start: d.next,
                    written: 0,
                    total: 0,
                },
                taken,
            },
        ),
        disk::allocated(d, taken as u64),
    )
}

/// Runs are merged: at once, or where there are too many in groups first.
pub open spec fn round_begun(s: Sorting, runs: Seq<Run>, d: Disk) -> (Stage, Disk) {
    if runs.len() > MAX_MERGE_WIDTH {
        group_begun(s, runs, 0, Seq::empty(), d)
    } else {
        (
            Stage::Last(merge::merging_of(runs, s.columns, s.keys, s.pool, s.block_size)),
            d,
        )
    }
}

/// The blocks that a run has beyond those that were taken for it are taken too.
pub open spec fn rest_taken(d: Disk, taken: usize, total: usize) -> Disk {
    if total > taken {
        disk::allocated(d, (total - taken) as u64)
    } else {
        d
    }
}

/// A group has been merged: its run is ended, and kept if it has blocks. Rows of different
/// lengths can need more blocks together than the runs of the group had: those blocks are
/// taken as well. Then the next group follows, or the next round.
pub open spec fn group_ended(s: Sorting, r: Round, d: Disk) -> (Stage, Disk, Seq<u8>) {
    let (g, written, sent) = sort_merge::run_ended(r.growing, d);
    let after = rest_taken(written, r.taken, g.total);
    let done = if g.total > 0 {
        r.done.push(Run { start_block: g.start, num_blocks: g.total })
    } else {
        r.done
    };
    let next = if r.upto < r.runs.len() {
        group_begun(s, r.runs, r.upto, done, after)
    } else {
        round_begun(s, done, after)
    };
    (next.0, next.1, sent)
}

/// One step of the output of a sort: its state then, that of the disk, what is sent, and
/// what to do.
pub open spec fn sort_step(s: Sorting, d: Disk) -> (Sorting, Disk, Seq<u8>, Result<Act, Fault>) {
    match s.stage {
        Stage::Over => (s, d, Seq::empty(), Ok(Act::Done)),
        Stage::Memory(rows) => if rows.len() > 0 {
            (
                Sorting { stage: Stage::Memory(rows.drop_first()), ..s },
                d,
                Seq::empty(),
                Ok(Act::Row(rows[0])),
            )
        } else {
            (Sorting { stage: Stage::Over, ..s }, d, Seq::empty(), Ok(Act::Done))
        },
        Stage::Last(m) => {
            let (after, act) = merge::merge_step(m);
            match act {
                Ok(Act::Done) => (
                    Sorting { stage: Stage::Over, ..s },
                    disk::rewound(d),
                    Seq::empty(),
                    Ok(Act::Done),
                ),
                other => (Sorting { stage: Stage::Last(after), ..s }, d, Seq::empty(), other),
            }
        },
        Stage::Cascade(r) => {
            let (after, act) = merge::merge_step(r.merge);
            match act {
                Ok(Act::Row(x)) => {
                    let (g, d2, sent) = sort_merge::grown(r.growing, x, d);
                    (
                        Sorting {
                            stage: Stage::Cascade(Round { merge: after, growing: g, ..r }),
                            ..s
                        },
                        d2,
                        sent,
                        Ok(Act::Again),
                    )
                },
                Ok(Act::Done) => {
                    let (stage, d2, sent) = group_ended(s, r, d);
                    (Sorting { stage, ..s }, d2, sent, Ok(Act::Again))
                },
                other => (
                    Sorting { stage: Stage::Cascade(Round { merge: after, ..r }), ..s },
                    d,
                    Seq::empty(),
                    other,
                ),
            }
        },
    }
}

/// The blocks that were asked for have been read.
pub open spec fn sort_supplied(s: Sorting, data: Seq<u8>, n: int) -> (Sorting, Option<Fault>) {
    match s.stage {
        Stage::Last(m) => {
            let (after, fault) = merge::merge_supplied(m, data, n);
            (Sorting { stage: Stage::Last(after), ..s }, fault)
        },
        Stage::Cascade(r) => {
            let (after, fault) = merge::merge_supplied(r.merge, data, n);
            (Sorting { stage: Stage::Cascade(Round { merge: after, ..r }), ..s }, fault)
        },
        _ => (s, None),
    }
}

impl Cascade {
    /// Whether the parts fit together.
    pub open spec fn wf(self, block_size: usize) -> bool {
        &&& self.upto <= self.runs@.len()
        &&& self.merge.wf()
        &&& self.merge.has_blocks_of(block_size)
        &&& self.writer.wf()
        &&& self.writer.block_size == block_size
    }
}

impl SortOutput {
    /// Whether the keys are columns, and the runs are in order.
    pub open spec fn wf(self) -> bool {
        &&& self.block_size >= 2
        &&& self.block_size * MAX_MERGE_WIDTH <= usize::MAX
        &&& keys_within(self.keys@, self.schema@.len())
        &&& match self.stage {
            SortStage::Cascade(c) => c.wf(self.block_size),
            SortStage::Last(m) => m.wf() && m.has_blocks_of(self.block_size),
            _ => true,
        }
    }

    /// Whether `n` blocks can be taken.
    pub open spec fn takes(self, n: usize) -> bool {
        match self.stage {
            SortStage::Cascade(c) => c.merge.takes(n),
            SortStage::Last(m) => m.takes(n),
            _ => false,
        }
    }

    /// Begins to merge the group of runs from one on.
    fn begin_group(&mut self, runs: Vec<Run>, from: usize, done: Vec<Run>, disk: &mut DiskState)
        requires
            old(self).wf(),
            from <= runs@.len(),
        ensures
            final(self).wf(),
            final(self)@ == (Sorting {
                stage: group_begun(old(self)@, runs@, from as int, done@, old(disk)@).0,
                ..old(self)@
            }),
            final(disk)@ == group_begun(old(self)@, runs@, from as int, done@, old(disk)@).1,
            final(disk).cache == old(disk).cache,
    {
        let n: usize = runs.len();
        let upto: usize = if n - from > MAX_MERGE_WIDTH {
            from + MAX_MERGE_WIDTH
        } else {
            n
        };
        let mut group: Vec<Run> = Vec::new();
        let mut i: usize = from;
        while i < upto
            invariant
                from <= i <= upto <= runs@.len(),
                group@ == runs@.subrange(from as int, i as int),
            decreases upto - i,
        {
            group.push(runs[i]);
            assert(group@ =~= runs@.subrange(from as int, i + 1));
            i += 1;
        }
        assert(group@.len() * self.block_size <= self.block_size * MAX_MERGE_WIDTH)
            by (nonlinear_arith)
            requires
                group@.len() <= MAX_MERGE_WIDTH,
        ;
        let merge = RunMerge::new(&group, &self.schema, &self.keys, self.pool, self.block_size);
        let taken: usize = count_blocks(&group);
        let start: u64 = allocate_anon_block_chunk(disk, taken as u64);
        let writer = RunWriter::new(start, self.block_size);
        self.stage = SortStage::Cascade(Cascade { runs, upto, done, merge, writer, taken });
    }

    /// Begins to merge runs.
    fn begin_round(&mut self, runs: Vec<Run>, disk: &mut DiskState)
        requires
            old(self).wf(),
        ensures
            final(self).wf(),
            final(self)@ == (Sorting {
                stage: round_begun(old(self)@, runs@, old(disk)@).0,
                ..old(self)@
            }),
            final(disk)@ == round_begun(old(self)@, runs@, old(disk)@).1,
            final(disk).cache == old(disk).cache,
    {
        if runs.len() > MAX_MERGE_WIDTH {
            let none: Vec<Run> = Vec::new();
            self.begin_group(runs, 0, none, disk);
        } else {
            assert(runs@.len() * self.block_size <= self.block_size * MAX_MERGE_WIDTH)
                by (nonlinear_arith)
                requires
                    runs@.len() <= MAX_MERGE_WIDTH,
            ;
            let m = RunMerge::new(&runs, &self.schema, &self.keys, self.pool, self.block_size);
            self.stage = SortStage::Last(m);
        }
    }

    /// Begins the output of a sort whose input has ended.
    pub fn start(input: SortInput, pool: usize, disk: &mut DiskState) -> (res: Result<
        SortOutput,
        DbError,
    >)
        requires
            input.wf(),
            input.block_size * MAX_MERGE_WIDTH <= usize::MAX,
        ensures
            final(disk).cache == old(disk).cache,
            res matches Ok(s) ==> s.wf() && s.block_size == input.block_size,
            ({
                let blank = Sorting {
                    columns: input.schema.deep_view(),
                    keys: keys_view(input.keys@),
                    block_size: input.block_size as int,
                    pool: pool as int,
                    stage: Stage::Over,
                };
                if input.runs@.len() > 0 {
                    let begun = round_begun(blank, input.runs@, old(disk)@);
                    &&& res matches Ok(s) && s@ == (Sorting { stage: begun.0, ..blank })
                    &&& final(disk)@ == begun.1
                } else {
                    &&& final(disk)@ == old(disk)@
                    &&& match sort_chunk::all_rows(
                        input.chunk@,
                        blank.columns,
                    ) {
                        Ok(rows) => res matches Ok(s) && exists|p: Seq<usize>| #[trigger]
                            sort_chunk::sorts(p, rows, blank.keys) && s@ == (Sorting {
                                stage: Stage::Memory(sort_chunk::arranged(rows, p)),
                                ..blank
                            }),
                        Err(f) => res matches Err(e) && e@ == f,
                    }
                }
            }),
    {
        if input.runs.len() > 0 {
            let mut s = SortOutput {
                schema: input.schema,
                keys: input.keys,
                block_size: input.block_size,
                pool,
                stage: SortStage::Over,
            };
            s.begin_round(input.runs, disk);
            Ok(s)
        } else {
            let rows = input.chunk.sorted_rows(&input.schema, &input.keys)?;
            let turned = reversed(rows);
            Ok(
                SortOutput {
                    schema: input.schema,
                    keys: input.keys,
                    block_size: input.block_size,
                    pool,
                    stage: SortStage::Memory(turned),
                },
            )
        }
    }

    /// Makes a step of a round. Appends the bytes to send.
    fn cascade_step(&mut self, round: Cascade, disk: &mut DiskState, out: &mut Vec<u8>) -> (res:
        Result<Action, DbError>)
        requires
            old(self).wf(),
            old(disk).wf(),
            round.wf(old(self).block_size),
        ensures
            final(self).wf(),
            final(self).block_size == old(self).block_size,
            final(disk).wf(),
            old(disk).sized_for(old(self).block_size as nat) ==> final(disk).sized_for(
                old(self).block_size as nat,
            ),
            ({
                let r = SortStage::Cascade(round)@;
                let got = sort_step(Sorting { stage: r, ..old(self)@ }, old(disk)@);
                &&& final(self)@ == got.0
                &&& final(disk)@ == got.1
                &&& final(out)@ == old(out)@ + got.2
                &&& ops::act_view(res) == got.3
            }),
            res matches Ok(Action::Fetch(_, n)) ==> final(self).takes(n),
    {
        let ghost sent = out@;
        let mut c = round;
        let res = c.merge.step();
        assert(c.merge.has_blocks_of(self.block_size));
        match res {
            Ok(Action::Row(r)) => {
                c.writer.push(&r, disk, out);
                self.stage = SortStage::Cascade(c);
                Ok(Action::Again)
            },
            Ok(Action::Done) => {
                let run = c.writer.finish(disk, out);
                if run.num_blocks > c.taken {
                    let _more = allocate_anon_block_chunk(disk, (run.num_blocks - c.taken) as u64);
                }
                if run.num_blocks > 0 {
                    c.done.push(run);
                }
                if c.upto < c.runs.len() {
                    self.begin_group(c.runs, c.upto, c.done, disk);
                } else {
                    self.begin_round(c.done, disk);
                }
                Ok(Action::Again)
            },
            other => {
                self.stage = SortStage::Cascade(c);
                assert(sent + Seq::<u8>::empty() =~= sent);
                other
            },
        }
    }

    /// Makes one step. Appends the bytes to send.
    pub fn step(&mut self, disk: &mut DiskState, out: &mut Vec<u8>) -> (res: Result<Action, DbError>)
        requires
            old(self).wf(),
            old(disk).wf(),
        ensures
            final(self).wf(),
            final(self).block_size == old(self).block_size,
            final(disk).wf(),
            old(disk).sized_for(old(self).block_size as nat) ==> final(disk).sized_for(
                old(self).block_size as nat,
            ),
            ({
                let got = sort_step(old(self)@, old(disk)@);
                &&& final(self)@ == got.0
                &&& final(disk)@ == got.1
                &&& final(out)@ == old(out)@ + got.2
                &&& ops::act_view(res) == got.3
            }),
            res matches Ok(Action::Fetch(_, n)) ==> final(self).takes(n),
    {
        let ghost sent = out@;
        assert(sent + Seq::<u8>::empty() =~= sent);
        let mut stage = SortStage::Over;
        std::mem::swap(&mut stage, &mut self.stage);
        match stage {
            SortStage::Over => Ok(Action::Done),
            SortStage::Memory(mut rows) => {
                let ghost before = rows.deep_view();
                assert(before.len() == rows@.len());
                match rows.pop() {
                    Some(r) => {
                        assert(r.deep_view() == before.last());
                        assert(rows.deep_view() =~= before.drop_last());
                        assert(before.drop_last().reverse() =~= before.reverse().drop_first());
                        self.stage = SortStage::Memory(rows);
                        Ok(Action::Row(r))
                    },
                    None => Ok(Action::Done),
                }
            },
            SortStage::Last(mut m) => {
                let res = m.step();
                assert(m.has_blocks_of(self.block_size));
                match res {
                    Ok(Action::Done) => {
                        rewind_anon_block_allocator(disk);
                        Ok(Action::Done)
                    },
                    other => {
                        self.stage = SortStage::Last(m);
                        other
                    },
                }
            },
            SortStage::Cascade(c) => self.cascade_step(c, disk, out),
        }
    }

    /// Takes the blocks that were asked for.
    pub fn supply(&mut self, data: Vec<u8>, n: usize) -> (res: Result<(), DbError>)
        requires
            old(self).wf(),
            old(self).takes(n),
            data@.len() == n * old(self).block_size,
        ensures
            final(self).wf(),
            final(self).block_size == old(self).block_size,
            (final(self)@, ops::fault_of(res)) == sort_supplied(old(self)@, data@, n as int),
    {
        let mut stage = SortStage::Over;
        std::mem::swap(&mut stage, &mut self.stage);
        match stage {
            SortStage::Last(mut m) => {
                assert(m.streams@[m.turn as int].block_size == self.block_size);
                let res = m.supply(data, n);
                assert(m.has_blocks_of(self.block_size));
                self.stage = SortStage::Last(m);
                res
            },
            SortStage::Cascade(mut c) => {
                assert(c.merge.streams@[c.merge.turn as int].block_size == self.block_size);
                let res = c.merge.supply(data, n);
                assert(c.merge.has_blocks_of(self.block_size));
                self.stage = SortStage::Cascade(c);
                res
            },
            other => {
                self.stage = other;
                Ok(())
            },
        }
    }
}

} // verus!
