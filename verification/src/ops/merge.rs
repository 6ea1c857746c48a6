//! Merging: the rows of several runs come out in one order. Each step says what to do next.

use vstd::prelude::*;

use crate::error::{DbError, Fault};
use crate::ops::sort::{copy_keys, keys_view, keys_within};
use crate::ops::sort_chunk::Run;
use crate::ops::sort_merge::{Merger, RunStep, RunStreamer, Step, Stream};
use crate::ops::sort_merge;
use crate::ops::{Act, Action};
use crate::ops;
use crate::schema::{copy_columns, Column, ColumnInfo};
use crate::value::Val;

verus! {

/// Runs that are merged.
pub struct RunMerge {
    pub streams: Vec<RunStreamer>,
    pub merger: Merger,
    /// The run whose next row has to be read first, if there is such a run.
    pub turn: usize,
    /// Not every run has been read from.
    pub starting: bool,
}

/// The mathematical value of a [`RunMerge`].
#[verifier::ext_equal]
pub struct Merging {
    pub streams: Seq<Stream>,
    pub heads: Seq<Option<Seq<Val>>>,
    pub keys: Seq<(int, bool)>,
    pub turn: int,
    pub starting: bool,
}

impl View for RunMerge {
    type V = Merging;

    open spec fn view(&self) -> Merging {
        Merging {
            streams: self.streams@.map_values(|s: RunStreamer| s@),
            heads: sort_merge::heads_view(self.merger.heads@),
            keys: keys_view(self.merger.keys@),
            turn: self.turn as int,
            starting: self.starting,
        }
    }
}

/// A run before its first row, where `total` runs share the memory.
pub open spec fn fresh_stream(
    run: Run,
    columns: Seq<Column>,
    total: int,
    pool: int,
    block_size: int,
) -> Stream {
    Stream {
        columns,
        block_size: block_size as nat,
        fetch: sort_merge::fetch_share(pool, total, block_size) as nat,
        next_block: run.start_block as int,
        blocks_left: run.num_blocks as int,
        data: Seq::empty(),
        count: 0,
        head: 0,
        rows: Seq::empty(),
    }
}

/// Runs before the first row.
pub open spec fn merging_of(
    runs: Seq<Run>,
    columns: Seq<Column>,
    keys: Seq<(int, bool)>,
    pool: int,
    block_size: int,
) -> Merging {
    Merging {
        streams: runs.map_values(
            |r: Run| fresh_stream(r, columns, runs.len() as int, pool, block_size),
        ),
        heads: Seq::new(runs.len(), |i: int| None::<Seq<Val>>),
        keys,
        turn: 0,
        starting: true,
    }
}

/// The run whose turn it is has given its next row, or has ended.
pub open spec fn gave(m: Merging, s: Stream, step: Step) -> Merging {
    let n = m.streams.len() as int;
    let more = m.starting && m.turn + 1 < n;
    Merging {
        streams: m.streams.update(m.turn, s),
        heads: match step {
            Step::Row(r) => m.heads.update(m.turn, Some(r)),
            _ => m.heads,
        },
        turn: if more {
            m.turn + 1
        } else {
            n
        },
        starting: more,
        ..m
    }
}

/// One step of a merge: the run whose turn it is gives its next row; where it is no run's
/// turn, the least of the first rows is taken, and it is the turn of its run.
pub open spec fn merge_step(m: Merging) -> (Merging, Result<Act, Fault>) {
    if m.turn < m.streams.len() {
        let (s, step) = sort_merge::polled(m.streams[m.turn]);
        match step {
            Err(e) => (Merging { streams: m.streams.update(m.turn, s), ..m }, Err(e)),
            Ok(Step::Fetch(b, n)) => (
                Merging { streams: m.streams.update(m.turn, s), ..m },
                Ok(Act::Fetch(b, n)),
            ),
            Ok(other) => (gave(m, s, other), Ok(Act::Again)),
        }
    } else {
        match sort_merge::least_head(m.heads, m.keys) {
            Some(i) => (
                Merging { heads: m.heads.update(i, None), turn: i, starting: false, ..m },
                Ok(Act::Row(m.heads[i]->Some_0)),
            ),
            None => (m, Ok(Act::Done)),
        }
    }
}

/// The blocks that the run whose turn it is asked for have been read.
pub open spec fn merge_supplied(m: Merging, data: Seq<u8>, n: int) -> (Merging, Option<Fault>) {
    let (s, step) = sort_merge::supplied(m.streams[m.turn], data, n);
    match step {
        Err(e) => (Merging { streams: m.streams.update(m.turn, s), ..m }, Some(e)),
        Ok(other) => (gave(m, s, other), None),
    }
}

impl RunMerge {
    /// Whether the runs are in order, and the keys are columns of all of them.
    pub open spec fn wf(self) -> bool {
        &&& self.merger.wf()
        &&& self.merger.heads@.len() == self.streams@.len()
        &&& forall|i: int|
            0 <= i < self.streams@.len() ==> (#[trigger] self.streams@[i]).wf() && keys_within(
                self.merger.keys@,
                self.streams@[i]@.columns.len(),
            )
    }

    /// Whether the run whose turn it is can take `n` blocks.
    pub open spec fn takes(self, n: usize) -> bool {
        self.turn < self.streams@.len() && 1 <= n <= self.streams@[self.turn as int].blocks_left
    }

    /// Whether the blocks of all runs have this size.
    pub open spec fn has_blocks_of(self, block_size: usize) -> bool {
        forall|i: int|
            0 <= i < self.streams@.len() ==> (#[trigger] self.streams@[i]).block_size == block_size
    }

    /// Runs before the first row.
    pub fn new(
        runs: &Vec<Run>,
        schema: &Vec<ColumnInfo>,
        keys: &Vec<(usize, bool)>,
        pool: usize,
        block_size: usize,
    ) -> (res: RunMerge)
        requires
            block_size >= 2,
            keys_within(keys@, schema@.len()),
            runs@.len() * block_size <= usize::MAX,
        ensures
            res.wf(),
            res.has_blocks_of(block_size),
            res@ == merging_of(
                runs@,
                schema.deep_view(),
                keys_view(keys@),
                pool as int,
                block_size as int,
            ),
    {
        let n: usize = runs.len();
        let mut streams: Vec<RunStreamer> = Vec::new();
        let mut i: usize = 0;
        while i < n
            invariant
                i <= n,
                n == runs@.len(),
                block_size >= 2,
                keys_within(keys@, schema@.len()),
                n * block_size <= usize::MAX,
                streams@.len() == i,
                forall|k: int|
                    0 <= k < i ==> {
                        &&& (#[trigger] streams@[k]).wf()
                        &&& streams@[k].block_size == block_size
                        &&& streams@[k]@ == fresh_stream(
                            runs@[k],
                            schema.deep_view(),
                            n as int,
                            pool as int,
                            block_size as int,
                        )
                    },
            decreases n - i,
        {
            let copy = copy_columns(schema);
            assert(copy.deep_view() =~= schema.deep_view());
            streams.push(RunStreamer::new(&runs[i], copy, n, pool, block_size));
            i += 1;
        }
        let merger = Merger::new(n, copy_keys(keys));
        let m = RunMerge { streams, merger, turn: 0, starting: true };
        assert(schema.deep_view().len() == schema@.len());
        assert(m@ =~= merging_of(
            runs@,
            schema.deep_view(),
            keys_view(keys@),
            pool as int,
            block_size as int,
        ));
        assert(sort_merge::heads_view(merger.heads@).len() == n);
        m
    }

    /// What has been read from the run whose turn it is: a row, or its end.
    fn settle(&mut self, step: RunStep)
        requires
            old(self).wf(),
            old(self).turn < old(self).streams@.len(),
            step matches RunStep::Row(r) ==> r@.len()
                == old(self).streams@[old(self).turn as int]@.columns.len(),
        ensures
            final(self).wf(),
            final(self).streams == old(self).streams,
            final(self)@ == gave(old(self)@, old(self)@.streams[old(self).turn as int], step@),
    {
        let ghost m = self@;
        match step {
            RunStep::Row(r) => {
                self.merger.put(self.turn, r);
            },
            _ => {},
        }
        let n: usize = self.streams.len();
        if self.starting && self.turn < n - 1 {
            self.turn = self.turn + 1;
        } else {
            self.turn = n;
            self.starting = false;
        }
        assert(self@.heads.len() == self.merger.heads@.len());
        assert(m.heads.len() == old(self).merger.heads@.len());
        assert(m.streams.update(m.turn, m.streams[m.turn]) =~= m.streams);
        assert(self@ =~= gave(m, m.streams[m.turn], step@));
    }

    /// Makes one step.
    pub fn step(&mut self) -> (res: Result<Action, DbError>)
        requires
            old(self).wf(),
        ensures
            final(self).wf(),
            (final(self)@, ops::act_view(res)) == merge_step(old(self)@),
            res matches Ok(Action::Fetch(_, n)) ==> final(self).takes(n),
            forall|b: usize| old(self).has_blocks_of(b) ==> #[trigger] final(self).has_blocks_of(b),
    {
        let ghost m = self@;
        if self.turn < self.streams.len() {
            let t: usize = self.turn;
            let ghost before = self.streams@;
            let res = self.streams[t].poll();
            let ghost (s, step) = sort_merge::polled(m.streams[t as int]);
            assert(self.streams@ == before.update(t as int, self.streams@[t as int]));
            assert(self@.streams =~= m.streams.update(t as int, s));
            assert(forall|i: int| 0 <= i < self.streams@.len() ==> (#[trigger] self.streams@[i]).wf());
            match res {
                Err(e) => Err(e),
                Ok(RunStep::Fetch(b, n)) => Ok(Action::Fetch(b, n)),
                Ok(other) => {
                    self.settle(other);
                    assert(m.streams.update(t as int, s).update(t as int, s) =~= m.streams.update(
                        t as int,
                        s,
                    ));
                    Ok(Action::Again)
                },
            }
        } else {
            let taken = self.merger.take();
            assert(self@.heads.len() == self.merger.heads@.len());
            assert(m.heads.len() == old(self).merger.heads@.len());
            match taken {
                Some((i, row)) => {
                    self.turn = i;
                    self.starting = false;
                    Ok(Action::Row(row))
                },
                None => Ok(Action::Done),
            }
        }
    }

    /// Takes the blocks that were asked for.
    pub fn supply(&mut self, data: Vec<u8>, n: usize) -> (res: Result<(), DbError>)
        requires
            old(self).wf(),
            old(self).takes(n),
            data@.len() == n * old(self).streams@[old(self).turn as int].block_size,
        ensures
            final(self).wf(),
            (final(self)@, ops::fault_of(res)) == merge_supplied(old(self)@, data@, n as int),
            forall|b: usize| old(self).has_blocks_of(b) ==> #[trigger] final(self).has_blocks_of(b),
    {
        let ghost m = self@;
        let t: usize = self.turn;
        let ghost before = self.streams@;
        let res = self.streams[t].supply(data, n);
        let ghost (s, step) = sort_merge::supplied(m.streams[t as int], data@, n as int);
        assert(self.streams@ == before.update(t as int, self.streams@[t as int]));
        assert(self@.streams =~= m.streams.update(t as int, s));
        match res {
            Err(e) => Err(e),
            Ok(step) => {
                self.settle(step);
                assert(m.streams.update(t as int, s).update(t as int, s) =~= m.streams.update(
                    t as int,
                    s,
                ));
                Ok(())
            },
        }
    }
}

} // verus!
