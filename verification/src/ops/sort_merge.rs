//! The later passes of a sort: runs are read block by block, and the least of their
//! first rows is taken again and again.

use vstd::prelude::*;
use vstd::slice::slice_subrange;

use crate::block::{unpack_block, BlockWriter, Packing};
use crate::block;
use crate::disk::{write_blocks, Disk, DiskState};
use crate::disk;
use crate::error::{DbError, Fault};
use crate::ops::sort::{keys_view, keys_within, order_rows};
use crate::ops::sort;
use crate::ops::sort_chunk::Run;
use crate::row::encode_row;
use crate::row;
use crate::schema::{Column, ColumnInfo};
use crate::value::{Data, Order, Val};

verus! {

/// The most runs that are merged at once.
pub const MAX_MERGE_WIDTH: usize = 256;

/// The number of full blocks from which a merged run is written.
pub const FLUSH_BLOCKS: usize = 512;

// ---- reading a run ----

/// A run that is read row by row.
pub struct RunStreamer {
    pub schema: Vec<ColumnInfo>,
    pub block_size: usize,
    /// The number of blocks that are read at once, if the run has as many.
    pub fetch_blocks: usize,
    pub next_block: u64,
    pub blocks_left: usize,
    /// Blocks that were read, of which those before `cached_head` have been decoded.
    pub cached_data: Vec<u8>,
    pub cached_count: usize,
    pub cached_head: usize,
    /// The rows of a decoded block, the first one last.
    pub cached_rows: Vec<Vec<Data>>,
}

/// What a run gives next.
pub enum RunStep {
    Row(Vec<Data>),
    /// These blocks have to be read first.
    Fetch(u64, usize),
    End,
}

/// The mathematical value of a [`RunStep`].
pub enum Step {
    Row(Seq<Val>),
    Fetch(u64, usize),
    End,
}

/// The mathematical value of a [`RunStreamer`].
pub struct Stream {
    pub columns: Seq<Column>,
    pub block_size: nat,
    pub fetch: nat,
    pub next_block: int,
    pub blocks_left: int,
    pub data: Seq<u8>,
    pub count: int,
    pub head: int,
    pub rows: Seq<Seq<Val>>,
}

impl View for RunStep {
    type V = Step;

    open spec fn view(&self) -> Step {
        match *self {
            RunStep::Row(r) => Step::Row(r.deep_view()),
            RunStep::Fetch(b, n) => Step::Fetch(b, n),
            RunStep::End => Step::End,
        }
    }
}

impl View for RunStreamer {
    type V = Stream;

    open spec fn view(&self) -> Stream {
        Stream {
            columns: self.schema.deep_view(),
            block_size: self.block_size as nat,
            fetch: self.fetch_blocks as nat,
            next_block: self.next_block as int,
            blocks_left: self.blocks_left as int,
            data: self.cached_data@,
            count: self.cached_count as int,
            head: self.cached_head as int,
            rows: self.cached_rows.deep_view().reverse(),
        }
    }
}

impl Stream {
    /// Whether the parts fit together.
    pub open spec fn wf(self) -> bool {
        &&& self.block_size >= 2
        &&& 1 <= self.fetch <= 4096
        &&& 0 <= self.blocks_left
        &&& 0 <= self.next_block <= u64::MAX
        &&& 0 <= self.head
        &&& 0 <= self.count
        &&& self.data.len() >= self.count * self.block_size
        &&& forall|i: int|
            0 <= i < self.rows.len() ==> (#[trigger] self.rows[i]).len() == self.columns.len()
    }
}

/// The number of blocks of a run that are read at once: an even share of the memory,
/// at least 16 blocks and at most 4096.
pub open spec fn fetch_share(pool: int, runs: int, block_size: int) -> int {
    let per = if runs * block_size < 1 {
        1
    } else {
        runs * block_size
    };
    let n = pool / per;
    if n < 16 {
        16
    } else if n > 4096 {
        4096
    } else {
        n
    }
}

/// A run gives the first of the rows it has decoded, or ends where there is none.
pub open spec fn first_row(s: Stream) -> (Stream, Step) {
    if s.rows.len() > 0 {
        (Stream { rows: s.rows.drop_first(), ..s }, Step::Row(s.rows[0]))
    } else {
        (s, Step::End)
    }
}

/// What a run gives next, and its state then: a decoded row, else the first row of
/// the next block that was read, else blocks to read, else its end.
pub open spec fn polled(s: Stream) -> (Stream, Result<Step, Fault>) {
    if s.rows.len() > 0 {
        (first_row(s).0, Ok(first_row(s).1))
    } else if s.head < s.count {
        match block::block_rows(
            block::nth_block(s.data, s.block_size, s.head),
            s.block_size,
            s.columns,
        ) {
            Err(e) => (s, Err(e)),
            Ok(rows) => {
                let t = Stream { rows, head: s.head + 1, ..s };
                (first_row(t).0, Ok(first_row(t).1))
            },
        }
    } else if s.blocks_left == 0 {
        (Stream { data: Seq::empty(), count: 0, ..s }, Ok(Step::End))
    } else {
        let n = if s.blocks_left < s.fetch {
            s.blocks_left
        } else {
            s.fetch as int
        };
        (s, Ok(Step::Fetch(s.next_block as u64, n as usize)))
    }
}

/// What a run gives once `n` blocks were read: the first row of the first of them.
pub open spec fn supplied(s: Stream, data: Seq<u8>, n: int) -> (Stream, Result<Step, Fault>) {
    match block::block_rows(block::nth_block(data, s.block_size, 0), s.block_size, s.columns) {
        Err(e) => (s, Err(e)),
        Ok(rows) => {
            let t = Stream {
                rows,
                next_block: disk::wrapped_sum(s.next_block as u64, n as u64) as int,
                blocks_left: s.blocks_left - n,
                data: if n > 1 {
                    data
                } else {
                    Seq::empty()
                },
                count: if n > 1 {
                    n
                } else {
                    0
                },
                head: if n > 1 {
                    1
                } else {
                    0
                },
                ..s
            };
            (first_row(t).0, Ok(first_row(t).1))
        },
    }
}

/// The mathematical value of what a run gave.
pub open spec fn step_view(res: Result<RunStep, DbError>) -> Result<Step, Fault> {
    match res {
        Ok(s) => Ok(s@),
        Err(e) => Err(e@),
    }
}

impl RunStreamer {
    /// Whether the parts fit together.
    pub open spec fn wf(self) -> bool {
        self@.wf()
    }

    /// A run before its first row, where `total_runs` runs share the memory.
    pub fn new(
        run: &Run,
        schema: Vec<ColumnInfo>,
        total_runs: usize,
        fetch_pool_bytes: usize,
        block_size: usize,
    ) -> (res: RunStreamer)
        requires
            block_size >= 2,
            total_runs * block_size <= usize::MAX,
        ensures
            res.wf(),
            res@ == (Stream {
                columns: schema.deep_view(),
                block_size: block_size as nat,
                fetch: fetch_share(
                    fetch_pool_bytes as int,
                    total_runs as int,
                    block_size as int,
                ) as nat,
                next_block: run.start_block as int,
                blocks_left: run.num_blocks as int,
                data: Seq::empty(),
                count: 0,
                head: 0,
                rows: Seq::empty(),
            }),
    {
        let all: usize = total_runs * block_size;
        let per: usize = if all < 1 {
            1
        } else {
            all
        };
        let n: usize = fetch_pool_bytes / per;
        let fetch_blocks: usize = if n < 16 {
            16
        } else if n > 4096 {
            4096
        } else {
            n
        };
        let s = RunStreamer {
            schema,
            block_size,
            fetch_blocks,
            next_block: run.start_block,
            blocks_left: run.num_blocks,
            cached_data: Vec::new(),
            cached_count: 0,
            cached_head: 0,
            cached_rows: Vec::new(),
        };
        assert(s@.rows =~= Seq::<Seq<Val>>::empty());
        assert(0 * s@.block_size == 0);
        s
    }

    fn pop_row(&mut self) -> (res: RunStep)
        requires
            old(self).wf(),
        ensures
            final(self).wf(),
            (final(self)@, res@) == first_row(old(self)@),
            res matches RunStep::Row(r) ==> r@.len() == old(self)@.columns.len(),
    {
        let ghost before = self.cached_rows.deep_view();
        assert(before.len() == self.cached_rows@.len());
        match self.cached_rows.pop() {
            Some(r) => {
                assert(r.deep_view() == before.last());
                assert(self.cached_rows.deep_view() =~= before.drop_last());
                assert(before.drop_last().reverse() =~= before.reverse().drop_first());
                assert(before.reverse()[0] == before.last());
                assert(old(self)@.rows[0].len() == old(self)@.columns.len());
                assert(r.deep_view().len() == r@.len());
                assert forall|i: int| 0 <= i < self@.rows.len() implies (
                #[trigger] self@.rows[i]).len() == self@.columns.len() by {
                    assert(self@.rows[i] == old(self)@.rows[i + 1]);
                }
                RunStep::Row(r)
            },
            None => RunStep::End,
        }
    }

    /// Gives what the run gives next.
    pub fn poll(&mut self) -> (res: Result<RunStep, DbError>)
        requires
            old(self).wf(),
        ensures
            final(self).wf(),
            (final(self)@, step_view(res)) == polled(old(self)@),
            res matches Ok(RunStep::Row(r)) ==> r@.len() == old(self)@.columns.len(),
    {
        assert(self@.rows.len() == self.cached_rows@.len());
        if self.cached_rows.len() > 0 {
            return Ok(self.pop_row());
        }
        let ghost bs = self@.block_size;
        if self.cached_head < self.cached_count {
            proof {
                let (h, c) = (self.cached_head as int, self.cached_count as int);
                assert(0 <= h * bs && h * bs + bs <= c * bs) by (nonlinear_arith)
                    requires
                        0 <= h < c,
                        bs >= 0,
                ;
                assert(self.cached_data@.len() == self.cached_data.len());
            }
            let from: usize = self.cached_head * self.block_size;
            let b = slice_subrange(self.cached_data.as_slice(), from, from + self.block_size);
            assert(b@ =~= block::nth_block(self@.data, bs, self@.head));
            let rows = unpack_block(b, self.block_size, &self.schema)?;
            self.cached_rows = reversed(rows);
            self.cached_head = self.cached_head + 1;
            proof {
                assert(widths_are(self.cached_rows@, self.schema@.len()));
                lemma_widths(*self);
            }
            return Ok(self.pop_row());
        }
        if self.blocks_left == 0 {
            self.cached_data = Vec::new();
            self.cached_count = 0;
            assert(0 * bs == 0);
            return Ok(RunStep::End);
        }
        let n: usize = if self.blocks_left < self.fetch_blocks {
            self.blocks_left
        } else {
            self.fetch_blocks
        };
        Ok(RunStep::Fetch(self.next_block, n))
    }

    /// Takes the `n` blocks that the run asked for.
    pub fn supply(&mut self, data: Vec<u8>, n: usize) -> (res: Result<RunStep, DbError>)
        requires
            old(self).wf(),
            1 <= n <= old(self).blocks_left,
            data@.len() == n * old(self).block_size,
        ensures
            final(self).wf(),
            (final(self)@, step_view(res)) == supplied(old(self)@, data@, n as int),
            res matches Ok(RunStep::Row(r)) ==> r@.len() == old(self)@.columns.len(),
    {
        let ghost bs = self@.block_size;
        proof {
            assert(bs <= n * bs) by (nonlinear_arith)
                requires
                    n >= 1,
                    bs >= 0,
            ;
            assert(0 * bs == 0);
        }
        let b = slice_subrange(data.as_slice(), 0, self.block_size);
        assert(b@ =~= block::nth_block(data@, bs, 0));
        let rows = unpack_block(b, self.block_size, &self.schema)?;
        self.cached_rows = reversed(rows);
        self.next_block = self.next_block.wrapping_add(n as u64);
        self.blocks_left = self.blocks_left - n;
        if n > 1 {
            self.cached_data = data;
            self.cached_count = n;
            self.cached_head = 1;
        } else {
            self.cached_data = Vec::new();
            self.cached_count = 0;
            self.cached_head = 0;
        }
        proof {
            assert(widths_are(self.cached_rows@, self.schema@.len()));
            lemma_widths(*self);
        }
        Ok(self.pop_row())
    }
}

proof fn lemma_widths(s: RunStreamer)
    requires
        widths_are(s.cached_rows@, s.schema@.len()),
    ensures
        forall|i: int|
            0 <= i < s@.rows.len() ==> (#[trigger] s@.rows[i]).len() == s@.columns.len(),
{
    let v = s.cached_rows.deep_view();
    assert forall|i: int| 0 <= i < s@.rows.len() implies (#[trigger] s@.rows[i]).len()
        == s@.columns.len() by {
        let j = v.len() - 1 - i;
        assert(s@.rows[i] == v[j]);
        assert(v[j] == s.cached_rows@[j].deep_view());
        assert(s.cached_rows@[j]@.len() == s.schema@.len());
    }
}

/// Rows in the opposite order.
pub fn reversed(rows: Vec<Vec<Data>>) -> (res: Vec<Vec<Data>>)
    ensures
        res.deep_view().reverse() == rows.deep_view(),
        forall|w: nat|
            (forall|i: int| 0 <= i < rows@.len() ==> (#[trigger] rows@[i])@.len() == w)
                ==> #[trigger] widths_are(res@, w),
{
    let ghost all = rows.deep_view();
    let ghost given = rows@;
    let mut rest = rows;
    let mut out: Vec<Vec<Data>> = Vec::new();
    assert(out.deep_view().reverse() =~= Seq::<Seq<Val>>::empty());
    assert(all + Seq::<Seq<Val>>::empty() =~= all);
    loop
        invariant
            rest.deep_view() + out.deep_view().reverse() == all,
            rest@.is_prefix_of(given),
            forall|i: int| 0 <= i < out@.len() ==> given.contains(#[trigger] out@[i]),
        ensures
            rest@.len() == 0,
        decreases rest@.len(),
    {
        let ghost a = rest.deep_view();
        let ghost b = out.deep_view();
        let ghost before = rest@;
        match rest.pop() {
            None => {
                break;
            },
            Some(r) => {
                assert(before.last() == r);
                assert(given[before.len() - 1] == r);
                out.push(r);
                assert(out.deep_view() =~= b.push(r.deep_view()));
                assert(rest.deep_view() =~= a.drop_last());
                assert(a.last() == r.deep_view());
                assert(rest.deep_view() + out.deep_view().reverse() =~= a + b.reverse());
            },
        }
    }
    assert(rest.deep_view() + out.deep_view().reverse() =~= out.deep_view().reverse());
    assert forall|w: nat|
        (forall|i: int| 0 <= i < given.len() ==> (#[trigger] given[i])@.len()
            == w) implies #[trigger] widths_are(out@, w) by {
        assert forall|i: int| 0 <= i < out@.len() implies (#[trigger] out@[i])@.len() == w by {
            assert(given.contains(out@[i]));
            let j = choose|j: int| 0 <= j < given.len() && given[j] == out@[i];
            assert(given[j]@.len() == w);
        }
    }
    out
}

/// Whether all rows have this width.
pub open spec fn widths_are(rows: Seq<Vec<Data>>, w: nat) -> bool {
    forall|i: int| 0 <= i < rows.len() ==> (#[trigger] rows[i])@.len() == w
}

// ---- the least row ----

/// The first row of each run that is not over.
pub struct Merger {
    pub keys: Vec<(usize, bool)>,
    pub heads: Vec<Option<Vec<Data>>>,
}

/// The mathematical value of the first rows.
pub open spec fn heads_view(heads: Seq<Option<Vec<Data>>>) -> Seq<Option<Seq<Val>>> {
    heads.map_values(
        |h: Option<Vec<Data>>|
            match h {
                Some(r) => Some(r.deep_view()),
                None => None,
            },
    )
}

/// The run whose first row is least; the first such run.
pub open spec fn least_head(heads: Seq<Option<Seq<Val>>>, keys: Seq<(int, bool)>) -> Option<int>
    decreases heads.len(),
{
    if heads.len() == 0 {
        None
    } else {
        match (least_head(heads.drop_last(), keys), heads.last()) {
            (before, None) => before,
            (None, Some(_)) => Some(heads.len() - 1),
            (Some(i), Some(r)) => if sort::rows_order(r, heads[i]->Some_0, keys) == Order::Less {
                Some(heads.len() - 1)
            } else {
                Some(i)
            },
        }
    }
}

/// The run whose first row is least is one that has a row.
pub proof fn lemma_least_head(heads: Seq<Option<Seq<Val>>>, keys: Seq<(int, bool)>)
    ensures
        match least_head(heads, keys) {
            Some(i) => 0 <= i < heads.len() && heads[i] is Some,
            None => forall|i: int| 0 <= i < heads.len() ==> (#[trigger] heads[i]) is None,
        },
    decreases heads.len(),
{
    if heads.len() > 0 {
        let before = heads.drop_last();
        lemma_least_head(before, keys);
        if least_head(heads, keys) is None {
            assert forall|i: int| 0 <= i < heads.len() implies (#[trigger] heads[i]) is None by {
                if i < before.len() {
                    assert(before[i] is None);
                }
            }
        }
    }
}

impl Merger {
    /// Whether every row has the keys.
    pub open spec fn wf(self) -> bool {
        forall|i: int|
            0 <= i < self.heads@.len() && (#[trigger] self.heads@[i]) is Some ==> keys_within(
                self.keys@,
                self.heads@[i]->Some_0@.len(),
            )
    }

    /// The first rows of `n` runs, none of which has given its first row.
    pub fn new(n: usize, keys: Vec<(usize, bool)>) -> (res: Merger)
        ensures
            res.wf(),
            res.keys == keys,
            heads_view(res.heads@) == Seq::new(n as nat, |i: int| None::<Seq<Val>>),
    {
        let mut heads: Vec<Option<Vec<Data>>> = Vec::new();
        while heads.len() < n
            invariant
                heads@.len() <= n,
                forall|i: int| 0 <= i < heads@.len() ==> (#[trigger] heads@[i]) is None,
            decreases n - heads@.len(),
        {
            heads.push(None);
        }
        assert(heads_view(heads@) =~= Seq::new(n as nat, |i: int| None::<Seq<Val>>));
        Merger { keys, heads }
    }

    /// Puts the next row of a run.
    pub fn put(&mut self, run: usize, row: Vec<Data>)
        requires
            old(self).wf(),
            run < old(self).heads@.len(),
            keys_within(old(self).keys@, row@.len()),
        ensures
            final(self).wf(),
            final(self).keys == old(self).keys,
            heads_view(final(self).heads@) == heads_view(old(self).heads@).update(
                run as int,
                Some(row.deep_view()),
            ),
    {
        let ghost before = heads_view(self.heads@);
        let ghost old_heads = self.heads@;
        self.heads.set(run, Some(row));
        assert(self.heads@ == old_heads.update(run as int, Some(row)));
        assert(heads_view(self.heads@) =~= before.update(run as int, Some(row.deep_view())));
    }

    /// Takes the least row, and says of which run it is.
    pub fn take(&mut self) -> (res: Option<(usize, Vec<Data>)>)
        requires
            old(self).wf(),
        ensures
            final(self).wf(),
            final(self).keys == old(self).keys,
            match least_head(heads_view(old(self).heads@), keys_view(old(self).keys@)) {
                Some(i) => {
                    &&& res matches Some((run, row))
                    &&& run == i
                    &&& run < old(self).heads@.len()
                    &&& heads_view(old(self).heads@)[i] == Some(row.deep_view())
                    &&& heads_view(final(self).heads@) == heads_view(old(self).heads@).update(
                        i,
                        None,
                    )
                },
                None => res is None && heads_view(final(self).heads@) == heads_view(
                    old(self).heads@,
                ),
            },
    {
        let ghost h = heads_view(self.heads@);
        let ghost k = keys_view(self.keys@);
        let mut best: Option<usize> = None;
        let mut i: usize = 0;
        assert(h.take(0) =~= Seq::empty());
        while i < self.heads.len()
            invariant
                i <= self.heads@.len(),
                self.wf(),
                h == heads_view(self.heads@),
                k == keys_view(self.keys@),
                match best {
                    Some(b) => least_head(h.take(i as int), k) == Some(b as int) && b < i
                        && self.heads@[b as int] is Some,
                    None => least_head(h.take(i as int), k) is None,
                },
            decreases self.heads@.len() - i,
        {
            proof {
                assert(h.take(i + 1).drop_last() =~= h.take(i as int));
                assert(h.take(i + 1).last() == h[i as int]);
            }
            match &self.heads[i] {
                None => {},
                Some(r) => match best {
                    None => {
                        best = Some(i);
                    },
                    Some(b) => match &self.heads[b] {
                        None => {},
                        Some(other) => {
                            assert(h.take(i + 1)[b as int] == h[b as int]);
                            if order_rows(r, other, &self.keys) == Order::Less {
                                best = Some(i);
                            }
                        },
                    },
                },
            }
            i += 1;
        }
        assert(h.take(i as int) =~= h);
        match best {
            None => None,
            Some(b) => {
                let ghost old_heads = self.heads@;
                let mut slot: Option<Vec<Data>> = None;
                std::mem::swap(&mut slot, &mut self.heads[b]);
                assert(self.heads@ == old_heads.update(b as int, None));
                assert(heads_view(self.heads@) =~= h.update(b as int, None));
                match slot {
                    Some(row) => Some((b, row)),
                    None => None,
                }
            },
        }
    }
}

// ---- writing a merged run ----

/// A merged run that is written as it grows.
pub struct RunWriter {
    pub block_size: usize,
    pub writer: BlockWriter,
    pub start_block: u64,
    /// The blocks that were written.
    pub written: u64,
    /// The blocks that are full.
    pub total_blocks: usize,
}

/// The mathematical value of a [`RunWriter`].
pub struct Growing {
    pub block_size: nat,
    pub packing: Packing,
    pub start: u64,
    pub written: u64,
    pub total: usize,
}

impl View for RunWriter {
    type V = Growing;

    open spec fn view(&self) -> Growing {
        Growing {
            block_size: self.block_size as nat,
            packing: self.writer@,
            start: self.start_block,
            written: self.written,
            total: self.total_blocks,
        }
    }
}

/// The full blocks are written behind those that were written before.
pub open spec fn full_written(g: Growing, d: Disk) -> (Growing, Disk, Seq<u8>) {
    let num = (g.packing.full.len() / g.block_size) as usize;
    let got = disk::wrote(d, disk::wrapped_sum(g.start, g.written), num, g.packing.full);
    (
        Growing {
            packing: Packing { full: Seq::empty(), ..g.packing },
            written: disk::wrapped_sum(g.written, num as u64),
            ..g
        },
        got.0,
        got.1,
    )
}

/// A row joins a merged run; where that fills a block, and enough blocks are full,
/// they are written.
pub open spec fn grown(g: Growing, r: Seq<Val>, d: Disk) -> (Growing, Disk, Seq<u8>) {
    let enc = row::encode_vals(r);
    let more = Growing {
        packing: block::packing_with(g.packing, enc, g.block_size),
        total: if g.packing.open.len() + enc.len() > g.block_size - 2 {
            row::saturated((g.total + 1) as nat)
        } else {
            g.total
        },
        ..g
    };
    if g.packing.open.len() + enc.len() > g.block_size - 2 && more.packing.full.len()
        / g.block_size >= FLUSH_BLOCKS {
        full_written(more, d)
    } else {
        (more, d, Seq::empty())
    }
}

/// A merged run ends: its last block is closed if it has a row, and what was not
/// written is written.
pub open spec fn run_ended(g: Growing, d: Disk) -> (Growing, Disk, Seq<u8>) {
    let closed = if g.packing.count > 0 {
        Growing {
            packing: block::packing_sealed(g.packing, g.block_size),
            total: row::saturated((g.total + 1) as nat),
            ..g
        }
    } else {
        g
    };
    if closed.packing.full.len() > 0 {
        full_written(closed, d)
    } else {
        (closed, d, Seq::empty())
    }
}

impl RunWriter {
    /// Whether what is full is whole blocks.
    pub open spec fn wf(self) -> bool {
        &&& self.block_size >= 2
        &&& block::is_whole(self.writer@, self.block_size as nat)
    }

    /// A merged run without rows, whose first block is `start_block`.
    pub fn new(start_block: u64, block_size: usize) -> (res: RunWriter)
        requires
            block_size >= 2,
        ensures
            res.wf(),
            res.block_size == block_size,
            res@ == (Growing {
                block_size: block_size as nat,
                packing: block::nothing_packed(),
                start: start_block,
                written: 0,
                total: 0,
            }),
    {
        assert(0nat % (block_size as nat) == 0) by (nonlinear_arith)
            requires
                block_size >= 2,
        ;
        RunWriter {
            block_size,
            writer: BlockWriter::new(),
            start_block,
            written: 0,
            total_blocks: 0,
        }
    }

    fn write_full(&mut self, disk: &mut DiskState, out: &mut Vec<u8>)
        requires
            old(self).wf(),
            old(disk).wf(),
        ensures
            final(self).wf(),
            final(disk).wf(),
            old(disk).sized_for(old(self).block_size as nat) ==> final(disk).sized_for(
                old(self).block_size as nat,
            ),
            final(self).block_size == old(self).block_size,
            ({
                let got = full_written(old(self)@, old(disk)@);
                final(self)@ == got.0 && final(disk)@ == got.1 && final(out)@ == old(out)@ + got.2
            }),
    {
        let num: usize = self.writer.bytes.len() / self.block_size;
        proof {
            block::lemma_whole(self.writer.bytes@.len(), self.block_size as nat);
        }
        let at: u64 = self.start_block.wrapping_add(self.written);
        let mut sent = write_blocks(disk, at, num, &self.writer.bytes);
        out.append(&mut sent);
        self.written = self.written.wrapping_add(num as u64);
        self.writer.bytes = Vec::new();
        assert(0nat % (self.block_size as nat) == 0) by (nonlinear_arith)
            requires
                self.block_size >= 2,
        ;
    }

    /// Adds a row. Appends the bytes to send.
    pub fn push(&mut self, row: &Vec<Data>, disk: &mut DiskState, out: &mut Vec<u8>)
        requires
            old(self).wf(),
            old(disk).wf(),
        ensures
            final(self).wf(),
            final(disk).wf(),
            old(disk).sized_for(old(self).block_size as nat) ==> final(disk).sized_for(
                old(self).block_size as nat,
            ),
            final(self).block_size == old(self).block_size,
            ({
                let got = grown(old(self)@, row.deep_view(), old(disk)@);
                final(self)@ == got.0 && final(disk)@ == got.1 && final(out)@ == old(out)@ + got.2
            }),
    {
        let ghost sent = out@;
        let mut enc: Vec<u8> = Vec::new();
        encode_row(row, &mut enc);
        assert(enc@ =~= row::encode_vals(row.deep_view()));
        proof {
            block::lemma_packing_whole(self.writer@, enc@, self.block_size as nat);
        }
        let room: usize = self.block_size - 2;
        let fills = enc.len() > room || self.writer.current_block.len() > room - enc.len();
        self.writer.push_encoded(enc.as_slice(), self.block_size);
        if fills {
            self.total_blocks = self.total_blocks.saturating_add(1);
            if self.writer.bytes.len() / self.block_size >= FLUSH_BLOCKS {
                self.write_full(disk, out);
            }
        }
        assert(sent + Seq::<u8>::empty() =~= sent);
    }

    /// Ends the run and gives it. Appends the bytes to send.
    pub fn finish(&mut self, disk: &mut DiskState, out: &mut Vec<u8>) -> (res: Run)
        requires
            old(self).wf(),
            old(disk).wf(),
        ensures
            final(self).wf(),
            final(disk).wf(),
            old(disk).sized_for(old(self).block_size as nat) ==> final(disk).sized_for(
                old(self).block_size as nat,
            ),
            ({
                let got = run_ended(old(self)@, old(disk)@);
                &&& final(self)@ == got.0
                &&& final(disk)@ == got.1
                &&& final(out)@ == old(out)@ + got.2
                &&& res.start_block == got.0.start
                &&& res.num_blocks == got.0.total
            }),
    {
        let ghost sent = out@;
        proof {
            block::lemma_sealed_whole(self.writer@, self.block_size as nat);
        }
        if self.writer.row_count > 0 {
            self.writer.seal(self.block_size);
            self.total_blocks = self.total_blocks.saturating_add(1);
        }
        if self.writer.bytes.len() > 0 {
            self.write_full(disk, out);
        }
        assert(sent + Seq::<u8>::empty() =~= sent);
        Run { start_block: self.start_block, num_blocks: self.total_blocks }
    }
}

// ---- cascades ----

/// The blocks of runs, together.
pub open spec fn blocks_of_runs(runs: Seq<Run>) -> nat
    decreases runs.len(),
{
    if runs.len() == 0 {
        0
    } else {
        blocks_of_runs(runs.drop_last()) + runs.last().num_blocks as nat
    }
}

/// Adds up the blocks of runs.
pub fn count_blocks(runs: &Vec<Run>) -> (res: usize)
    ensures
        res == row::saturated(blocks_of_runs(runs@)),
{
    let mut sum: usize = 0;
    let mut i: usize = 0;
    assert(runs@.take(0) =~= Seq::empty());
    while i < runs.len()
        invariant
            i <= runs@.len(),
            sum == row::saturated(blocks_of_runs(runs@.take(i as int))),
        decreases runs@.len() - i,
    {
        assert(runs@.take(i + 1).drop_last() =~= runs@.take(i as int));
        assert(runs@.take(i + 1).last() == runs@[i as int]);
        sum = sum.saturating_add(runs[i].num_blocks);
        i += 1;
    }
    assert(runs@.take(i as int) =~= runs@);
    sum
}

} // verus!
