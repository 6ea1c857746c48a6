//! The first pass of a sort: rows are gathered in a chunk, and a chunk that is full
//! is sorted and written as a run of blocks.

use vstd::prelude::*;
use vstd::slice::slice_subrange;
use vstd::string::*;

use crate::block::BlockWriter;
use crate::block;
use crate::disk::{allocate_anon_block_chunk, write_blocks, Disk, DiskState};
use crate::disk;
use crate::error::{DbError, Fault};
use crate::ops::rows::pick;
use crate::ops::rows;
use crate::ops::sort::{keys_view, keys_within, sort_positions};
use crate::ops::sort;
use crate::query::{SortKey, SortSpec};
use crate::row::{decode_row, encode_row, encode_row_len};
use crate::row;
use crate::schema::{Column, ColumnInfo};
use crate::value::{Data, Val};
use crate::value;

verus! {

/// Rows, encoded one behind the other, and where each begins.
pub struct SortChunk {
    pub bytes: Vec<u8>,
    pub offsets: Vec<usize>,
    pub weight: usize,
}

/// The mathematical value of a [`SortChunk`].
pub struct Chunk {
    pub bytes: Seq<u8>,
    pub offsets: Seq<usize>,
    pub weight: usize,
}

impl View for SortChunk {
    type V = Chunk;

    open spec fn view(&self) -> Chunk {
        Chunk { bytes: self.bytes@, offsets: self.offsets@, weight: self.weight }
    }
}

/// A chunk without rows.
pub open spec fn empty_chunk() -> Chunk {
    Chunk { bytes: Seq::empty(), offsets: Seq::empty(), weight: 0 }
}

/// A chunk with one more row.
pub open spec fn chunk_with(c: Chunk, r: Seq<Val>) -> Chunk {
    Chunk {
        bytes: c.bytes + row::encode_vals(r),
        offsets: c.offsets.push(c.bytes.len() as usize),
        weight: row::saturated((c.weight + row::saturated(row::row_weight(r))) as nat),
    }
}

/// Where row `i` of a chunk ends.
pub open spec fn row_end(c: Chunk, i: int) -> int {
    if i + 1 < c.offsets.len() {
        c.offsets[i + 1] as int
    } else {
        c.bytes.len() as int
    }
}

/// The bytes of row `i` of a chunk.
pub open spec fn row_slice(c: Chunk, i: int) -> Seq<u8> {
    c.bytes.subrange(c.offsets[i] as int, row_end(c, i))
}

impl Chunk {
    /// Whether the rows stand one behind the other.
    pub open spec fn wf(self) -> bool {
        forall|i: int|
            0 <= i < self.offsets.len() ==> (#[trigger] self.offsets[i]) <= row_end(self, i)
                <= self.bytes.len()
    }
}

/// The rows of a chunk, decoded, up to the first that cannot be.
pub open spec fn chunk_rows(c: Chunk, columns: Seq<Column>, n: nat) -> Result<Seq<Seq<Val>>, Fault>
    decreases n,
{
    if n == 0 {
        Ok(Seq::empty())
    } else {
        match chunk_rows(c, columns, (n - 1) as nat) {
            Err(e) => Err(e),
            Ok(before) => match row::decode_vals(c.bytes, c.offsets[n - 1] as int, columns) {
                Err(e) => Err(e),
                Ok((r, _)) => Ok(before.push(r)),
            },
        }
    }
}

/// All rows of a chunk, decoded.
pub open spec fn all_rows(c: Chunk, columns: Seq<Column>) -> Result<Seq<Seq<Val>>, Fault> {
    chunk_rows(c, columns, c.offsets.len())
}

proof fn lemma_chunk_rows_fail(c: Chunk, columns: Seq<Column>, k: nat, n: nat)
    requires
        k <= n,
        chunk_rows(c, columns, k) is Err,
    ensures
        chunk_rows(c, columns, n) == chunk_rows(c, columns, k),
    decreases n,
{
    if k < n {
        lemma_chunk_rows_fail(c, columns, k, (n - 1) as nat);
    }
}

/// Row `i` of a chunk, decoded.
pub open spec fn row_at(c: Chunk, columns: Seq<Column>, i: int) -> Result<Seq<Val>, Fault> {
    match row::decode_vals(c.bytes, c.offsets[i] as int, columns) {
        Err(e) => Err(e),
        Ok((r, _)) => Ok(r),
    }
}

proof fn lemma_chunk_rows_at(c: Chunk, columns: Seq<Column>, n: nat)
    requires
        chunk_rows(c, columns, n) is Ok,
    ensures
        chunk_rows(c, columns, n)->Ok_0.len() == n,
        forall|i: int|
            0 <= i < n ==> #[trigger] row_at(c, columns, i) == Ok::<Seq<Val>, Fault>(
                chunk_rows(c, columns, n)->Ok_0[i],
            ),
    decreases n,
{
    if n > 0 {
        lemma_chunk_rows_at(c, columns, (n - 1) as nat);
        let before = chunk_rows(c, columns, (n - 1) as nat)->Ok_0;
        let rows = chunk_rows(c, columns, n)->Ok_0;
        assert forall|i: int| 0 <= i < n implies #[trigger] row_at(c, columns, i) == Ok::<
            Seq<Val>,
            Fault,
        >(rows[i]) by {
            if i < n - 1 {
                assert(rows[i] == before[i]);
            }
        }
    }
}

/// Whether positions arrange the rows of a chunk, in the order of their keys where no
/// key is a NaN.
pub open spec fn sorts(p: Seq<usize>, rows: Seq<Seq<Val>>, keys: Seq<(int, bool)>) -> bool {
    &&& sort::arranges(p, 0, rows.len() as int)
    &&& sort::all_have_keys(rows, keys) ==> sort::ordered(rows, p, keys)
}

/// The bytes of the rows of a chunk, in this arrangement.
pub open spec fn slices(c: Chunk, p: Seq<usize>) -> Seq<Seq<u8>> {
    p.map_values(|i: usize| row_slice(c, i as int))
}

/// The rows in this arrangement.
pub open spec fn arranged(rows: Seq<Seq<Val>>, p: Seq<usize>) -> Seq<Seq<Val>> {
    p.map_values(|i: usize| rows[i as int])
}

/// Blocks of rows that are encoded already.
pub open spec fn packed_slices(parts: Seq<Seq<u8>>, block_size: nat) -> Seq<u8> {
    block::packing_finished(
        block::packing_with_all(block::nothing_packed(), parts, block_size),
        block_size,
    ).full
}

/// The key columns of rows, taken by themselves.
spec fn own_keys(keys: Seq<(int, bool)>) -> Seq<(int, bool)> {
    Seq::new(keys.len(), |i: int| (i, keys[i].1))
}

proof fn lemma_own_order(a: Seq<Val>, b: Seq<Val>, keys: Seq<(int, bool)>, n: nat)
    requires
        n <= keys.len(),
    ensures
        ({
            let at = keys.map_values(|k: (int, bool)| k.0);
            sort::rows_order(
                rows::picked(a, at),
                rows::picked(b, at),
                own_keys(keys).take(n as int),
            ) == sort::rows_order(a, b, keys.take(n as int))
        }),
    decreases n,
{
    let at = keys.map_values(|k: (int, bool)| k.0);
    if n == 0 {
        assert(own_keys(keys).take(0) =~= Seq::empty());
        assert(keys.take(0) =~= Seq::empty());
    } else {
        lemma_own_order(a, b, keys, (n - 1) as nat);
        assert(own_keys(keys).take(n as int).drop_last() =~= own_keys(keys).take(n - 1));
        assert(keys.take(n as int).drop_last() =~= keys.take(n - 1));
        assert(rows::picked(a, at)[n - 1] == a[keys[n - 1].0]);
        assert(rows::picked(b, at)[n - 1] == b[keys[n - 1].0]);
    }
}

impl SortChunk {
    /// A chunk without rows.
    pub fn new() -> (res: SortChunk)
        ensures
            res@ == empty_chunk(),
            res@.wf(),
    {
        SortChunk { bytes: Vec::new(), offsets: Vec::new(), weight: 0 }
    }

    /// Adds a row.
    pub fn push(&mut self, row: &Vec<Data>)
        requires
            old(self)@.wf(),
        ensures
            final(self)@ == chunk_with(old(self)@, row.deep_view()),
            final(self)@.wf(),
    {
        let ghost before = self@;
        self.weight = self.weight.saturating_add(encode_row_len(row));
        let at: usize = self.bytes.len();
        encode_row(row, &mut self.bytes);
        self.offsets.push(at);
        let ghost after = self@;
        proof {
            assert forall|i: int| 0 <= i < after.offsets.len() implies (
            #[trigger] after.offsets[i]) <= row_end(after, i) <= after.bytes.len() by {
                if i < before.offsets.len() {
                    assert(after.offsets[i] == before.offsets[i]);
                    assert(row_end(after, i) == row_end(before, i));
                }
            }
        }
    }

    /// Arranges the rows by their keys.
    pub fn arrange(&self, schema: &Vec<ColumnInfo>, keys: &Vec<(usize, bool)>) -> (res: Result<
        Vec<usize>,
        DbError,
    >)
        requires
            keys_within(keys@, schema@.len()),
        ensures
            match res {
                Ok(p) => all_rows(self@, schema.deep_view()) matches Ok(rows) && sorts(
                    p@,
                    rows,
                    keys_view(keys@),
                ) && rows.len() == self@.offsets.len(),
                Err(e) => all_rows(self@, schema.deep_view()) == Err::<Seq<Seq<Val>>, Fault>(e@),
            },
    {
        let ghost (c, cols) = (self@, schema.deep_view());
        let ghost k = keys_view(keys@);
        let ghost at = k.map_values(|x: (int, bool)| x.0);
        let mut columns: Vec<usize> = Vec::new();
        let mut own: Vec<(usize, bool)> = Vec::new();
        let mut i: usize = 0;
        while i < keys.len()
            invariant
                i <= keys@.len(),
                k == keys_view(keys@),
                at == k.map_values(|x: (int, bool)| x.0),
                keys_within(keys@, schema@.len()),
                columns@.len() == i,
                own@.len() == i,
                rows::all_below(columns@, schema@.len() as int),
                keys_within(own@, keys@.len()),
                forall|j: int| 0 <= j < i ==> #[trigger] columns@[j] == at[j],
                forall|j: int| 0 <= j < i ==> #[trigger] own@[j] == (j as usize, k[j].1),
            decreases keys@.len() - i,
        {
            columns.push(keys[i].0);
            own.push((i, keys[i].1));
            i += 1;
        }
        assert(rows::positions(columns@) =~= at);
        assert(keys_view(own@) =~= own_keys(k));
        let mut vals: Vec<Vec<Data>> = Vec::new();
        let mut n: usize = 0;
        let ghost mut rows: Seq<Seq<Val>> = Seq::empty();
        while n < self.offsets.len()
            invariant
                n <= self.offsets@.len(),
                c == self@,
                cols == schema.deep_view(),
                k == keys_view(keys@),
                at == k.map_values(|x: (int, bool)| x.0),
                rows::positions(columns@) == at,
                columns@.len() == keys@.len(),
                rows::all_below(columns@, schema@.len() as int),
                chunk_rows(c, cols, n as nat) == Ok::<Seq<Seq<Val>>, Fault>(rows),
                rows.len() == n,
                vals@.len() == n,
                forall|j: int| 0 <= j < n ==> (#[trigger] vals@[j])@.len() == keys@.len(),
                forall|j: int|
                    0 <= j < n ==> (#[trigger] vals@[j]).deep_view() == rows::picked(rows[j], at),
            decreases self.offsets@.len() - n,
        {
            match decode_row(self.bytes.as_slice(), self.offsets[n], schema) {
                Ok((r, _)) => {
                    vals.push(pick(&r, &columns));
                    proof {
                        rows = rows.push(r.deep_view());
                    }
                },
                Err(e) => {
                    proof {
                        lemma_chunk_rows_fail(c, cols, (n + 1) as nat, c.offsets.len());
                    }
                    return Err(e);
                },
            }
            n += 1;
        }
        let p = sort_positions(&vals, &own);
        proof {
            if sort::all_have_keys(rows, k) {
                let v = vals.deep_view();
                let o = own_keys(k);
                assert forall|j: int| 0 <= j < v.len() implies sort::has_keys(
                    #[trigger] v[j],
                    o,
                ) by {
                    assert(sort::has_keys(rows[j], k));
                    assert(v[j] == vals@[j].deep_view());
                    assert forall|m: int| 0 <= m < o.len() implies !value::is_nan(
                        v[j][(#[trigger] o[m]).0],
                    ) by {
                        assert(v[j][m] == rows[j][k[m].0]);
                    }
                }
                assert forall|x: int, y: int| 0 <= x < y < p@.len() implies sort::in_order(
                    rows,
                    (#[trigger] p@[x]) as int,
                    (#[trigger] p@[y]) as int,
                    k,
                ) by {
                    let (a, b) = (p@[x] as int, p@[y] as int);
                    assert(sort::in_order(v, a, b, o));
                    assert(v[a] == vals@[a].deep_view() && v[b] == vals@[b].deep_view());
                    lemma_own_order(rows[a], rows[b], k, k.len());
                    assert(o.take(k.len() as int) =~= o);
                    assert(k.take(k.len() as int) =~= k);
                }
            }
        }
        Ok(p)
    }

    /// The bytes of a row.
    fn row_bytes(&self, k: usize) -> (res: &[u8])
        requires
            self@.wf(),
            k < self.offsets@.len(),
        ensures
            res@ == row_slice(self@, k as int),
    {
        assert(self@.offsets[k as int] <= row_end(self@, k as int));
        let from: usize = self.offsets[k];
        let to: usize = if self.offsets.len() - k > 1 {
            self.offsets[k + 1]
        } else {
            self.bytes.len()
        };
        slice_subrange(self.bytes.as_slice(), from, to)
    }

    /// Sorts the rows and packs their bytes into blocks as they are.
    pub fn sort_chunk_raw(
        &self,
        schema: &Vec<ColumnInfo>,
        keys: &Vec<(usize, bool)>,
        block_size: usize,
    ) -> (res: Result<Vec<u8>, DbError>)
        requires
            self@.wf(),
            block_size >= 2,
            keys_within(keys@, schema@.len()),
        ensures
            match res {
                Ok(data) => all_rows(self@, schema.deep_view()) matches Ok(rows) && exists|
                    p: Seq<usize>,
                | #[trigger]
                    sorts(p, rows, keys_view(keys@)) && rows.len() == self@.offsets.len()
                        && data@ == packed_slices(slices(self@, p), block_size as nat),
                Err(e) => all_rows(self@, schema.deep_view()) == Err::<Seq<Seq<Val>>, Fault>(e@),
            },
    {
        let p = self.arrange(schema, keys)?;
        let ghost parts = slices(self@, p@);
        let mut w = BlockWriter::new();
        let mut i: usize = 0;
        assert(parts.take(0) =~= Seq::empty());
        while i < p.len()
            invariant
                i <= p@.len(),
                self@.wf(),
                block_size >= 2,
                parts == slices(self@, p@),
                sort::arranges(p@, 0, self.offsets@.len() as int),
                w@ == block::packing_with_all(
                    block::nothing_packed(),
                    parts.take(i as int),
                    block_size as nat,
                ),
            decreases p@.len() - i,
        {
            let k: usize = p[i];
            proof {
                assert(parts.take(i + 1).drop_last() =~= parts.take(i as int));
                assert(parts.take(i + 1).last() == row_slice(self@, k as int));
            }
            w.push_encoded(self.row_bytes(k), block_size);
            i += 1;
        }
        assert(parts.take(i as int) =~= parts);
        w.finish_block(block_size);
        assert(sorts(p@, all_rows(self@, schema.deep_view())->Ok_0, keys_view(keys@)));
        Ok(w.bytes)
    }

    /// Sorts the rows and gives them.
    pub fn sorted_rows(&self, schema: &Vec<ColumnInfo>, keys: &Vec<(usize, bool)>) -> (res: Result<
        Vec<Vec<Data>>,
        DbError,
    >)
        requires
            keys_within(keys@, schema@.len()),
        ensures
            match res {
                Ok(out) => all_rows(self@, schema.deep_view()) matches Ok(rows) && exists|
                    p: Seq<usize>,
                | #[trigger]
                    sorts(p, rows, keys_view(keys@)) && out.deep_view() == arranged(rows, p),
                Err(e) => all_rows(self@, schema.deep_view()) == Err::<Seq<Seq<Val>>, Fault>(e@),
            },
    {
        let p = self.arrange(schema, keys)?;
        let ghost rows = all_rows(self@, schema.deep_view())->Ok_0;
        let mut out: Vec<Vec<Data>> = Vec::new();
        let mut i: usize = 0;
        proof {
            lemma_chunk_rows_at(self@, schema.deep_view(), self@.offsets.len());
        }
        while i < p.len()
            invariant
                i <= p@.len(),
                rows.len() == self@.offsets.len(),
                all_rows(self@, schema.deep_view()) == Ok::<Seq<Seq<Val>>, Fault>(rows),
                sort::arranges(p@, 0, self.offsets@.len() as int),
                forall|j: int|
                    0 <= j < self@.offsets.len() ==> #[trigger] row_at(
                        self@,
                        schema.deep_view(),
                        j,
                    ) == Ok::<Seq<Val>, Fault>(rows[j]),
                out@.len() == i,
                forall|j: int|
                    0 <= j < i ==> (#[trigger] out@[j]).deep_view() == rows[p@[j] as int],
            decreases p@.len() - i,
        {
            let k: usize = p[i];
            assert(row_at(self@, schema.deep_view(), k as int) is Ok);
            match decode_row(self.bytes.as_slice(), self.offsets[k], schema) {
                Ok((r, _)) => {
                    out.push(r);
                },
                Err(e) => {
                    return Err(e);
                },
            }
            i += 1;
        }
        assert(out.deep_view() =~= arranged(rows, p@));
        assert(sorts(p@, rows, keys_view(keys@)));
        Ok(out)
    }
}

// ---- runs ----

/// A run of sorted rows in blocks.
#[derive(Clone, Copy, Debug)]
pub struct Run {
    pub start_block: u64,
    pub num_blocks: usize,
}

/// Whether the sort keys are the four columns for which a sort gets more memory.
pub open spec fn is_wide(specs: Seq<SortKey>) -> bool {
    &&& specs.len() == 4
    &&& specs[0].column == "l_returnflag"@
    &&& specs[1].column == "l_linestatus"@
    &&& specs[2].column == "l_orderkey"@
    &&& specs[3].column == "l_linenumber"@
}

/// The memory that a chunk may take: that of an operator, and for the wide sort 45
/// percent of all memory, up to 30 MB, if that is more.
pub open spec fn chunk_limit(budget: int, specs: Seq<SortKey>, memory_limit_mb: int) -> int {
    if is_wide(specs) {
        let share = memory_limit_mb * 1024 * 1024 * 45 / 100;
        let cap = 30int * 1024 * 1024;
        let most = if share < cap {
            share
        } else {
            cap
        };
        if budget < most {
            most
        } else {
            budget
        }
    } else {
        budget
    }
}

fn named(name: &String, expected: &str) -> (res: bool)
    ensures
        res == (name@ == expected@),
{
    *name == expected.to_owned()
}

/// Computes the memory that a chunk may take.
pub fn chunk_limit_bytes(budget: usize, specs: &Vec<SortSpec>, memory_limit_mb: u64) -> (res: usize)
    requires
        memory_limit_mb * 1024 * 1024 * 45 <= usize::MAX,
    ensures
        res == chunk_limit(budget as int, specs.deep_view(), memory_limit_mb as int),
{
    assert(specs.deep_view().len() == specs@.len());
    let wide = specs.len() == 4 && named(&specs[0].column_name, "l_returnflag") && named(
        &specs[1].column_name,
        "l_linestatus",
    ) && named(&specs[2].column_name, "l_orderkey") && named(
        &specs[3].column_name,
        "l_linenumber",
    );
    if wide {
        let share: usize = memory_limit_mb as usize * 1024 * 1024 * 45 / 100;
        let most: usize = if share < 30 * 1024 * 1024 {
            share
        } else {
            30 * 1024 * 1024
        };
        if budget < most {
            most
        } else {
            budget
        }
    } else {
        budget
    }
}

/// Writes whole blocks as a run. Appends the bytes to send.
fn write_run(data: &Vec<u8>, block_size: usize, disk: &mut DiskState, out: &mut Vec<u8>) -> (res:
    Run)
    requires
        old(disk).wf(),
        block_size >= 2,
        data@.len() == (data@.len() / (block_size as nat)) * (block_size as nat),
    ensures
        final(disk).wf(),
        old(disk).sized_for(block_size as nat) ==> final(disk).sized_for(block_size as nat),
        old(out)@.is_prefix_of(final(out)@),
        ({
            let d = old(disk)@;
            let num = (data@.len() / (block_size as nat)) as usize;
            let got = disk::wrote(disk::allocated(d, num as u64), d.next, num, data@);
            &&& res == (Run { start_block: d.next, num_blocks: num })
            &&& final(disk)@ == got.0
            &&& final(out)@.skip(old(out)@.len() as int) == got.1
        }),
{
    let ghost before = out@;
    let num: usize = data.len() / block_size;
    let start: u64 = allocate_anon_block_chunk(disk, num as u64);
    let mut sent = write_blocks(disk, start, num, data);
    let ghost bytes = sent@;
    out.append(&mut sent);
    assert(out@.skip(before.len() as int) =~= bytes);
    Run { start_block: start, num_blocks: num }
}

/// The first pass of a sort.
pub struct SortInput {
    pub schema: Vec<ColumnInfo>,
    pub keys: Vec<(usize, bool)>,
    pub block_size: usize,
    pub limit: usize,
    pub chunk: SortChunk,
    pub runs: Vec<Run>,
}

impl SortInput {
    /// Whether the keys are columns, and the chunk is in order.
    pub open spec fn wf(self) -> bool {
        &&& self.block_size >= 2
        &&& keys_within(self.keys@, self.schema@.len())
        &&& self.chunk@.wf()
    }

    /// Whether only the chunk and the runs differ.
    pub open spec fn same_sort(self, other: SortInput) -> bool {
        &&& self.schema == other.schema
        &&& self.keys == other.keys
        &&& self.block_size == other.block_size
        &&& self.limit == other.limit
    }

    /// A sort before its first row.
    pub fn new(schema: Vec<ColumnInfo>, keys: Vec<(usize, bool)>, block_size: usize, limit: usize) -> (res:
        SortInput)
        requires
            block_size >= 2,
            keys_within(keys@, schema@.len()),
        ensures
            res.wf(),
            res.schema == schema,
            res.keys == keys,
            res.block_size == block_size,
            res.limit == limit,
            res.chunk@ == empty_chunk(),
            res.runs@ == Seq::<Run>::empty(),
    {
        SortInput { schema, keys, block_size, limit, chunk: SortChunk::new(), runs: Vec::new() }
    }

    /// Whether a chunk became a run in this arrangement, and what was sent for it.
    pub open spec fn flushed_as(
        self,
        runs: Seq<Run>,
        chunk: Chunk,
        d: Disk,
        after: Disk,
        sent: Seq<u8>,
        p: Seq<usize>,
    ) -> bool {
        let rows = all_rows(chunk, self.schema.deep_view())->Ok_0;
        let data = packed_slices(slices(chunk, p), self.block_size as nat);
        let num = (data.len() / self.block_size as nat) as usize;
        let got = disk::wrote(disk::allocated(d, num as u64), d.next, num, data);
        &&& sorts(p, rows, keys_view(self.keys@))
        &&& self.runs@ == runs.push(Run { start_block: d.next, num_blocks: num })
        &&& self.chunk@ == empty_chunk()
        &&& after == got.0
        &&& sent == got.1
    }

    /// Whether a chunk became a run behind the others, and what was sent for it.
    pub open spec fn flushed(
        self,
        runs: Seq<Run>,
        chunk: Chunk,
        d: Disk,
        after: Disk,
        sent: Seq<u8>,
    ) -> bool {
        exists|p: Seq<usize>| #[trigger] self.flushed_as(runs, chunk, d, after, sent, p)
    }

    /// What happens where a chunk is to become a run: it does, or a row cannot be
    /// decoded and nothing changes.
    pub open spec fn flush_outcome(
        self,
        runs: Seq<Run>,
        chunk: Chunk,
        d: Disk,
        after: Disk,
        sent: Seq<u8>,
        res: Result<(), DbError>,
    ) -> bool {
        match all_rows(chunk, self.schema.deep_view()) {
            Ok(_) => res is Ok && self.flushed(runs, chunk, d, after, sent),
            Err(f) => {
                &&& res matches Err(e) && e@ == f
                &&& self.chunk@ == chunk
                &&& self.runs@ == runs
                &&& after == d
                &&& sent == Seq::<u8>::empty()
            },
        }
    }

    fn flush_run(&mut self, disk: &mut DiskState, out: &mut Vec<u8>) -> (res: Result<(), DbError>)
        requires
            old(self).wf(),
            old(disk).wf(),
        ensures
            final(self).wf(),
            final(disk).wf(),
            old(disk).sized_for(old(self).block_size as nat) ==> final(disk).sized_for(
                old(self).block_size as nat,
            ),
            final(self).same_sort(*old(self)),
            old(out)@.is_prefix_of(final(out)@),
            final(self).flush_outcome(
                old(self).runs@,
                old(self).chunk@,
                old(disk)@,
                final(disk)@,
                final(out)@.skip(old(out)@.len() as int),
                res,
            ),
    {
        let ghost before = out@;
        let data = match self.chunk.sort_chunk_raw(&self.schema, &self.keys, self.block_size) {
            Ok(data) => data,
            Err(e) => {
                assert(before.skip(before.len() as int) =~= Seq::<u8>::empty());
                return Err(e);
            },
        };
        let ghost rows = all_rows(self.chunk@, self.schema.deep_view())->Ok_0;
        let ghost p = choose|p: Seq<usize>|
            #[trigger] sorts(p, rows, keys_view(self.keys@)) && rows.len()
                == self.chunk@.offsets.len() && data@ == packed_slices(
                slices(self.chunk@, p),
                self.block_size as nat,
            );
        proof {
            block::packed_rows_fill_blocks(slices(self.chunk@, p), self.block_size as nat);
        }
        let run = write_run(&data, self.block_size, disk, out);
        self.runs.push(run);
        self.chunk = SortChunk::new();
        let ghost bytes = out@.skip(before.len() as int);
        assert(self.flushed_as(old(self).runs@, old(self).chunk@, old(disk)@, disk@, bytes, p));
        Ok(())
    }

    /// Takes a row; a chunk that is full becomes a run. Appends the bytes to send.
    pub fn push(&mut self, row: &Vec<Data>, disk: &mut DiskState, out: &mut Vec<u8>) -> (res: Result<
        (),
        DbError,
    >)
        requires
            old(self).wf(),
            old(disk).wf(),
        ensures
            final(self).wf(),
            final(disk).wf(),
            old(disk).sized_for(old(self).block_size as nat) ==> final(disk).sized_for(
                old(self).block_size as nat,
            ),
            final(self).same_sort(*old(self)),
            old(out)@.is_prefix_of(final(out)@),
            res is Ok && old(self).limit > 0 ==> final(self).chunk@.weight < old(self).limit,
            ({
                let c = chunk_with(old(self).chunk@, row.deep_view());
                if c.weight < old(self).limit {
                    &&& res is Ok
                    &&& final(self).chunk@ == c
                    &&& final(self).runs == old(self).runs
                    &&& final(disk)@ == old(disk)@
                    &&& final(out)@ == old(out)@
                } else {
                    final(self).flush_outcome(
                        old(self).runs@,
                        c,
                        old(disk)@,
                        final(disk)@,
                        final(out)@.skip(old(out)@.len() as int),
                        res,
                    )
                }
            }),
    {
        self.chunk.push(row);
        if self.chunk.weight >= self.limit {
            self.flush_run(disk, out)
        } else {
            Ok(())
        }
    }

    /// Ends the input: where there are runs, the rows that are left become one too.
    pub fn finish(&mut self, disk: &mut DiskState, out: &mut Vec<u8>) -> (res: Result<(), DbError>)
        requires
            old(self).wf(),
            old(disk).wf(),
        ensures
            final(self).wf(),
            final(disk).wf(),
            old(disk).sized_for(old(self).block_size as nat) ==> final(disk).sized_for(
                old(self).block_size as nat,
            ),
            final(self).same_sort(*old(self)),
            old(out)@.is_prefix_of(final(out)@),
            if old(self).runs@.len() == 0 || old(self).chunk@.offsets.len() == 0 {
                res is Ok && *final(self) == *old(self) && final(disk)@ == old(disk)@
                    && final(out)@ == old(out)@
            } else {
                final(self).flush_outcome(
                    old(self).runs@,
                    old(self).chunk@,
                    old(disk)@,
                    final(disk)@,
                    final(out)@.skip(old(out)@.len() as int),
                    res,
                )
            },
    {
        if self.runs.len() == 0 || self.chunk.offsets.len() == 0 {
            Ok(())
        } else {
            self.flush_run(disk, out)
        }
    }
}

} // verus!
