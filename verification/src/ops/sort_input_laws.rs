//! Laws of the input of a sort: every row is in a sorted run, or waits in the chunk.

use vstd::multiset::Multiset;
use vstd::prelude::*;

use crate::block;
use crate::cache;
use crate::disk::Disk;
use crate::error::Fault;
use crate::ops::merge_laws;
use crate::ops::run_laws;
use crate::ops::sort::keys_view;
use crate::ops::sort;
use crate::ops::sort_chunk::{Chunk, Run, SortInput};
use crate::ops::sort_chunk;
use crate::ops::sort_laws;
use crate::ops::sort_merge::MAX_MERGE_WIDTH;
use crate::ops::sort_output::{Sorting, Stage};
use crate::ops::sort_output;
use crate::ops::sort_output_laws::Contents;
use crate::ops::sort_output_laws;
use crate::row;
use crate::schema::Column;
use crate::seqs;
use crate::value::Val;

verus! {

/// The rows that came to a sort: those of each run, and those of the chunk.
pub struct Intake {
    pub runs: Seq<Seq<Seq<Val>>>,
    pub chunk: Seq<Seq<Val>>,
}

/// All rows that came to a sort.
pub open spec fn rows_in(t: Intake) -> Multiset<Seq<Val>> {
    sort_laws::pooled(t.runs).add(t.chunk.to_multiset())
}

/// Whether a sort holds the rows that came: each run its own, sorted where no key is a NaN,
/// and the chunk those that came since the last run.
pub open spec fn input_holds(
    runs: Seq<Run>,
    chunk: Chunk,
    t: Intake,
    columns: Seq<Column>,
    keys: Seq<(int, bool)>,
    block_size: nat,
    next: int,
    disk: Map<int, Seq<u8>>,
) -> bool {
    &&& 2 <= block_size
    &&& cache::uniform(disk, block_size)
    &&& sort_output_laws::holds_each(runs, t.runs, columns, block_size, disk)
    &&& sort_output_laws::below(runs, next)
    &&& chunk == sort_laws::chunk_of(t.chunk)
    &&& sort_output_laws::storable(rows_in(t), columns, block_size)
    &&& forall|i: int|
        0 <= i < t.runs.len() && sort::all_have_keys(#[trigger] t.runs[i], keys)
            ==> sort_laws::sorted(t.runs[i], keys)
}

/// A sort before its first row holds no rows.
pub proof fn a_sort_begins_without_rows(
    columns: Seq<Column>,
    keys: Seq<(int, bool)>,
    block_size: nat,
    next: int,
    disk: Map<int, Seq<u8>>,
)
    requires
        2 <= block_size,
        cache::uniform(disk, block_size),
    ensures
        ({
            let t = Intake { runs: Seq::empty(), chunk: Seq::empty() };
            &&& input_holds(
                Seq::empty(),
                sort_chunk::empty_chunk(),
                t,
                columns,
                keys,
                block_size,
                next,
                disk,
            )
            &&& rows_in(t) == Multiset::<Seq<Val>>::empty()
        }),
{
    seqs::lemma_empty_multiset::<Seq<Val>>();
    block::lemma_none_packable(columns, block_size);
    sort_output_laws::lemma_rows_storable(Seq::empty(), columns, block_size);
    assert(Multiset::<Seq<Val>>::empty().add(Multiset::empty()) =~= Multiset::empty());
}

/// A row joins the chunk.
pub proof fn a_row_joins_the_chunk(
    runs: Seq<Run>,
    chunk: Chunk,
    t: Intake,
    r: Seq<Val>,
    columns: Seq<Column>,
    keys: Seq<(int, bool)>,
    block_size: nat,
    next: int,
    disk: Map<int, Seq<u8>>,
)
    requires
        input_holds(runs, chunk, t, columns, keys, block_size, next, disk),
        sort_output_laws::storable(rows_in(t).insert(r), columns, block_size),
    ensures
        ({
            let u = Intake { chunk: t.chunk.push(r), ..t };
            &&& input_holds(
                runs,
                sort_chunk::chunk_with(chunk, r),
                u,
                columns,
                keys,
                block_size,
                next,
                disk,
            )
            &&& rows_in(u) == rows_in(t).insert(r)
        }),
{
    let u = Intake { chunk: t.chunk.push(r), ..t };
    assert(u.chunk.drop_last() =~= t.chunk);
    vstd::seq_lib::to_multiset_build(t.chunk, r);
    assert(rows_in(u) =~= rows_in(t).insert(r));
}

proof fn lemma_chunk_packable(t: Intake, columns: Seq<Column>, block_size: nat)
    requires
        sort_output_laws::storable(rows_in(t), columns, block_size),
    ensures
        block::all_packable(t.chunk, columns, block_size),
{
    sort_output_laws::lemma_some_storable(rows_in(t), t.chunk, columns, block_size);
}

/// A chunk that is written becomes a sorted run of its rows, behind the others.
pub proof fn a_full_chunk_becomes_a_run(
    input: SortInput,
    runs: Seq<Run>,
    chunk: Chunk,
    t: Intake,
    d: Disk,
    after: Disk,
    sent: Seq<u8>,
    p: Seq<usize>,
    disk: Map<int, Seq<u8>>,
)
    requires
        input.flushed_as(runs, chunk, d, after, sent, p),
        input_holds(
            runs,
            chunk,
            t,
            input.schema.deep_view(),
            keys_view(input.keys@),
            input.block_size as nat,
            d.next as int,
            disk,
        ),
        block::joined(block::rows_bytes(t.chunk)).len() <= usize::MAX,
        ({
            let data = sort_chunk::packed_slices(
                sort_chunk::slices(chunk, p),
                input.block_size as nat,
            );
            &&& data.len() <= usize::MAX
            &&& d.next + data.len() / (input.block_size as nat) <= u64::MAX
        }),
    ensures
        ({
            let data = sort_chunk::packed_slices(
                sort_chunk::slices(chunk, p),
                input.block_size as nat,
            );
            let num = data.len() / (input.block_size as nat);
            let u = Intake {
                runs: t.runs.push(sort_chunk::arranged(t.chunk, p)),
                chunk: Seq::empty(),
            };
            &&& input_holds(
                input.runs@,
                input.chunk@,
                u,
                input.schema.deep_view(),
                keys_view(input.keys@),
                input.block_size as nat,
                after.next as int,
                cache::written(disk, d.next as int, num, data, input.block_size as nat),
            )
            &&& rows_in(u) == rows_in(t)
        }),
{
    let columns = input.schema.deep_view();
    let keys = keys_view(input.keys@);
    let bs = input.block_size as nat;
    let rows = t.chunk;
    lemma_chunk_packable(t, columns, bs);
    assert(sort_laws::all_stored(rows, columns)) by {
        assert forall|i: int| 0 <= i < rows.len() implies row::row_fits(#[trigger] rows[i], columns)
            && row::row_storable(rows[i]) by {
            assert(block::packable(rows[i], columns, bs));
        }
    }
    let got = sort_chunk::all_rows(chunk, columns)->Ok_0;
    sort_laws::a_chunk_gives_back_its_rows(rows, columns);
    assert(got == rows);
    let data = sort_chunk::packed_slices(sort_chunk::slices(chunk, p), bs);
    let num = data.len() / bs;
    assert(num <= data.len()) by (nonlinear_arith)
        requires
            num == data.len() / bs,
            bs >= 2,
    ;
    run_laws::a_chunk_becomes_a_run_of_its_rows(rows, columns, p, bs, d.next, disk);
    sort_laws::sorting_in_memory_sorts(rows, p, keys);
    let out = sort_chunk::arranged(rows, p);
    let u = Intake { runs: t.runs.push(out), chunk: Seq::empty() };
    let now = cache::written(disk, d.next as int, num, data, bs);
    cache::lemma_written_same_before(disk, d.next as int, num, data, bs, d.next as int);
    sort_output_laws::lemma_same_runs(runs, t.runs, columns, bs, disk, now, d.next as int);
    block::lemma_some_packable(rows, out, columns, bs);
    let k = block::lemma_packed_are_unpacked(out, columns, bs);
    sort_laws::chunk_keeps_its_rows(rows, columns, p, bs);
    assert(num * bs == data.len()) by (nonlinear_arith)
        requires
            data.len() == k * bs,
            num == data.len() / bs,
            bs >= 2,
    ;
    let run = Run { start_block: d.next, num_blocks: num as usize };
    assert forall|i: int| 0 <= i < input.runs@.len() implies merge_laws::run_holds(
        #[trigger] input.runs@[i],
        u.runs[i],
        columns,
        bs,
        now,
    ) && input.runs@[i].num_blocks == block::packed_blocks(u.runs[i], bs)
        && input.runs@[i].start_block + input.runs@[i].num_blocks <= after.next by {
        if i < runs.len() {
            assert(input.runs@[i] == runs[i]);
        } else {
            assert(input.runs@[i] == run);
        }
    }
    assert(u.runs.drop_last() =~= t.runs);
    seqs::lemma_empty_multiset::<Seq<Val>>();
    assert(rows_in(u) =~= rows_in(t));
    assert forall|i: int|
        0 <= i < u.runs.len() && sort::all_have_keys(#[trigger] u.runs[i], keys) implies sort_laws::sorted(
        u.runs[i],
        keys,
    ) by {
        if i < t.runs.len() {
            assert(u.runs[i] == t.runs[i]);
        } else {
            assert(sort::all_have_keys(rows, keys)) by {
                lemma_keys_of_arrangement(rows, p, keys);
            }
        }
    }
    cache::lemma_written_uniform(disk, d.next as int, num, data, bs);
}

proof fn lemma_keys_of_arrangement(rows: Seq<Seq<Val>>, p: Seq<usize>, keys: Seq<(int, bool)>)
    requires
        sort::arranges(p, 0, rows.len() as int),
        sort::all_have_keys(sort_chunk::arranged(rows, p), keys),
    ensures
        sort::all_have_keys(rows, keys),
{
    let out = sort_chunk::arranged(rows, p);
    sort_laws::arrangement_keeps_the_rows(rows, p);
    assert forall|i: int| 0 <= i < rows.len() implies sort::has_keys(#[trigger] rows[i], keys) by {
        vstd::seq_lib::to_multiset_contains(rows, rows[i]);
        vstd::seq_lib::to_multiset_contains(out, rows[i]);
        let j = choose|j: int| 0 <= j < out.len() && out[j] == rows[i];
        assert(sort::has_keys(out[j], keys));
    }
}

// ---- the output ----

/// The output of a sort whose rows went to runs begins with all of them to come, in order
/// where no key is a NaN.
pub proof fn the_output_begins_with_the_rows_of_the_runs(
    s: Sorting,
    runs: Seq<Run>,
    t: Intake,
    d: Disk,
    disk: Map<int, Seq<u8>>,
) -> (c: Contents)
    requires
        input_holds(
            runs,
            sort_chunk::empty_chunk(),
            t,
            s.columns,
            s.keys,
            s.block_size as nat,
            d.next as int,
            disk,
        ),
        t.chunk.len() == 0,
        s.block_size >= 0,
        runs.len() > MAX_MERGE_WIDTH ==> {
            &&& rows_in(t).len() < usize::MAX
            &&& d.next + rows_in(t).len() * runs.len() < u64::MAX
        },
    ensures
        ({
            let (stage, after) = sort_output::round_begun(s, runs, d);
            let u = Sorting { stage, ..s };
            &&& sort_output_laws::goes_right(u, after.next as int, disk, c)
            &&& sort_output_laws::rows_to_come(u, disk, c) == rows_in(t)
            &&& c.keyed == sort_output_laws::keyed(rows_in(t), s.keys)
        }),
{
    let all = sort_laws::pooled(t.runs);
    let is_keyed = sort_output_laws::keyed(rows_in(t), s.keys);
    assert(t.chunk =~= Seq::empty());
    seqs::lemma_empty_multiset::<Seq<Val>>();
    assert(rows_in(t) =~= all);
    if is_keyed {
        sort_output_laws::lemma_pool_keyed(t.runs, all, s.keys);
        assert forall|i: int| 0 <= i < t.runs.len() implies sort_laws::sorted(
            #[trigger] t.runs[i],
            s.keys,
        ) by {
            assert(sort::all_have_keys(t.runs[i], s.keys));
        }
    }
    sort_output_laws::a_round_begins_with_the_rows_of_its_runs(
        s,
        runs,
        t.runs,
        is_keyed,
        d,
        disk,
    )
}

/// The output of a sort whose rows are in memory begins with all of them to come, in order
/// where no key is a NaN.
pub proof fn the_output_begins_with_the_rows_of_the_chunk(
    s: Sorting,
    rows: Seq<Seq<Val>>,
    p: Seq<usize>,
    next: int,
    disk: Map<int, Seq<u8>>,
) -> (c: Contents)
    requires
        sort_laws::all_stored(rows, s.columns),
        block::joined(block::rows_bytes(rows)).len() <= usize::MAX,
        sort_chunk::sorts(p, rows, s.keys),
    ensures
        sort_chunk::all_rows(sort_laws::chunk_of(rows), s.columns) == Ok::<Seq<Seq<Val>>, Fault>(
            rows,
        ),
        ({
            let u = Sorting { stage: Stage::Memory(sort_chunk::arranged(rows, p)), ..s };
            &&& sort_output_laws::goes_right(u, next, disk, c)
            &&& sort_output_laws::rows_to_come(u, disk, c) == rows.to_multiset()
            &&& c.keyed == sort_output_laws::keyed(rows.to_multiset(), s.keys)
        }),
{
    sort_laws::a_chunk_gives_back_its_rows(rows, s.columns);
    sort_laws::sorting_in_memory_sorts(rows, p, s.keys);
    let is_keyed = sort_output_laws::keyed(rows.to_multiset(), s.keys);
    if is_keyed {
        assert forall|i: int| 0 <= i < rows.len() implies sort::has_keys(
            #[trigger] rows[i],
            s.keys,
        ) by {
            vstd::seq_lib::to_multiset_contains(rows, rows[i]);
            assert(rows.to_multiset().contains(rows[i]));
        }
    }
    Contents {
        group: Seq::empty(),
        rest: Seq::empty(),
        done: Seq::empty(),
        grown: Seq::empty(),
        keyed: is_keyed,
    }
}

// ---- the whole input ----

/// A sort that takes its rows, the disk, and what its blocks are.
pub struct Taking {
    pub input: SortInput,
    pub disk: Disk,
    pub blocks: Map<int, Seq<u8>>,
}

/// Whether a chunk became a run in this arrangement.
pub open spec fn chunk_written(a: Taking, chunk: Chunk, b: Taking, p: Seq<usize>) -> bool {
    let bs = a.input.block_size as nat;
    let data = sort_chunk::packed_slices(sort_chunk::slices(chunk, p), bs);
    &&& b.input.same_sort(a.input)
    &&& chunk.bytes.len() <= usize::MAX
    &&& data.len() <= usize::MAX
    &&& exists|sent: Seq<u8>| #[trigger]
        b.input.flushed_as(a.input.runs@, chunk, a.disk, b.disk, sent, p)
    &&& b.blocks == cache::written(a.blocks, a.disk.next as int, data.len() / bs, data, bs)
}

/// Whether a sort took a row: it joined the chunk, which became a run if it was full.
pub open spec fn took_row(a: Taking, r: Seq<Val>, b: Taking) -> bool {
    let c = sort_chunk::chunk_with(a.input.chunk@, r);
    if c.weight < a.input.limit {
        &&& b.input.same_sort(a.input)
        &&& b.input.chunk@ == c
        &&& b.input.runs@ == a.input.runs@
        &&& b.disk == a.disk
        &&& b.blocks == a.blocks
    } else {
        exists|p: Seq<usize>| #[trigger] chunk_written(a, c, b, p)
    }
}

/// Whether other operators only took blocks that were free, and wrote only to these; so many
/// block numbers are left.
pub open spec fn left_alone(a: Taking, b: Taking, numbers: nat) -> bool {
    &&& b.input == a.input
    &&& a.disk.next <= b.disk.next
    &&& cache::same_before(a.blocks, b.blocks, a.disk.next as int)
    &&& cache::uniform(b.blocks, a.input.block_size as nat)
    &&& b.disk.next + numbers <= u64::MAX
}

/// Whether a sort took rows, one by one, through these states. Other operators may work before
/// each row, and before the end of the input: `met` is the state in which they leave it.
pub open spec fn took(states: Seq<Taking>, met: Seq<Taking>, rows: Seq<Seq<Val>>) -> bool {
    &&& states.len() == rows.len() + 1
    &&& met.len() == rows.len() + 1
    &&& forall|i: int|
        0 <= i <= rows.len() ==> left_alone(#[trigger] states[i], met[i], rows.len())
    &&& forall|i: int| 0 <= i < rows.len() ==> took_row(#[trigger] met[i], rows[i], states[i + 1])
}

/// Whether the input of a sort ended: where there are runs, the rest of the chunk became one
/// too.
pub open spec fn ended(a: Taking, b: Taking) -> bool {
    if a.input.runs@.len() == 0 || a.input.chunk@.offsets.len() == 0 {
        b == a
    } else {
        exists|p: Seq<usize>| #[trigger] chunk_written(a, a.input.chunk@, b, p)
    }
}

/// Whether a sort can begin with these rows: none has come, and they can be kept in blocks.
pub open spec fn can_begin(a: Taking, rows: Seq<Seq<Val>>) -> bool {
    &&& a.input.block_size >= 2
    &&& a.input.runs@.len() == 0
    &&& a.input.chunk@ == sort_chunk::empty_chunk()
    &&& cache::uniform(a.blocks, a.input.block_size as nat)
    &&& block::all_packable(rows, a.input.schema.deep_view(), a.input.block_size as nat)
}

/// Whether a sort holds rows.
pub open spec fn holds(a: Taking, t: Intake) -> bool {
    input_holds(
        a.input.runs@,
        a.input.chunk@,
        t,
        a.input.schema.deep_view(),
        keys_view(a.input.keys@),
        a.input.block_size as nat,
        a.disk.next as int,
        a.blocks,
    )
}

/// The bytes of a chunk are those of its rows.
pub proof fn lemma_chunk_bytes(rows: Seq<Seq<Val>>)
    ensures
        sort_laws::chunk_of(rows).bytes == block::joined(block::rows_bytes(rows)),
        sort_laws::chunk_of(rows).offsets.len() == rows.len(),
    decreases rows.len(),
{
    let parts = block::rows_bytes(rows);
    if rows.len() == 0 {
        assert(parts =~= Seq::empty());
    } else {
        lemma_chunk_bytes(rows.drop_last());
        assert(parts.drop_last() =~= block::rows_bytes(rows.drop_last()));
        assert(parts.last() == row::encode_vals(rows.last()));
    }
}

/// A chunk that becomes a run has no more blocks than rows.
proof fn lemma_chunk_blocks(t: Intake, columns: Seq<Column>, block_size: nat, p: Seq<usize>)
    requires
        2 <= block_size,
        sort_output_laws::storable(rows_in(t), columns, block_size),
        block::joined(block::rows_bytes(t.chunk)).len() <= usize::MAX,
        sort::arranges(p, 0, t.chunk.len() as int),
    ensures
        ({
            let data = sort_chunk::packed_slices(
                sort_chunk::slices(sort_laws::chunk_of(t.chunk), p),
                block_size,
            );
            data.len() / block_size <= t.chunk.len()
        }),
        sort_laws::all_stored(t.chunk, columns),
{
    let rows = t.chunk;
    lemma_chunk_packable(t, columns, block_size);
    assert forall|i: int| 0 <= i < rows.len() implies row::row_fits(#[trigger] rows[i], columns)
        && row::row_storable(rows[i]) by {
        assert(block::packable(rows[i], columns, block_size));
    }
    sort_laws::chunk_keeps_its_rows(rows, columns, p, block_size);
    sort_laws::arrangement_keeps_the_rows(rows, p);
    let out = sort_chunk::arranged(rows, p);
    block::lemma_some_packable(rows, out, columns, block_size);
    let n = block::lemma_packed_are_unpacked(out, columns, block_size);
    block::lemma_blocks_hold_rows(block::packed_rows(out, block_size), block_size, columns, n);
    assert((n * block_size) / block_size == n) by (nonlinear_arith)
        requires
            block_size >= 2,
    ;
}

/// A chunk that was written is a run of its rows.
proof fn lemma_chunk_written(a: Taking, chunk: Chunk, b: Taking, p: Seq<usize>, t: Intake) -> (u:
    Intake)
    requires
        chunk_written(a, chunk, b, p),
        input_holds(
            a.input.runs@,
            chunk,
            t,
            a.input.schema.deep_view(),
            keys_view(a.input.keys@),
            a.input.block_size as nat,
            a.disk.next as int,
            a.blocks,
        ),
        a.disk.next + t.chunk.len() <= u64::MAX,
    ensures
        holds(b, u),
        u.chunk.len() == 0,
        rows_in(u) == rows_in(t),
        b.input.same_sort(a.input),
        b.disk.next <= a.disk.next + t.chunk.len(),
        b.input.runs@.len() > 0,
{
    let columns = a.input.schema.deep_view();
    let bs = a.input.block_size as nat;
    let sent = choose|sent: Seq<u8>| #[trigger]
        b.input.flushed_as(a.input.runs@, chunk, a.disk, b.disk, sent, p);
    lemma_chunk_bytes(t.chunk);
    assert(sort_laws::all_stored(t.chunk, columns)) by {
        lemma_chunk_packable(t, columns, bs);
        assert forall|i: int| 0 <= i < t.chunk.len() implies row::row_fits(
            #[trigger] t.chunk[i],
            columns,
        ) && row::row_storable(t.chunk[i]) by {
            assert(block::packable(t.chunk[i], columns, bs));
        }
    }
    sort_laws::a_chunk_gives_back_its_rows(t.chunk, columns);
    lemma_chunk_blocks(t, columns, bs, p);
    a_full_chunk_becomes_a_run(
        b.input,
        a.input.runs@,
        chunk,
        t,
        a.disk,
        b.disk,
        sent,
        p,
        a.blocks,
    );
    Intake { runs: t.runs.push(sort_chunk::arranged(t.chunk, p)), chunk: Seq::empty() }
}

/// A sort that is left alone holds its rows.
proof fn lemma_holds_after_others(a: Taking, b: Taking, numbers: nat, t: Intake)
    requires
        holds(a, t),
        left_alone(a, b, numbers),
    ensures
        holds(b, t),
{
    sort_output_laws::lemma_same_runs(
        a.input.runs@,
        t.runs,
        a.input.schema.deep_view(),
        a.input.block_size as nat,
        a.blocks,
        b.blocks,
        a.disk.next as int,
    );
}

proof fn lemma_took(
    states: Seq<Taking>,
    met: Seq<Taking>,
    rows: Seq<Seq<Val>>,
    n: int,
) -> (t: Intake)
    requires
        took(states, met, rows),
        can_begin(states[0], rows),
        0 <= n <= rows.len(),
    ensures
        holds(met[n], t),
        rows_in(t) == rows.take(n).to_multiset(),
        met[n].input.same_sort(states[0].input),
        t.chunk.len() <= n,
        met[n].input.runs@.len() == 0 ==> t.chunk == rows.take(n),
    decreases n,
{
    let a = states[0];
    let columns = a.input.schema.deep_view();
    let keys = keys_view(a.input.keys@);
    let bs = a.input.block_size as nat;
    let some = rows.take(n);
    assert(left_alone(states[n], met[n], rows.len()));
    let u = if n == 0 {
        assert(a.input.runs@ =~= Seq::empty());
        a_sort_begins_without_rows(columns, keys, bs, a.disk.next as int, a.blocks);
        assert(some =~= Seq::empty());
        seqs::lemma_empty_multiset::<Seq<Val>>();
        Intake { runs: Seq::empty(), chunk: Seq::empty() }
    } else {
        let (mid, r, b) = (met[n - 1], rows[n - 1], states[n]);
        assert(took_row(met[n - 1], rows[n - 1], states[n - 1 + 1]));
        assert(left_alone(states[n - 1], met[n - 1], rows.len()));
        let t = lemma_took(states, met, rows, n - 1);
        assert(rows.take(n - 1).push(r) =~= some);
        vstd::seq_lib::to_multiset_build(rows.take(n - 1), r);
        assert(some + rows.skip(n) =~= rows);
        block::lemma_parts_packable(some, rows.skip(n), columns, bs);
        sort_output_laws::lemma_rows_storable(some, columns, bs);
        a_row_joins_the_chunk(
            mid.input.runs@,
            mid.input.chunk@,
            t,
            r,
            columns,
            keys,
            bs,
            mid.disk.next as int,
            mid.blocks,
        );
        let u = Intake { chunk: t.chunk.push(r), ..t };
        let c = sort_chunk::chunk_with(mid.input.chunk@, r);
        if c.weight < mid.input.limit {
            u
        } else {
            let p = choose|p: Seq<usize>| #[trigger] chunk_written(mid, c, b, p);
            lemma_chunk_written(mid, c, b, p, u)
        }
    };
    lemma_holds_after_others(states[n], met[n], rows.len(), u);
    u
}

/// A sort that was handed its rows, one by one, holds them all: in sorted runs, or in the chunk
/// in the order in which they came. Meanwhile other operators may take blocks of their own.
pub proof fn a_sort_takes_all_its_rows(
    states: Seq<Taking>,
    met: Seq<Taking>,
    rows: Seq<Seq<Val>>,
    b: Taking,
) -> (t: Intake)
    requires
        took(states, met, rows),
        can_begin(states[0], rows),
        ended(met.last(), b),
    ensures
        holds(b, t),
        rows_in(t) == rows.to_multiset(),
        b.input.same_sort(states[0].input),
        if b.input.runs@.len() == 0 {
            t.chunk == rows
        } else {
            t.chunk.len() == 0 && b.input.chunk@ == sort_chunk::empty_chunk()
        },
{
    let n = rows.len() as int;
    let full = met.last();
    assert(rows.take(n) =~= rows);
    assert(left_alone(states[n], met[n], rows.len()));
    let t = lemma_took(states, met, rows, n);
    lemma_chunk_bytes(t.chunk);
    if full.input.runs@.len() == 0 || full.input.chunk@.offsets.len() == 0 {
        if full.input.runs@.len() > 0 {
            assert(t.chunk =~= Seq::empty());
            assert(full.input.chunk@ == sort_laws::chunk_of(t.chunk));
        }
        t
    } else {
        let p = choose|p: Seq<usize>| #[trigger] chunk_written(full, full.input.chunk@, b, p);
        lemma_chunk_written(full, full.input.chunk@, b, p, t)
    }
}

} // verus!
