//! Laws of the runs of a sort: the blocks of a run hold the rows that were put into it.

use vstd::prelude::*;

use crate::block;
use crate::bytes;
use crate::cache;
use crate::disk::Disk;
use crate::ops::merge_laws;
use crate::ops::scan_laws;
use crate::ops::sort;
use crate::ops::sort_chunk::Run;
use crate::ops::sort_chunk;
use crate::ops::sort_laws;
use crate::ops::sort_merge::Growing;
use crate::ops::sort_merge;
use crate::row;
use crate::schema::Column;
use crate::value::Val;

verus! {

/// Blocks of a disk that are those of rows make a run of the rows.
proof fn lemma_packed_run(
    run: Run,
    rows: Seq<Seq<Val>>,
    columns: Seq<Column>,
    block_size: nat,
    disk: Map<int, Seq<u8>>,
)
    requires
        2 <= block_size,
        cache::uniform(disk, block_size),
        block::all_packable(rows, columns, block_size),
        run.start_block + run.num_blocks <= u64::MAX,
        cache::disk_blocks(disk, run.start_block as int, run.num_blocks as nat)
            == block::packed_rows(rows, block_size),
    ensures
        merge_laws::run_holds(run, rows, columns, block_size, disk),
{
    let (start, n) = (run.start_block as int, run.num_blocks as nat);
    let k = block::lemma_packed_are_unpacked(rows, columns, block_size);
    cache::lemma_disk_blocks_len(disk, start, n, block_size);
    assert(k == n) by (nonlinear_arith)
        requires
            k * block_size == n * block_size,
            block_size >= 2,
    ;
    scan_laws::lemma_table_is_blocks(disk, start, n, n, block_size, columns);
    assert forall|b: int| start <= b < start + n implies block::block_count(
        #[trigger] disk[b],
        block_size,
    ) > 0 by {
        cache::lemma_blocks_of_disk(disk, start, n, (b - start) as nat, block_size);
        assert(block::nth_block(cache::disk_blocks(disk, start, n), block_size, b - start)
            == disk[b]);
    }
}

// ---- runs of the input ----

/// A chunk that is written becomes a run of its rows, in the arrangement in which they were
/// packed.
pub proof fn a_chunk_becomes_a_run_of_its_rows(
    rows: Seq<Seq<Val>>,
    columns: Seq<Column>,
    p: Seq<usize>,
    block_size: nat,
    start: u64,
    disk: Map<int, Seq<u8>>,
)
    requires
        2 <= block_size,
        cache::uniform(disk, block_size),
        block::all_packable(rows, columns, block_size),
        block::joined(block::rows_bytes(rows)).len() <= usize::MAX,
        sort::arranges(p, 0, rows.len() as int),
        ({
            let data = sort_chunk::packed_slices(
                sort_chunk::slices(sort_laws::chunk_of(rows), p),
                block_size,
            );
            data.len() <= usize::MAX && start + data.len() / block_size <= u64::MAX
        }),
    ensures
        ({
            let data = sort_chunk::packed_slices(
                sort_chunk::slices(sort_laws::chunk_of(rows), p),
                block_size,
            );
            let num = data.len() / block_size;
            merge_laws::run_holds(
                Run { start_block: start, num_blocks: num as usize },
                sort_chunk::arranged(rows, p),
                columns,
                block_size,
                cache::written(disk, start as int, num, data, block_size),
            )
        }),
{
    assert forall|i: int| 0 <= i < rows.len() implies row::row_fits(#[trigger] rows[i], columns)
        && row::row_storable(rows[i]) by {
        assert(block::packable(rows[i], columns, block_size));
    }
    sort_laws::chunk_keeps_its_rows(rows, columns, p, block_size);
    let out = sort_chunk::arranged(rows, p);
    sort_laws::arrangement_keeps_the_rows(rows, p);
    block::lemma_some_packable(rows, out, columns, block_size);
    let data = block::packed_rows(out, block_size);
    let k = block::lemma_packed_are_unpacked(out, columns, block_size);
    let num = data.len() / block_size;
    assert(num == k && num * block_size == data.len()) by (nonlinear_arith)
        requires
            data.len() == k * block_size,
            num == data.len() / block_size,
            block_size >= 2,
    ;
    assert(num <= data.len()) by (nonlinear_arith)
        requires
            num * block_size == data.len(),
            block_size >= 2,
    ;
    cache::lemma_written_whole(disk, start as int, num, data, block_size);
    cache::lemma_written_uniform(disk, start as int, num, data, block_size);
    lemma_packed_run(
        Run { start_block: start, num_blocks: num as usize },
        out,
        columns,
        block_size,
        cache::written(disk, start as int, num, data, block_size),
    );
}

// ---- merged runs ----

/// Whether a merged run holds rows: in blocks of the disk, in blocks that are full, and in
/// the block that is open.
pub open spec fn growing_holds(
    g: Growing,
    rows: Seq<Seq<Val>>,
    columns: Seq<Column>,
    disk: Map<int, Seq<u8>>,
) -> bool {
    let p = block::packing_with_all(
        block::nothing_packed(),
        block::rows_bytes(rows),
        g.block_size,
    );
    &&& 2 <= g.block_size
    &&& cache::uniform(disk, g.block_size)
    &&& block::all_packable(rows, columns, g.block_size)
    &&& p.open == g.packing.open
    &&& p.count == g.packing.count
    &&& p.full == cache::disk_blocks(disk, g.start as int, g.written as nat) + g.packing.full
    &&& g.written <= g.total
    &&& g.packing.full.len() == (g.total - g.written) * g.block_size
    &&& g.start + g.total <= u64::MAX
}

/// Whether a merged run can have a block more.
pub open spec fn has_room(g: Growing) -> bool {
    &&& g.total < usize::MAX
    &&& g.start + g.total < u64::MAX
}

/// What the blocks of the disk are once a row joined a merged run.
pub open spec fn disk_grown(g: Growing, r: Seq<Val>, d: Disk, disk: Map<int, Seq<u8>>) -> Map<
    int,
    Seq<u8>,
> {
    cache::written(
        disk,
        g.start + g.written,
        (sort_merge::grown(g, r, d).0.written - g.written) as nat,
        block::packing_with(g.packing, row::encode_vals(r), g.block_size).full,
        g.block_size,
    )
}

/// What the blocks of the disk are once a merged run ended.
pub open spec fn disk_ended(g: Growing, d: Disk, disk: Map<int, Seq<u8>>) -> Map<int, Seq<u8>> {
    cache::written(
        disk,
        g.start + g.written,
        (sort_merge::run_ended(g, d).0.written - g.written) as nat,
        if g.packing.count > 0 {
            block::packing_sealed(g.packing, g.block_size).full
        } else {
            g.packing.full
        },
        g.block_size,
    )
}

/// The full blocks of a merged run are written behind its other blocks.
proof fn lemma_full_written(g: Growing, d: Disk, disk: Map<int, Seq<u8>>)
    requires
        g.block_size >= 2,
        cache::uniform(disk, g.block_size),
        g.written <= g.total,
        g.packing.full.len() == (g.total - g.written) * g.block_size,
        g.start + g.total <= u64::MAX,
    ensures
        ({
            let after = sort_merge::full_written(g, d).0;
            let now = cache::written(
                disk,
                g.start + g.written,
                (g.total - g.written) as nat,
                g.packing.full,
                g.block_size,
            );
            &&& after.written == g.total
            &&& after.packing.full.len() == 0
            &&& cache::uniform(now, g.block_size)
            &&& cache::disk_blocks(now, g.start as int, g.total as nat) == cache::disk_blocks(
                disk,
                g.start as int,
                g.written as nat,
            ) + g.packing.full
        }),
{
    let (a, b) = (g.written as nat, (g.total - g.written) as nat);
    let (start, bs) = (g.start as int, g.block_size);
    let full = g.packing.full;
    assert(full.len() / bs == b) by (nonlinear_arith)
        requires
            full.len() == b * bs,
            bs >= 2,
    ;
    let now = cache::written(disk, start + a, b, full, bs);
    cache::lemma_written_uniform(disk, start + a, b, full, bs);
    cache::lemma_written_whole(disk, start + a, b, full, bs);
    cache::lemma_written_outside(disk, start + a, b, full, bs, start, a);
    cache::lemma_disk_blocks_split(now, start, a, b);
    assert(a + b == g.total);
}

/// A row that joins a merged run is one of its rows, behind the others.
pub proof fn a_row_joins_a_merged_run(
    g: Growing,
    rows: Seq<Seq<Val>>,
    r: Seq<Val>,
    columns: Seq<Column>,
    d: Disk,
    disk: Map<int, Seq<u8>>,
)
    requires
        growing_holds(g, rows, columns, disk),
        has_room(g),
        block::all_packable(rows.push(r), columns, g.block_size),
    ensures
        growing_holds(
            sort_merge::grown(g, r, d).0,
            rows.push(r),
            columns,
            disk_grown(g, r, d, disk),
        ),
        sort_merge::grown(g, r, d).0.start == g.start,
        sort_merge::grown(g, r, d).0.block_size == g.block_size,
{
    let bs = g.block_size;
    let enc = row::encode_vals(r);
    let all = rows.push(r);
    let parts = block::rows_bytes(all);
    let p = block::packing_with_all(block::nothing_packed(), block::rows_bytes(rows), bs);
    assert(parts.drop_last() =~= block::rows_bytes(rows));
    assert(parts.last() == enc);
    let q = block::packing_with_all(block::nothing_packed(), parts, bs);
    assert(q == block::packing_with(p, enc, bs));
    let stored = cache::disk_blocks(disk, g.start as int, g.written as nat);
    let now = block::packing_with(g.packing, enc, bs);
    if g.packing.open.len() + enc.len() > bs - 2 {
        block::lemma_open_holds_rows(rows, columns, bs);
        let one = block::sealed(g.packing.open, g.packing.count, bs);
        bytes::lemma_le_bytes_len(g.packing.count as nat, 2);
        assert(one.len() == bs);
        assert((stored + g.packing.full) + one =~= stored + (g.packing.full + one));
        let k = g.total - g.written;
        assert((k + 1) * bs == k * bs + bs) by (nonlinear_arith);
        let more = Growing { packing: now, total: (g.total + 1) as usize, ..g };
        if now.full.len() / bs >= sort_merge::FLUSH_BLOCKS {
            lemma_full_written(more, d, disk);
        }
    }
}

/// A merged run has no more blocks than rows.
pub proof fn lemma_no_more_blocks_than_rows(
    g: Growing,
    rows: Seq<Seq<Val>>,
    columns: Seq<Column>,
    disk: Map<int, Seq<u8>>,
)
    requires
        growing_holds(g, rows, columns, disk),
    ensures
        g.total <= rows.len(),
{
    let bs = g.block_size;
    let n = block::lemma_no_more_full_blocks_than_rows(rows, columns, bs);
    cache::lemma_disk_blocks_len(disk, g.start as int, g.written as nat, bs);
    let (a, b) = (g.written, g.total - g.written);
    assert(g.total == n) by (nonlinear_arith)
        requires
            n * bs == a * bs + b * bs,
            g.total == a + b,
            bs >= 2,
    ;
}

/// A merged run that has ended holds its rows.
pub proof fn a_merged_run_holds_its_rows(
    g: Growing,
    rows: Seq<Seq<Val>>,
    columns: Seq<Column>,
    d: Disk,
    disk: Map<int, Seq<u8>>,
)
    requires
        growing_holds(g, rows, columns, disk),
        has_room(g),
    ensures
        ({
            let after = sort_merge::run_ended(g, d).0;
            &&& after.start == g.start
            &&& g.total <= after.total <= g.total + 1
            &&& after.total <= rows.len()
            &&& after.total == block::packed_blocks(rows, g.block_size)
            &&& merge_laws::run_holds(
                Run { start_block: after.start, num_blocks: after.total },
                rows,
                columns,
                g.block_size,
                disk_ended(g, d, disk),
            )
            &&& cache::uniform(disk_ended(g, d, disk), g.block_size)
        }),
{
    let bs = g.block_size;
    let stored = cache::disk_blocks(disk, g.start as int, g.written as nat);
    block::lemma_open_holds_rows(rows, columns, bs);
    let one = block::sealed(g.packing.open, g.packing.count, bs);
    bytes::lemma_le_bytes_len(g.packing.count as nat, 2);
    let k = g.total - g.written;
    let closed = if g.packing.count > 0 {
        assert((stored + g.packing.full) + one =~= stored + (g.packing.full + one));
        assert((k + 1) * bs == k * bs + bs) by (nonlinear_arith);
        Growing {
            packing: block::packing_sealed(g.packing, bs),
            total: (g.total + 1) as usize,
            ..g
        }
    } else {
        g
    };
    assert(block::packed_rows(rows, bs) == stored + closed.packing.full);
    let after = sort_merge::run_ended(g, d).0;
    if closed.packing.full.len() > 0 {
        lemma_full_written(closed, d, disk);
    } else {
        let more = closed.total - closed.written;
        assert(more == 0) by (nonlinear_arith)
            requires
                more * bs == 0,
                bs >= 2,
                more >= 0,
        ;
        assert(stored + closed.packing.full =~= stored);
    }
    let n = block::lemma_packed_are_unpacked(rows, columns, bs);
    block::lemma_blocks_hold_rows(block::packed_rows(rows, bs), bs, columns, n);
    cache::lemma_disk_blocks_len(disk_ended(g, d, disk), g.start as int, after.total as nat, bs);
    assert(after.total == n && (n * bs) / bs == n) by (nonlinear_arith)
        requires
            n * bs == after.total * bs,
            bs >= 2,
    ;
    lemma_packed_run(
        Run { start_block: after.start, num_blocks: after.total },
        rows,
        columns,
        bs,
        disk_ended(g, d, disk),
    );
}

} // verus!
