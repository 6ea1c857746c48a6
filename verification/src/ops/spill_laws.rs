//! Laws of the rows of a bucket on their way to blocks: they are in the blocks of its runs, or
//! wait to be written.

use vstd::prelude::*;

use crate::block;
use crate::cache;
use crate::disk::Disk;
use crate::disk;
use crate::ops::hash_join::{BucketRun, Grace, Spill, MAX_WRITE_BLOCKS};
use crate::ops::hash_join;
use crate::ops::join_output_laws;
use crate::ops::join_output;
use crate::ops::joiner::Cursor;
use crate::ops::scan_laws;
use crate::row;
use crate::schema::Column;
use crate::value::Val;

verus! {

// ---- blocks ----

/// What the blocks of the disk are once blocks were written, a limited number at once.
pub open spec fn parts_on_disk(
    disk: Map<int, Seq<u8>>,
    start: int,
    data: Seq<u8>,
    block_size: nat,
    from: int,
    num: int,
) -> Map<int, Seq<u8>>
    decreases num - from,
{
    if from >= num {
        disk
    } else {
        let k = if num - from < MAX_WRITE_BLOCKS {
            num - from
        } else {
            MAX_WRITE_BLOCKS as int
        };
        parts_on_disk(
            cache::written(
                disk,
                start + from,
                k as nat,
                data.subrange(from * block_size, (from + k) * block_size),
                block_size,
            ),
            start,
            data,
            block_size,
            from + k,
            num,
        )
    }
}

proof fn lemma_same_blocks(
    disk: Map<int, Seq<u8>>,
    other: Map<int, Seq<u8>>,
    start: int,
    n: nat,
)
    requires
        forall|b: int| start <= b < start + n ==> #[trigger] other[b] == disk[b],
    ensures
        cache::disk_blocks(other, start, n) == cache::disk_blocks(disk, start, n),
    decreases n,
{
    if n > 0 {
        lemma_same_blocks(disk, other, start, (n - 1) as nat);
        assert(other[start + n - 1] == disk[start + n - 1]);
    }
}

/// Blocks that are written in parts are written.
proof fn lemma_parts_on_disk(
    disk: Map<int, Seq<u8>>,
    start: int,
    data: Seq<u8>,
    block_size: nat,
    from: int,
    num: int,
)
    requires
        block_size >= 2,
        0 <= from <= num,
        data.len() == num * block_size,
        cache::uniform(disk, block_size),
    ensures
        ({
            let after = parts_on_disk(disk, start, data, block_size, from, num);
            &&& cache::uniform(after, block_size)
            &&& forall|b: int| b < start + from ==> #[trigger] after[b] == disk[b]
            &&& 0 <= from * block_size <= data.len()
            &&& cache::disk_blocks(after, start + from, (num - from) as nat) == data.skip(
                from * block_size,
            )
        }),
    decreases num - from,
{
    let after = parts_on_disk(disk, start, data, block_size, from, num);
    assert(0 <= from * block_size && from * block_size <= num * block_size) by (nonlinear_arith)
        requires
            0 <= from <= num,
            block_size >= 0,
    ;
    if from >= num {
        assert(data.skip(from * block_size) =~= Seq::empty());
    } else {
        let k = if num - from < MAX_WRITE_BLOCKS {
            num - from
        } else {
            MAX_WRITE_BLOCKS as int
        };
        let part = data.subrange(from * block_size, (from + k) * block_size);
        assert((from + k) * block_size == from * block_size + k * block_size && (from + k)
            * block_size <= num * block_size && 0 <= k * block_size) by (nonlinear_arith)
            requires
                0 <= from + k <= num,
                0 <= k,
                block_size >= 0,
        ;
        let mid = cache::written(disk, start + from, k as nat, part, block_size);
        cache::lemma_written_uniform(disk, start + from, k as nat, part, block_size);
        cache::lemma_written_whole(disk, start + from, k as nat, part, block_size);
        lemma_parts_on_disk(mid, start, data, block_size, from + k, num);
        cache::lemma_written_same_before(
            disk,
            start + from,
            k as nat,
            part,
            block_size,
            start + from,
        );
        assert forall|b: int| b < start + from implies #[trigger] after[b] == disk[b] by {
            assert(after[b] == mid[b]);
        }
        lemma_same_blocks(mid, after, start + from, k as nat);
        let rest = (num - (from + k)) as nat;
        cache::lemma_disk_blocks_split(after, start + from, k as nat, rest);
        assert((num - from) as nat == k as nat + rest);
        assert((start + from) + k as nat == start + (from + k));
        assert(part + data.skip((from + k) * block_size) =~= data.skip(from * block_size));
    }
}

/// Writing keeps the next block to take.
proof fn lemma_parts_keep_next(
    d: Disk,
    start: u64,
    data: Seq<u8>,
    block_size: nat,
    from: int,
    num: int,
)
    ensures
        hash_join::parts_written(d, start, data, block_size, from, num).0.next == d.next,
    decreases num - from,
{
    if from < num {
        let k = if num - from < MAX_WRITE_BLOCKS {
            num - from
        } else {
            MAX_WRITE_BLOCKS as int
        };
        let got = disk::wrote(
            d,
            disk::wrapped_sum(start, from as u64),
            k as usize,
            data.subrange(from * block_size, (from + k) * block_size),
        );
        lemma_parts_keep_next(got.0, start, data, block_size, from + k, num);
    }
}

// ---- runs ----

/// Whether the blocks of runs come before a block.
pub open spec fn runs_below(runs: Seq<BucketRun>, end: int) -> bool {
    forall|i: int|
        0 <= i < runs.len() ==> (#[trigger] runs[i]).start_block + runs[i].num_blocks <= end
}

proof fn lemma_rows_from_same(
    c: Cursor,
    disk: Map<int, Seq<u8>>,
    other: Map<int, Seq<u8>>,
    end: int,
    block_size: nat,
    columns: Seq<Column>,
)
    requires
        0 <= c.run,
        c.block == 0,
        runs_below(c.runs, end),
        cache::same_before(disk, other, end),
    ensures
        join_output_laws::rows_from(c, other, block_size, columns) == join_output_laws::rows_from(
            c,
            disk,
            block_size,
            columns,
        ),
    decreases c.runs.len() - c.run,
{
    if c.run < c.runs.len() {
        let r = c.runs[c.run];
        scan_laws::lemma_same_rows(
            disk,
            other,
            end,
            r.start_block + 0,
            (r.num_blocks - 0) as nat,
            block_size,
            columns,
        );
        lemma_rows_from_same(
            Cursor { run: c.run + 1, block: 0, ..c },
            disk,
            other,
            end,
            block_size,
            columns,
        );
    }
}

/// Runs whose blocks are the same hold the same rows.
proof fn lemma_runs_same(
    runs: Seq<BucketRun>,
    disk: Map<int, Seq<u8>>,
    other: Map<int, Seq<u8>>,
    end: int,
    block_size: nat,
    columns: Seq<Column>,
)
    requires
        runs_below(runs, end),
        cache::same_before(disk, other, end),
        join_output_laws::readable(runs, disk, block_size, columns),
    ensures
        join_output_laws::readable(runs, other, block_size, columns),
        join_output_laws::rows_of_runs(runs, other, block_size, columns)
            == join_output_laws::rows_of_runs(runs, disk, block_size, columns),
{
    lemma_rows_from_same(
        join_output::first_block(runs, 1),
        disk,
        other,
        end,
        block_size,
        columns,
    );
    assert forall|i: int| 0 <= i < runs.len() implies ({
        let r = #[trigger] runs[i];
        &&& r.start_block + r.num_blocks <= u64::MAX
        &&& join_output_laws::run_rest(r, 0, other, block_size, columns) is Ok
        &&& join_output_laws::filled(r, other, block_size)
    }) by {
        let r = runs[i];
        scan_laws::lemma_same_rows(
            disk,
            other,
            end,
            r.start_block + 0,
            (r.num_blocks - 0) as nat,
            block_size,
            columns,
        );
        assert(join_output_laws::filled(r, disk, block_size));
        assert forall|b: int| r.start_block <= b < r.start_block + r.num_blocks implies
            block::block_count(#[trigger] other[b], block_size) > 0 by {
            assert(other[b] == disk[b]);
        }
    }
}

proof fn lemma_rows_from_push(
    c: Cursor,
    run: BucketRun,
    disk: Map<int, Seq<u8>>,
    block_size: nat,
    columns: Seq<Column>,
)
    requires
        0 <= c.run <= c.runs.len(),
        c.block == 0,
    ensures
        join_output_laws::rows_from(
            Cursor { runs: c.runs.push(run), ..c },
            disk,
            block_size,
            columns,
        ) == join_output_laws::rows_from(c, disk, block_size, columns)
            + join_output_laws::run_rest(run, 0, disk, block_size, columns)->Ok_0,
    decreases c.runs.len() - c.run,
{
    let more = Cursor { runs: c.runs.push(run), ..c };
    let last = join_output_laws::run_rest(run, 0, disk, block_size, columns)->Ok_0;
    let next = Cursor { run: c.run + 1, block: 0, ..c };
    let after = Cursor { run: more.run + 1, block: 0, ..more };
    if c.run == c.runs.len() {
        assert(join_output_laws::rows_from(after, disk, block_size, columns) =~= Seq::empty());
        assert(last + Seq::empty() =~= Seq::<Seq<Val>>::empty() + last);
    } else {
        lemma_rows_from_push(next, run, disk, block_size, columns);
        assert(after == Cursor { runs: next.runs.push(run), ..next });
        let here = join_output_laws::run_rest(
            c.runs[c.run],
            0,
            disk,
            block_size,
            columns,
        )->Ok_0;
        let rest = join_output_laws::rows_from(next, disk, block_size, columns);
        assert(more.runs[c.run] == c.runs[c.run]);
        assert(here + (rest + last) =~= (here + rest) + last);
    }
}

// ---- rows on their way ----

/// Whether rows went on their way to blocks: those that wait are packed, the others are in
/// the runs, before the next block that can be taken.
pub open spec fn on_their_way(
    grace: Grace,
    runs: Seq<BucketRun>,
    next: int,
    rows: Seq<Seq<Val>>,
    waiting: Seq<Seq<Val>>,
    columns: Seq<Column>,
    block_size: nat,
    disk: Map<int, Seq<u8>>,
) -> bool {
    &&& 2 <= block_size
    &&& cache::uniform(disk, block_size)
    &&& block::all_packable(rows, columns, block_size)
    &&& rows == join_output_laws::rows_of_runs(runs, disk, block_size, columns) + waiting
    &&& grace.packing == block::packing_with_all(
        block::nothing_packed(),
        block::rows_bytes(waiting),
        block_size,
    )
    &&& join_output_laws::readable(runs, disk, block_size, columns)
    &&& runs_below(runs, next)
}

/// No rows have gone on their way.
pub proof fn lemma_none_on_their_way(
    grace: Grace,
    next: int,
    columns: Seq<Column>,
    block_size: nat,
    disk: Map<int, Seq<u8>>,
)
    requires
        2 <= block_size,
        cache::uniform(disk, block_size),
        grace.packing == block::nothing_packed(),
    ensures
        on_their_way(
            grace,
            Seq::empty(),
            next,
            Seq::empty(),
            Seq::empty(),
            columns,
            block_size,
            disk,
        ),
{
    block::lemma_none_packable(columns, block_size);
    assert(block::rows_bytes(Seq::empty()) =~= Seq::empty());
    assert(join_output_laws::rows_of_runs(Seq::empty(), disk, block_size, columns) + Seq::empty()
        =~= Seq::empty());
}

/// Blocks that are written behind all runs leave the rows on their way.
pub proof fn lemma_way_same(
    grace: Grace,
    runs: Seq<BucketRun>,
    next: int,
    later: int,
    rows: Seq<Seq<Val>>,
    waiting: Seq<Seq<Val>>,
    columns: Seq<Column>,
    block_size: nat,
    disk: Map<int, Seq<u8>>,
    other: Map<int, Seq<u8>>,
)
    requires
        on_their_way(grace, runs, next, rows, waiting, columns, block_size, disk),
        cache::same_before(disk, other, next),
        cache::uniform(other, block_size),
        next <= later,
    ensures
        on_their_way(grace, runs, later, rows, waiting, columns, block_size, other),
{
    lemma_runs_same(runs, disk, other, next, block_size, columns);
}

/// What the blocks of the disk are once the rows that wait were written.
pub open spec fn flushed_on_disk(s: Spill, block_size: nat, disk: Map<int, Seq<u8>>) -> Map<
    int,
    Seq<u8>,
> {
    let full = block::packing_finished(s.grace.packing, block_size).full;
    if full.len() == 0 {
        disk
    } else {
        parts_on_disk(
            disk,
            s.disk.next as int,
            full,
            block_size,
            0,
            (full.len() / block_size) as int,
        )
    }
}

/// Rows that wait are written to blocks that were not taken before.
pub proof fn waiting_rows_are_written(
    s: Spill,
    rows: Seq<Seq<Val>>,
    waiting: Seq<Seq<Val>>,
    columns: Seq<Column>,
    block_size: nat,
    disk: Map<int, Seq<u8>>,
)
    requires
        on_their_way(
            s.grace,
            s.runs,
            s.disk.next as int,
            rows,
            waiting,
            columns,
            block_size,
            disk,
        ),
        s.disk.next + waiting.len() <= u64::MAX,
        waiting.len() <= usize::MAX,
    ensures
        ({
            let t = hash_join::bucket_flushed(s, block_size);
            let now = flushed_on_disk(s, block_size, disk);
            &&& on_their_way(
                t.grace,
                t.runs,
                t.disk.next as int,
                rows,
                Seq::empty(),
                columns,
                block_size,
                now,
            )
            &&& s.disk.next <= t.disk.next <= s.disk.next + waiting.len()
            &&& cache::same_before(disk, now, s.disk.next as int)
            &&& cache::uniform(now, block_size)
        }),
{
    let bs = block_size;
    let p = block::packing_finished(s.grace.packing, bs);
    let full = p.full;
    let t = hash_join::bucket_flushed(s, bs);
    let now = flushed_on_disk(s, bs, disk);
    let old_rows = join_output_laws::rows_of_runs(s.runs, disk, bs, columns);
    block::lemma_parts_packable(old_rows, waiting, columns, bs);
    block::lemma_open_holds_rows(waiting, columns, bs);
    let n = block::lemma_packed_are_unpacked(waiting, columns, bs);
    assert(full == block::packed_rows(waiting, bs));
    assert(block::rows_bytes(Seq::empty()) =~= Seq::empty());
    if full.len() == 0 {
        assert(n == 0) by (nonlinear_arith)
            requires
                0 == n * bs,
                bs >= 2,
        ;
        assert(waiting =~= Seq::empty());
    } else {
        let num = full.len() / bs;
        assert(num == n && num * bs == full.len() && n >= 1) by (nonlinear_arith)
            requires
                full.len() == n * bs,
                full.len() > 0,
                num == full.len() / bs,
                bs >= 2,
        ;
        block::lemma_blocks_hold_rows(full, bs, columns, n);
        lemma_parts_on_disk(disk, s.disk.next as int, full, bs, 0, num as int);
        assert(0 * bs == 0);
        assert(full.skip(0) =~= full);
        lemma_parts_keep_next(
            disk::allocated(s.disk, num as u64),
            s.disk.next,
            full,
            bs,
            0,
            num as int,
        );
        let run = BucketRun { start_block: s.disk.next, num_blocks: num as usize };
        scan_laws::lemma_table_is_blocks(now, s.disk.next as int, num, num, bs, columns);
        assert(join_output_laws::run_rest(run, 0, now, bs, columns)->Ok_0 == waiting);
        assert forall|b: int| run.start_block <= b < run.start_block + run.num_blocks implies
            block::block_count(#[trigger] now[b], bs) > 0 by {
            scan_laws::lemma_nth_of_disk(
                now,
                s.disk.next as int,
                num,
                b - run.start_block,
                bs,
            );
        }
        lemma_runs_same(s.runs, disk, now, s.disk.next as int, bs, columns);
        lemma_rows_from_push(join_output::first_block(s.runs, 1), run, now, bs, columns);
        assert(join_output::first_block(t.runs, 1) == (Cursor {
            runs: s.runs.push(run),
            ..join_output::first_block(s.runs, 1)
        }));
        assert(rows + Seq::empty() =~= rows);
        assert forall|i: int| 0 <= i < t.runs.len() implies ({
            let r = #[trigger] t.runs[i];
            &&& r.start_block + r.num_blocks <= u64::MAX
            &&& r.start_block + r.num_blocks <= t.disk.next
            &&& join_output_laws::run_rest(r, 0, now, bs, columns) is Ok
            &&& join_output_laws::filled(r, now, bs)
        }) by {
            if i < s.runs.len() {
                assert(t.runs[i] == s.runs[i]);
            }
        }
        assert(t.grace.packing =~= block::nothing_packed());
    }
}

/// What the blocks of the disk are once a row went on its way.
pub open spec fn graced_on_disk(
    s: Spill,
    r: Seq<Val>,
    block_size: nat,
    limit: nat,
    disk: Map<int, Seq<u8>>,
) -> Map<int, Seq<u8>> {
    let enc = row::encode_vals(r);
    let more = Spill {
        grace: Grace {
            packing: block::packing_with(s.grace.packing, enc, block_size),
            total: row::saturated((s.grace.total + enc.len()) as nat),
        },
        ..s
    };
    if more.grace.total >= limit {
        flushed_on_disk(more, block_size, disk)
    } else {
        disk
    }
}

/// A row goes on its way behind the others.
pub proof fn a_row_goes_on_its_way(
    s: Spill,
    r: Seq<Val>,
    limit: nat,
    rows: Seq<Seq<Val>>,
    waiting: Seq<Seq<Val>>,
    columns: Seq<Column>,
    block_size: nat,
    disk: Map<int, Seq<u8>>,
) -> (left: Seq<Seq<Val>>)
    requires
        on_their_way(
            s.grace,
            s.runs,
            s.disk.next as int,
            rows,
            waiting,
            columns,
            block_size,
            disk,
        ),
        block::all_packable(rows.push(r), columns, block_size),
        s.disk.next + waiting.len() < u64::MAX,
        waiting.len() < usize::MAX,
    ensures
        ({
            let t = hash_join::graced(s, r, block_size, limit);
            let now = graced_on_disk(s, r, block_size, limit, disk);
            &&& on_their_way(
                t.grace,
                t.runs,
                t.disk.next as int,
                rows.push(r),
                left,
                columns,
                block_size,
                now,
            )
            &&& s.disk.next <= t.disk.next
            &&& t.disk.next + left.len() <= s.disk.next + waiting.len() + 1
            &&& left.len() <= waiting.len() + 1
            &&& cache::same_before(disk, now, s.disk.next as int)
            &&& cache::uniform(now, block_size)
        }),
{
    let enc = row::encode_vals(r);
    let more = Spill {
        grace: Grace {
            packing: block::packing_with(s.grace.packing, enc, block_size),
            total: row::saturated((s.grace.total + enc.len()) as nat),
        },
        ..s
    };
    let now_waiting = waiting.push(r);
    let parts = block::rows_bytes(now_waiting);
    assert(parts.drop_last() =~= block::rows_bytes(waiting));
    assert(parts.last() == enc);
    let old_rows = join_output_laws::rows_of_runs(s.runs, disk, block_size, columns);
    assert(rows.push(r) =~= old_rows + now_waiting);
    assert(on_their_way(
        more.grace,
        more.runs,
        more.disk.next as int,
        rows.push(r),
        now_waiting,
        columns,
        block_size,
        disk,
    ));
    if more.grace.total >= limit {
        waiting_rows_are_written(more, rows.push(r), now_waiting, columns, block_size, disk);
        Seq::empty()
    } else {
        now_waiting
    }
}

/// What the blocks of the disk are once rows went on their way in turn.
pub open spec fn all_graced_on_disk(
    s: Spill,
    rows: Seq<Seq<Val>>,
    block_size: nat,
    limit: nat,
    disk: Map<int, Seq<u8>>,
) -> Map<int, Seq<u8>>
    decreases rows.len(),
{
    if rows.len() == 0 {
        disk
    } else {
        let before = rows.drop_last();
        graced_on_disk(
            hash_join::all_graced(s, before, block_size, limit),
            rows.last(),
            block_size,
            limit,
            all_graced_on_disk(s, before, block_size, limit, disk),
        )
    }
}

/// Rows go on their way in turn, behind the others.
pub proof fn rows_go_on_their_way(
    s: Spill,
    more: Seq<Seq<Val>>,
    limit: nat,
    rows: Seq<Seq<Val>>,
    waiting: Seq<Seq<Val>>,
    columns: Seq<Column>,
    block_size: nat,
    disk: Map<int, Seq<u8>>,
) -> (left: Seq<Seq<Val>>)
    requires
        on_their_way(
            s.grace,
            s.runs,
            s.disk.next as int,
            rows,
            waiting,
            columns,
            block_size,
            disk,
        ),
        block::all_packable(rows + more, columns, block_size),
        s.disk.next + waiting.len() + more.len() <= u64::MAX,
        waiting.len() + more.len() <= usize::MAX,
    ensures
        ({
            let t = hash_join::all_graced(s, more, block_size, limit);
            let now = all_graced_on_disk(s, more, block_size, limit, disk);
            &&& on_their_way(
                t.grace,
                t.runs,
                t.disk.next as int,
                rows + more,
                left,
                columns,
                block_size,
                now,
            )
            &&& s.disk.next <= t.disk.next
            &&& t.disk.next + left.len() <= s.disk.next + waiting.len() + more.len()
            &&& left.len() <= waiting.len() + more.len()
            &&& cache::same_before(disk, now, s.disk.next as int)
            &&& cache::uniform(now, block_size)
        }),
    decreases more.len(),
{
    if more.len() == 0 {
        assert(rows + more =~= rows);
        waiting
    } else {
        let before = more.drop_last();
        assert((rows + more).drop_last() =~= rows + before);
        block::lemma_front_packable(rows + more, columns, block_size);
        let mid = rows_go_on_their_way(s, before, limit, rows, waiting, columns, block_size, disk);
        let t = hash_join::all_graced(s, before, block_size, limit);
        let at = all_graced_on_disk(s, before, block_size, limit, disk);
        assert((rows + before).push(more.last()) =~= rows + more);
        let left = a_row_goes_on_its_way(
            t,
            more.last(),
            limit,
            rows + before,
            mid,
            columns,
            block_size,
            at,
        );
        left
    }
}

// ---- a buffer ----

proof fn lemma_graced_rows(rows: Seq<Seq<Val>>, block_size: nat)
    requires
        forall|i: int|
            0 <= i < rows.len() ==> row::encode_vals(#[trigger] rows[i]).len() >= 1,
    ensures
        ({
            let g = hash_join::grace_with_all(hash_join::empty_grace(), rows, block_size);
            let parts = block::rows_bytes(rows);
            &&& g.packing == block::packing_with_all(block::nothing_packed(), parts, block_size)
            &&& g.total == row::saturated(block::joined(parts).len())
            &&& rows.len() > 0 ==> g.packing.open.len() > 0
        }),
    decreases rows.len(),
{
    let parts = block::rows_bytes(rows);
    if rows.len() == 0 {
        assert(parts =~= Seq::empty());
    } else {
        let before = rows.drop_last();
        assert forall|i: int| 0 <= i < before.len() implies row::encode_vals(
            #[trigger] before[i],
        ).len() >= 1 by {
            assert(before[i] == rows[i]);
        }
        lemma_graced_rows(before, block_size);
        assert(parts.drop_last() =~= block::rows_bytes(before));
        assert(parts.last() == row::encode_vals(rows[rows.len() - 1]));
        assert(block::joined(parts) == block::joined(parts.drop_last()) + parts.last());
    }
}

/// A buffer whose open block was closed holds its rows in whole blocks, as they are packed,
/// and nothing else is left in it; it has counted their bytes. To close it again changes
/// nothing.
pub proof fn a_finished_buffer_holds_the_packed_rows(rows: Seq<Seq<Val>>, block_size: nat)
    requires
        block_size >= 2,
        forall|i: int|
            0 <= i < rows.len() ==> row::encode_vals(#[trigger] rows[i]).len() >= 1,
    ensures
        ({
            let g = hash_join::grace_with_all(hash_join::empty_grace(), rows, block_size);
            let done = hash_join::grace_finished(g, block_size);
            &&& done.packing.full == block::packed_rows(rows, block_size)
            &&& done.packing.full.len() % block_size == 0
            &&& done.packing.open.len() == 0
            &&& done.packing.count == 0
            &&& done.total == row::saturated(block::joined(block::rows_bytes(rows)).len())
            &&& hash_join::grace_finished(done, block_size) == done
        }),
{
    lemma_graced_rows(rows, block_size);
    let parts = block::rows_bytes(rows);
    block::packed_rows_fill_blocks(parts, block_size);
    let n = block::packed_rows(rows, block_size).len();
    assert(n % block_size == 0) by (nonlinear_arith)
        requires
            n == (n / block_size) * block_size,
            block_size >= 2,
    ;
    if rows.len() == 0 {
        assert(parts =~= Seq::empty());
    }
}

} // verus!
