//! Laws of cross joins: step by step, the waiting left rows meet all right rows.

use vstd::multiset::Multiset;
use vstd::prelude::*;

use crate::block;
use crate::cache;
use crate::disk::Disk;
use crate::error::Fault;
use crate::ops::cross::Cross;
use crate::ops::cross;
use crate::ops::cross_output::Crossing;
use crate::ops::cross_output;
use crate::ops::join_input_laws::World;
use crate::ops::scan_laws;
use crate::ops::Act;
use crate::query::Test;
use crate::row;
use crate::schema::Column;
use crate::seqs;
use crate::value::Val;

verus! {

// ---- the right input ----

/// Whether a cross join holds right rows: in memory, or the first of them in blocks one behind
/// the other, behind which the next block can be taken.
pub open spec fn right_holds(
    c: Cross,
    rows: Seq<Seq<Val>>,
    d: Disk,
    disk: Map<int, Seq<u8>>,
) -> bool {
    &&& 2 <= c.block_size
    &&& cache::uniform(disk, c.block_size)
    &&& block::all_packable(rows, c.right_columns, c.block_size)
    &&& d.next >= 1
    &&& if c.right_blocks == 0 {
        c.right_rows == rows && c.right_start == 0
    } else {
        let stored = scan_laws::table_rows(
            disk,
            c.right_start as int,
            c.right_blocks as nat,
            c.block_size,
            c.right_columns,
            None,
        );
        &&& c.right_start >= 1
        &&& c.right_start + c.right_blocks == d.next
        &&& stored is Ok
        &&& rows == stored->Ok_0 + c.right_rows
    }
}

/// Whether the blocks last for the right rows in memory.
pub open spec fn blocks_last(c: Cross, d: Disk) -> bool {
    &&& d.next + c.right_rows.len() <= u64::MAX
    &&& c.right_blocks + c.right_rows.len() <= usize::MAX
}

/// What the blocks of the disk are once the right rows in memory went into blocks.
pub open spec fn spilled_on_disk(c: Cross, d: Disk, disk: Map<int, Seq<u8>>) -> Map<int, Seq<u8>> {
    let packed = block::packed_rows(c.right_rows, c.block_size);
    cache::written(
        disk,
        d.next as int,
        packed.len() / c.block_size,
        packed,
        c.block_size,
    )
}

/// The right rows in memory go into blocks behind the others.
proof fn lemma_spilled(c: Cross, rows: Seq<Seq<Val>>, d: Disk, disk: Map<int, Seq<u8>>)
    requires
        right_holds(c, rows, d, disk),
        blocks_last(c, d),
        c.right_rows.len() > 0,
    ensures
        ({
            let got = cross::spilled(c, d);
            &&& right_holds(got.0, rows, got.1, spilled_on_disk(c, d, disk))
            &&& got.0.right_rows.len() == 0
            &&& got.0.right_blocks > 0
            &&& got.0.right_blocks <= c.right_blocks + c.right_rows.len()
            &&& got.1.next <= d.next + c.right_rows.len()
        }),
{
    let bs = c.block_size;
    let packed = block::packed_rows(c.right_rows, bs);
    let num = packed.len() / bs;
    let now = spilled_on_disk(c, d, disk);
    let got = cross::spilled(c, d);
    let old_rows = if c.right_blocks == 0 {
        Seq::<Seq<Val>>::empty()
    } else {
        scan_laws::table_rows(
            disk,
            c.right_start as int,
            c.right_blocks as nat,
            bs,
            c.right_columns,
            None,
        )->Ok_0
    };
    assert(rows =~= old_rows + c.right_rows);
    block::lemma_parts_packable(old_rows, c.right_rows, c.right_columns, bs);
    let n = block::lemma_packed_are_unpacked(c.right_rows, c.right_columns, bs);
    assert(num == n && num * bs == packed.len()) by (nonlinear_arith)
        requires
            packed.len() == n * bs,
            num == packed.len() / bs,
            bs >= 2,
    ;
    block::lemma_blocks_hold_rows(packed, bs, c.right_columns, n);
    if n == 0 {
        assert(c.right_rows =~= Seq::empty());
    }
    let start = d.next as int;
    cache::lemma_written_uniform(disk, start, num, packed, bs);
    cache::lemma_written_whole(disk, start, num, packed, bs);
    cache::lemma_written_same_before(disk, start, num, packed, bs, start);
    scan_laws::lemma_table_is_blocks(now, start, num, num, bs, c.right_columns);
    let first = got.0.right_start as int;
    scan_laws::lemma_same_rows(
        disk,
        now,
        start,
        first,
        c.right_blocks as nat,
        bs,
        c.right_columns,
    );
    assert(first + c.right_blocks as nat == start);
    scan_laws::lemma_table_join(
        now,
        first,
        c.right_blocks as nat,
        num,
        bs,
        c.right_columns,
        None,
    );
    assert(got.0.right_blocks as nat == c.right_blocks as nat + num);
    assert(rows + Seq::empty() =~= rows);
}

/// What the blocks of the disk are once a right row arrived.
pub open spec fn right_on_disk(c: Cross, r: Seq<Val>, d: Disk, disk: Map<int, Seq<u8>>) -> Map<
    int,
    Seq<u8>,
> {
    let more = Cross { right_rows: c.right_rows.push(r), ..c };
    if cross::with_right(c, r, d).0.right_rows.len() == 0 {
        spilled_on_disk(more, d, disk)
    } else {
        disk
    }
}

/// A right row is held, in memory or in blocks, behind the others. No other operator takes
/// blocks meanwhile.
pub proof fn a_right_row_is_held(
    c: Cross,
    rows: Seq<Seq<Val>>,
    r: Seq<Val>,
    d: Disk,
    disk: Map<int, Seq<u8>>,
)
    requires
        right_holds(c, rows, d, disk),
        block::all_packable(rows.push(r), c.right_columns, c.block_size),
        d.next + c.right_rows.len() < u64::MAX,
        c.right_blocks + c.right_rows.len() < usize::MAX,
    ensures
        ({
            let got = cross::with_right(c, r, d);
            &&& right_holds(got.0, rows.push(r), got.1, right_on_disk(c, r, d, disk))
            &&& got.0.right_blocks + got.0.right_rows.len() <= c.right_blocks
                + c.right_rows.len() + 1
            &&& got.1.next + got.0.right_rows.len() <= d.next + c.right_rows.len() + 1
        }),
{
    let all = rows.push(r);
    let got = cross::with_right(c, r, d);
    let more = Cross {
        right_rows: c.right_rows.push(r),
        right_bytes: row::saturated(
            (c.right_bytes + row::saturated(row::row_weight(r))) as nat,
        ),
        ..c
    };
    if c.right_blocks > 0 {
        let stored = scan_laws::table_rows(
            disk,
            c.right_start as int,
            c.right_blocks as nat,
            c.block_size,
            c.right_columns,
            None,
        )->Ok_0;
        assert(all =~= stored + more.right_rows);
    }
    assert(right_holds(more, all, d, disk));
    if more.right_bytes >= c.limit {
        lemma_spilled(more, all, d, disk);
    }
}

/// Once the right input ended, the right rows are all in memory, or all in blocks.
pub proof fn the_right_rows_are_complete(
    c: Cross,
    rows: Seq<Seq<Val>>,
    d: Disk,
    disk: Map<int, Seq<u8>>,
)
    requires
        right_holds(c, rows, d, disk),
        blocks_last(c, d),
    ensures
        ({
            let got = cross::right_finished(c, d);
            let now = if c.right_rows.len() > 0 && c.right_blocks > 0 {
                spilled_on_disk(c, d, disk)
            } else {
                disk
            };
            &&& right_holds(got.0, rows, got.1, now)
            &&& got.0.right_blocks == 0 ==> got.0.right_rows == rows
            &&& got.0.right_blocks > 0 ==> {
                &&& got.0.right_start + got.0.right_blocks <= u64::MAX
                &&& right_rest(
                    Crossing { cross: got.0, fetch: 1, done: 0 },
                    now,
                ) == Ok::<Seq<Seq<Val>>, Fault>(rows)
            }
        }),
{
    if c.right_rows.len() > 0 && c.right_blocks > 0 {
        lemma_spilled(c, rows, d, disk);
    }
    let got = cross::right_finished(c, d);
    if got.0.right_blocks > 0 {
        let now = if c.right_rows.len() > 0 {
            spilled_on_disk(c, d, disk)
        } else {
            disk
        };
        let stored = right_rest(Crossing { cross: got.0, fetch: 1, done: 0 }, now);
        assert(got.0.right_start + 0 == got.0.right_start);
        assert(stored->Ok_0 + got.0.right_rows =~= stored->Ok_0);
    }
}

/// A cross join that takes its right rows, the disk, and what its blocks are.
pub struct Filling {
    pub cross: Cross,
    pub disk: Disk,
    pub blocks: Map<int, Seq<u8>>,
}

/// A cross join once other operators have worked.
pub open spec fn after_others(f: Filling, w: World) -> Filling {
    Filling { disk: w.disk, blocks: w.blocks, ..f }
}

/// Whether other operators only wrote to blocks that were free, and took none once right rows
/// are in blocks, for which the next blocks are kept; so many block numbers are left.
pub open spec fn left_alone(f: Filling, w: World, numbers: nat) -> bool {
    &&& f.disk.next <= w.disk.next
    &&& f.cross.right_blocks > 0 ==> f.disk.next == w.disk.next
    &&& cache::same_before(f.blocks, w.blocks, f.disk.next as int)
    &&& cache::uniform(w.blocks, f.cross.block_size)
    &&& w.disk.next + numbers <= u64::MAX
}

/// Right rows arrive in turn; other operators may work before each of them.
pub open spec fn right_came(f: Filling, rows: Seq<Seq<Val>>, worlds: Seq<World>) -> Filling
    decreases rows.len(),
{
    if rows.len() == 0 {
        f
    } else {
        let b = after_others(right_came(f, rows.drop_last(), worlds), worlds[rows.len() - 1]);
        let got = cross::with_right(b.cross, rows.last(), b.disk);
        Filling {
            cross: got.0,
            disk: got.1,
            blocks: right_on_disk(b.cross, rows.last(), b.disk, b.blocks),
        }
    }
}

/// Whether other operators leave a cross join alone while its right rows arrive.
pub open spec fn right_alone(
    f: Filling,
    rows: Seq<Seq<Val>>,
    worlds: Seq<World>,
    numbers: nat,
) -> bool
    decreases rows.len(),
{
    rows.len() > 0 ==> {
        &&& right_alone(f, rows.drop_last(), worlds, numbers)
        &&& left_alone(right_came(f, rows.drop_last(), worlds), worlds[rows.len() - 1], numbers)
    }
}

/// The right input ends.
pub open spec fn right_over(f: Filling) -> Filling {
    let got = cross::right_finished(f.cross, f.disk);
    Filling {
        cross: got.0,
        disk: got.1,
        blocks: if f.cross.right_rows.len() > 0 && f.cross.right_blocks > 0 {
            spilled_on_disk(f.cross, f.disk, f.blocks)
        } else {
            f.blocks
        },
    }
}

/// A cross join whose right input has ended; other operators may work before each right row,
/// and before the end.
pub open spec fn right_taken(
    f: Filling,
    rows: Seq<Seq<Val>>,
    worlds: Seq<World>,
    end: World,
) -> Filling {
    right_over(after_others(right_came(f, rows, worlds), end))
}

/// Whether a cross join can take these right rows: no row has come, the rows can be kept in
/// blocks, block numbers last, and other operators leave the blocks of the join alone.
pub open spec fn can_take(
    f: Filling,
    rows: Seq<Seq<Val>>,
    worlds: Seq<World>,
    end: World,
) -> bool {
    let c = f.cross;
    &&& 2 <= c.block_size
    &&& c.right_start == 0
    &&& c.right_blocks == 0
    &&& c.right_rows.len() == 0
    &&& cache::uniform(f.blocks, c.block_size)
    &&& block::all_packable(rows, c.right_columns, c.block_size)
    &&& f.disk.next >= 1
    &&& rows.len() <= usize::MAX
    &&& right_alone(f, rows, worlds, rows.len())
    &&& left_alone(right_came(f, rows, worlds), end, rows.len())
}

/// A cross join that is left alone holds its right rows.
proof fn lemma_holds_after_others(f: Filling, w: World, numbers: nat, rows: Seq<Seq<Val>>)
    requires
        right_holds(f.cross, rows, f.disk, f.blocks),
        left_alone(f, w, numbers),
    ensures
        right_holds(f.cross, rows, w.disk, w.blocks),
{
    let c = f.cross;
    if c.right_blocks > 0 {
        scan_laws::lemma_same_rows(
            f.blocks,
            w.blocks,
            f.disk.next as int,
            c.right_start as int,
            c.right_blocks as nat,
            c.block_size,
            c.right_columns,
        );
    }
}

proof fn lemma_right_came(f: Filling, rows: Seq<Seq<Val>>, worlds: Seq<World>, numbers: nat)
    requires
        2 <= f.cross.block_size,
        f.cross.right_start == 0,
        f.cross.right_blocks == 0,
        f.cross.right_rows.len() == 0,
        cache::uniform(f.blocks, f.cross.block_size),
        block::all_packable(rows, f.cross.right_columns, f.cross.block_size),
        f.disk.next >= 1,
        rows.len() <= numbers <= usize::MAX,
        right_alone(f, rows, worlds, numbers),
    ensures
        ({
            let g = right_came(f, rows, worlds);
            let e = g.cross;
            &&& right_holds(e, rows, g.disk, g.blocks)
            &&& e == (Cross {
                right_start: e.right_start,
                right_blocks: e.right_blocks,
                right_rows: e.right_rows,
                right_bytes: e.right_bytes,
                ..f.cross
            })
            &&& e.right_blocks + e.right_rows.len() <= rows.len()
        }),
    decreases rows.len(),
{
    if rows.len() == 0 {
        assert(f.cross.right_rows =~= rows);
    } else {
        let before = rows.drop_last();
        block::lemma_front_packable(rows, f.cross.right_columns, f.cross.block_size);
        lemma_right_came(f, before, worlds, numbers);
        let w = worlds[rows.len() - 1];
        lemma_holds_after_others(right_came(f, before, worlds), w, numbers, before);
        let b = after_others(right_came(f, before, worlds), w);
        assert(before.push(rows.last()) =~= rows);
        a_right_row_is_held(b.cross, before, rows.last(), b.disk, b.blocks);
    }
}

/// A cross join that was handed its right rows, one by one, holds them all, whether they stay
/// in memory or go into blocks.
pub proof fn the_right_input_is_held(
    f: Filling,
    rows: Seq<Seq<Val>>,
    worlds: Seq<World>,
    end: World,
    fetch: int,
)
    requires
        can_take(f, rows, worlds, end),
        fetch >= 1,
    ensures
        ({
            let g = right_taken(f, rows, worlds, end);
            let e = g.cross;
            &&& right_complete(Crossing { cross: e, fetch, done: 0 }, rows, g.blocks)
            &&& e == (Cross {
                right_start: e.right_start,
                right_blocks: e.right_blocks,
                right_rows: e.right_rows,
                right_bytes: e.right_bytes,
                ..f.cross
            })
        }),
{
    lemma_right_came(f, rows, worlds, rows.len());
    let b = right_came(f, rows, worlds);
    lemma_holds_after_others(b, end, rows.len(), rows);
    the_right_rows_are_complete(b.cross, rows, end.disk, end.blocks);
}

/// The pairs of left rows that meet the right rows in parts are those of all left rows.
pub proof fn left_rows_in_parts_agree(
    a: Seq<Seq<Val>>,
    b: Seq<Seq<Val>>,
    right: Seq<Seq<Val>>,
    columns: Seq<Column>,
    tests: Option<Seq<Test>>,
)
    requires
        cross::all_pairs(a, right, columns, tests).1 is None,
        cross::all_pairs(b, right, columns, tests).1 is None,
    ensures
        cross::all_pairs(a + b, right, columns, tests) == (
            cross::all_pairs(a, right, columns, tests).0 + cross::all_pairs(
                b,
                right,
                columns,
                tests,
            ).0,
            None::<Fault>,
        ),
    decreases b.len(),
{
    let x = cross::all_pairs(a, right, columns, tests).0;
    if b.len() == 0 {
        assert(a + b =~= a);
        assert(x + Seq::empty() =~= x);
    } else {
        let before = b.drop_last();
        left_rows_in_parts_agree(a, before, right, columns, tests);
        assert((a + b).drop_last() =~= a + before);
        let y = cross::all_pairs(before, right, columns, tests).0;
        let z = cross::with_each(b.last(), right, columns, tests).0;
        assert((x + y) + z =~= x + (y + z));
    }
}

// ---- the left input ----

/// The rows of the right blocks that the waiting left rows have still to meet.
pub open spec fn right_rest(c: Crossing, disk: Map<int, Seq<u8>>) -> Result<Seq<Seq<Val>>, Fault> {
    scan_laws::table_rows(
        disk,
        c.cross.right_start + c.done,
        (c.cross.right_blocks - c.done) as nat,
        c.cross.block_size,
        c.cross.right_columns,
        None,
    )
}

/// The pairs of the waiting left rows that are still to come.
pub open spec fn to_come(c: Crossing, disk: Map<int, Seq<u8>>) -> Multiset<Seq<Val>> {
    cross::all_pairs(
        c.cross.left_chunk,
        right_rest(c, disk)->Ok_0,
        c.cross.columns,
        c.cross.tests,
    ).0.to_multiset()
}

/// Whether a cross join goes right on a disk: the right blocks can be read, and no pair fails.
pub open spec fn goes_right(c: Crossing, disk: Map<int, Seq<u8>>) -> bool {
    &&& c.cross.block_size >= 2
    &&& cache::uniform(disk, c.cross.block_size)
    &&& c.cross.right_start + c.cross.right_blocks <= u64::MAX
    &&& c.fetch >= 1
    &&& 0 <= c.done <= c.cross.right_blocks
    &&& right_rest(c, disk) is Ok
    &&& cross::all_pairs(
        c.cross.left_chunk,
        right_rest(c, disk)->Ok_0,
        c.cross.columns,
        c.cross.tests,
    ).1 is None
}

proof fn lemma_each_of_parts(
    left: Seq<Val>,
    a: Seq<Seq<Val>>,
    b: Seq<Seq<Val>>,
    columns: Seq<Column>,
    tests: Option<Seq<Test>>,
)
    requires
        cross::with_each(left, a + b, columns, tests).1 is None,
    ensures
        cross::with_each(left, a, columns, tests).1 is None,
        cross::with_each(left, b, columns, tests).1 is None,
    decreases b.len(),
{
    if b.len() == 0 {
        assert(a + b =~= a);
    } else {
        assert((a + b).drop_last() =~= a + b.drop_last());
        lemma_each_of_parts(left, a, b.drop_last(), columns, tests);
    }
}

/// Where no pair fails, none fails with a part of the right rows.
proof fn lemma_parts_go_right(
    left: Seq<Seq<Val>>,
    a: Seq<Seq<Val>>,
    b: Seq<Seq<Val>>,
    columns: Seq<Column>,
    tests: Option<Seq<Test>>,
)
    requires
        cross::all_pairs(left, a + b, columns, tests).1 is None,
    ensures
        cross::all_pairs(left, a, columns, tests).1 is None,
        cross::all_pairs(left, b, columns, tests).1 is None,
    decreases left.len(),
{
    if left.len() > 0 {
        lemma_parts_go_right(left.drop_last(), a, b, columns, tests);
        lemma_each_of_parts(left.last(), a, b, columns, tests);
    }
}

/// Where no pair fails with the rows of blocks, none fails with the blocks.
proof fn lemma_blocks_go_right(
    left: Seq<Seq<Val>>,
    data: Seq<u8>,
    block_size: nat,
    n: nat,
    right_columns: Seq<Column>,
    columns: Seq<Column>,
    tests: Option<Seq<Test>>,
)
    requires
        block::blocks_rows(data, block_size, right_columns, n) is Ok,
        cross::all_pairs(
            left,
            block::blocks_rows(data, block_size, right_columns, n)->Ok_0,
            columns,
            tests,
        ).1 is None,
    ensures
        cross::block_pairs(left, data, block_size, n, right_columns, columns, tests).1 is None,
    decreases n,
{
    if n > 0 {
        let a = block::blocks_rows(data, block_size, right_columns, (n - 1) as nat)->Ok_0;
        let b = block::block_rows(
            block::nth_block(data, block_size, n - 1),
            block_size,
            right_columns,
        )->Ok_0;
        lemma_parts_go_right(left, a, b, columns, tests);
        lemma_blocks_go_right(
            left,
            data,
            block_size,
            (n - 1) as nat,
            right_columns,
            columns,
            tests,
        );
    }
}

/// The blocks that are asked for give pairs that were to come, and leave the others to come;
/// once no blocks are asked for, no pair is to come.
pub proof fn a_cross_join_gives_all_pairs(c: Crossing, disk: Map<int, Seq<u8>>)
    requires
        goes_right(c, disk),
    ensures
        ({
            let (after, act) = cross_output::cross_step(c);
            match act {
                Act::Fetch(b, n) => {
                    let got = cross_output::cross_supplied(
                        after,
                        cache::disk_blocks(disk, b as int, n as nat),
                        n as int,
                    );
                    &&& got.2 is None
                    &&& goes_right(got.0, disk)
                    &&& to_come(c, disk) == got.1.to_multiset().add(to_come(got.0, disk))
                    &&& got.0.cross == c.cross
                    &&& c.done < got.0.done <= c.cross.right_blocks
                },
                Act::Done => to_come(c, disk) == Multiset::<Seq<Val>>::empty(),
                _ => false,
            }
        }),
{
    let x = c.cross;
    let left = x.right_blocks - c.done;
    seqs::lemma_empty_multiset::<Seq<Val>>();
    if x.left_chunk.len() > 0 && left > 0 {
        let n = if c.fetch < left {
            c.fetch
        } else {
            left
        };
        let start = x.right_start + c.done;
        scan_laws::lemma_table_split(
            disk,
            start,
            n as nat,
            (left - n) as nat,
            x.block_size,
            x.right_columns,
            None,
        );
        scan_laws::lemma_table_is_blocks(
            disk,
            start,
            n as nat,
            n as nat,
            x.block_size,
            x.right_columns,
        );
        let here = scan_laws::table_rows(
            disk,
            start,
            n as nat,
            x.block_size,
            x.right_columns,
            None,
        )->Ok_0;
        let rest = scan_laws::table_rows(
            disk,
            start + n,
            (left - n) as nat,
            x.block_size,
            x.right_columns,
            None,
        )->Ok_0;
        let data = cache::disk_blocks(disk, start, n as nat);
        assert(n as nat + (left - n) as nat == left as nat);
        lemma_parts_go_right(x.left_chunk, here, rest, x.columns, x.tests);
        cross::lemma_pairs_of_parts(x.left_chunk, here, rest, x.columns, x.tests);
        lemma_blocks_go_right(
            x.left_chunk,
            data,
            x.block_size,
            n as nat,
            x.right_columns,
            x.columns,
            x.tests,
        );
        cross::joining_with_blocks_agrees(
            x.left_chunk,
            data,
            x.block_size,
            n as nat,
            x.right_columns,
            x.columns,
            x.tests,
        );
        assert(start + n == x.right_start + (c.done + n));
    } else if x.left_chunk.len() > 0 {
        cross::lemma_no_right_rows(x.left_chunk, x.columns, x.tests);
        assert(right_rest(c, disk)->Ok_0 =~= Seq::empty());
    }
}

// ---- the whole course ----

/// A cross join whose waiting left rows have met the right blocks.
pub open spec fn chunk_met(c: Crossing) -> Crossing {
    Crossing {
        cross: Cross { left_chunk: Seq::empty(), left_bytes: 0, ..c.cross },
        done: 0,
        ..c
    }
}

/// Left rows arrive in turn: the state then, and the pairs that have come, at once or once
/// the waiting rows met the right blocks.
pub open spec fn left_came(c: Crossing, rows: Seq<Seq<Val>>, disk: Map<int, Seq<u8>>) -> (
    Crossing,
    Multiset<Seq<Val>>,
)
    decreases rows.len(),
{
    if rows.len() == 0 {
        (c, Multiset::empty())
    } else {
        let before = left_came(c, rows.drop_last(), disk);
        let got = cross_output::left_arrived(before.0, rows.last());
        let pairs = before.1.add(got.1.to_multiset());
        if got.2 == Ok::<bool, Fault>(true) {
            (chunk_met(got.0), pairs.add(to_come(got.0, disk)))
        } else {
            (got.0, pairs)
        }
    }
}

/// Whether the right rows of a cross join are complete: all in memory, or all in blocks.
pub open spec fn right_complete(
    c: Crossing,
    right: Seq<Seq<Val>>,
    disk: Map<int, Seq<u8>>,
) -> bool {
    &&& c.done == 0
    &&& if c.cross.right_blocks == 0 {
        c.cross.right_rows == right
    } else {
        &&& c.cross.block_size >= 2
        &&& cache::uniform(disk, c.cross.block_size)
        &&& c.cross.right_start + c.cross.right_blocks <= u64::MAX
        &&& c.fetch >= 1
        &&& right_rest(c, disk) == Ok::<Seq<Seq<Val>>, Fault>(right)
    }
}

/// The pairs of the left rows that wait.
pub open spec fn waiting_pairs(c: Crossing, right: Seq<Seq<Val>>) -> Multiset<Seq<Val>> {
    cross::all_pairs(c.cross.left_chunk, right, c.cross.columns, c.cross.tests).0.to_multiset()
}

/// A cross join gives every pair of a left and a right row that passes, and no other: those
/// that have come, and those of the left rows that still wait.
pub proof fn a_cross_join_gives_the_pairs_of_its_inputs(
    c: Crossing,
    left: Seq<Seq<Val>>,
    right: Seq<Seq<Val>>,
    disk: Map<int, Seq<u8>>,
)
    requires
        c.cross.left_chunk.len() == 0,
        right_complete(c, right, disk),
        cross::all_pairs(left, right, c.cross.columns, c.cross.tests).1 is None,
    ensures
        ({
            let (e, pairs) = left_came(c, left, disk);
            let waiting = if c.cross.right_blocks == 0 {
                Multiset::empty()
            } else {
                to_come(e, disk)
            };
            &&& right_complete(e, right, disk)
            &&& c.cross.right_blocks > 0 ==> goes_right(e, disk)
            &&& pairs.add(waiting) == cross::all_pairs(
                left,
                right,
                c.cross.columns,
                c.cross.tests,
            ).0.to_multiset()
        }),
{
    lemma_left_came(c, left, right, disk);
    let (e, pairs) = left_came(c, left, disk);
    if c.cross.right_blocks == 0 {
        seqs::lemma_empty_multiset::<Seq<Val>>();
        assert(e.cross.left_chunk =~= Seq::empty());
        assert(cross::all_pairs(e.cross.left_chunk, right, c.cross.columns, c.cross.tests).0
            =~= Seq::empty());
    }
}

proof fn lemma_left_came(
    c: Crossing,
    left: Seq<Seq<Val>>,
    right: Seq<Seq<Val>>,
    disk: Map<int, Seq<u8>>,
)
    requires
        c.cross.left_chunk.len() == 0,
        right_complete(c, right, disk),
        cross::all_pairs(left, right, c.cross.columns, c.cross.tests).1 is None,
    ensures
        ({
            let (e, pairs) = left_came(c, left, disk);
            let x = c.cross;
            &&& e == (Crossing {
                cross: Cross {
                    left_chunk: e.cross.left_chunk,
                    left_bytes: e.cross.left_bytes,
                    ..x
                },
                ..c
            })
            &&& right_complete(e, right, disk)
            &&& x.right_blocks == 0 ==> e.cross.left_chunk.len() == 0
            &&& cross::all_pairs(e.cross.left_chunk, right, x.columns, x.tests).1 is None
            &&& pairs.add(waiting_pairs(e, right)) == cross::all_pairs(
                left,
                right,
                x.columns,
                x.tests,
            ).0.to_multiset()
        }),
    decreases left.len(),
{
    let x = c.cross;
    seqs::lemma_empty_multiset::<Seq<Val>>();
    if left.len() == 0 {
        assert(c.cross.left_chunk =~= left);
        assert(Multiset::<Seq<Val>>::empty().add(Multiset::empty()) =~= Multiset::empty());
    } else {
        let some = left.drop_last();
        let r = left.last();
        lemma_left_came(c, some, right, disk);
        let before = left_came(c, some, disk);
        let got = cross_output::left_arrived(before.0, r);
        let here = cross::with_each(r, right, x.columns, x.tests).0;
        let all = cross::all_pairs(some, right, x.columns, x.tests).0;
        vstd::seq_lib::lemma_multiset_commutative(all, here);
        let (p, w, h) = (before.1, waiting_pairs(before.0, right), here.to_multiset());
        if x.right_blocks == 0 {
            assert(p.add(h).add(w) =~= p.add(w).add(h));
        } else {
            let chunk = before.0.cross.left_chunk;
            assert(chunk.push(r).drop_last() =~= chunk);
            let old_pairs = cross::all_pairs(chunk, right, x.columns, x.tests).0;
            vstd::seq_lib::lemma_multiset_commutative(old_pairs, here);
            assert(right_rest(got.0, disk) == right_rest(c, disk));
            assert(p.add(Multiset::empty()) =~= p);
            assert(p.add(w.add(h)) =~= p.add(w).add(h));
            if got.2 == Ok::<bool, Fault>(true) {
                let met = chunk_met(got.0);
                assert(right_rest(met, disk) == right_rest(c, disk));
                assert(cross::all_pairs(met.cross.left_chunk, right, x.columns, x.tests).0
                    =~= Seq::empty());
                let v = p.add(w.add(h));
                assert(v.add(Multiset::empty()) =~= v);
            }
        }
    }
}

// ---- the waiting left rows ----

/// The pairs that the waiting left rows give, step by step, if the right blocks end within `n`
/// steps.
pub open spec fn pairs_given(c: Crossing, disk: Map<int, Seq<u8>>, n: nat) -> Option<
    Seq<Seq<Val>>,
>
    decreases n,
{
    if n == 0 {
        None
    } else {
        let (after, act) = cross_output::cross_step(c);
        match act {
            Act::Fetch(b, k) => {
                let got = cross_output::cross_supplied(
                    after,
                    cache::disk_blocks(disk, b as int, k as nat),
                    k as int,
                );
                match (got.2, pairs_given(got.0, disk, (n - 1) as nat)) {
                    (None, Some(rest)) => Some(got.1 + rest),
                    _ => None,
                }
            },
            Act::Done => Some(Seq::empty()),
            _ => None,
        }
    }
}

/// The waiting left rows meet all right blocks, and give all pairs that were to come, once
/// each.
pub proof fn the_waiting_rows_give_all_their_pairs(c: Crossing, disk: Map<int, Seq<u8>>) -> (n:
    nat)
    requires
        goes_right(c, disk),
    ensures
        pairs_given(c, disk, n) matches Some(pairs) && pairs.to_multiset() == to_come(c, disk),
    decreases c.cross.right_blocks - c.done,
{
    a_cross_join_gives_all_pairs(c, disk);
    let (after, act) = cross_output::cross_step(c);
    match act {
        Act::Fetch(b, k) => {
            let got = cross_output::cross_supplied(
                after,
                cache::disk_blocks(disk, b as int, k as nat),
                k as int,
            );
            let n = the_waiting_rows_give_all_their_pairs(got.0, disk);
            vstd::seq_lib::lemma_multiset_commutative(got.1, pairs_given(got.0, disk, n)->Some_0);
            n + 1
        },
        _ => {
            seqs::lemma_empty_multiset::<Seq<Val>>();
            1
        },
    }
}

} // verus!
