//! Laws of merging: step by step, the rows of the runs come out merged.

use vstd::prelude::*;

use crate::block;
use crate::cache;
use crate::error::Fault;
use crate::ops::merge::Merging;
use crate::ops::merge;
use crate::ops::scan_laws;
use crate::ops::sort_chunk::Run;
use crate::ops::sort_laws;
use crate::ops::sort_merge::{Step, Stream};
use crate::ops::sort_merge;
use crate::ops::Act;
use crate::schema::Column;
use crate::value::Val;

verus! {

/// The rows that a run still has, its first row that waits before the others.
pub open spec fn part(m: Merging, disk: Map<int, Seq<u8>>, i: int) -> Seq<Seq<Val>> {
    let rest = sort_laws::rows_left(m.streams[i], disk)->Ok_0;
    match m.heads[i] {
        Some(r) => seq![r] + rest,
        None => rest,
    }
}

/// The rows that each run still has.
pub open spec fn parts(m: Merging, disk: Map<int, Seq<u8>>) -> Seq<Seq<Seq<Val>>> {
    Seq::new(m.streams.len(), |i: int| part(m, disk, i))
}

/// The rows that a merge still gives, in their order.
pub open spec fn to_come(m: Merging, disk: Map<int, Seq<u8>>) -> Seq<Seq<Val>> {
    sort_laws::merged(parts(m, disk), m.keys)
}

/// Whether the first row of a run has still to be read.
pub open spec fn is_due(m: Merging, i: int) -> bool {
    i == m.turn || (m.starting && i > m.turn)
}

/// Whether the blocks of a run can be read from the disk.
pub open spec fn is_readable(s: Stream, disk: Map<int, Seq<u8>>) -> bool {
    &&& sort_laws::steady(s)
    &&& cache::uniform(disk, s.block_size)
    &&& sort_laws::rows_left(s, disk) is Ok
    &&& sort_laws::no_empty_block(s, disk)
}

/// Whether a merge goes right on a disk: its runs can be read, and the first row of each run
/// waits, but of those from which it has still to be read.
pub open spec fn goes_right(m: Merging, disk: Map<int, Seq<u8>>) -> bool {
    &&& m.heads.len() == m.streams.len()
    &&& 0 <= m.turn
    &&& forall|i: int| 0 <= i < m.streams.len() ==> is_readable(#[trigger] m.streams[i], disk)
    &&& forall|i: int|
        0 <= i < m.streams.len() && (#[trigger] m.heads[i]) is Some ==> !is_due(m, i)
    &&& forall|i: int|
        0 <= i < m.streams.len() && (#[trigger] m.heads[i]) is None && !is_due(m, i)
            ==> sort_laws::rows_left(m.streams[i], disk)->Ok_0.len() == 0
}

/// The number of runs whose first row has still to be read.
pub open spec fn due_count(m: Merging) -> nat {
    let n = m.streams.len();
    if m.turn >= n {
        0
    } else if m.starting {
        (n - m.turn) as nat
    } else {
        1
    }
}

/// The steps that a merge still takes, at most.
pub open spec fn steps_to_come(m: Merging, disk: Map<int, Seq<u8>>) -> nat {
    2 * sort_laws::rows_in(parts(m, disk)) + due_count(m)
}

/// The run whose turn it is has given a row, or has ended.
proof fn lemma_gave(m: Merging, s: Stream, step: Step, disk: Map<int, Seq<u8>>)
    requires
        goes_right(m, disk),
        m.turn < m.streams.len(),
        is_readable(s, disk),
        match step {
            Step::Row(r) => sort_laws::rows_left(m.streams[m.turn], disk)->Ok_0 == seq![r]
                + sort_laws::rows_left(s, disk)->Ok_0,
            Step::End => sort_laws::rows_left(m.streams[m.turn], disk)->Ok_0.len() == 0
                && sort_laws::rows_left(s, disk)->Ok_0.len() == 0,
            Step::Fetch(_, _) => false,
        },
    ensures
        goes_right(merge::gave(m, s, step), disk),
        parts(merge::gave(m, s, step), disk) == parts(m, disk),
        due_count(merge::gave(m, s, step)) + 1 == due_count(m),
{
    let after = merge::gave(m, s, step);
    assert(m.heads[m.turn] is None);
    assert forall|i: int| 0 <= i < m.streams.len() implies #[trigger] parts(after, disk)[i] == parts(
        m,
        disk,
    )[i] by {
        if i == m.turn {
            match step {
                Step::Row(r) => {},
                _ => {
                    assert(part(after, disk, i) =~= part(m, disk, i));
                },
            }
        }
    }
    assert(parts(after, disk) =~= parts(m, disk));
    assert forall|i: int| 0 <= i < after.streams.len() implies is_readable(
        #[trigger] after.streams[i],
        disk,
    ) by {
        if i != m.turn {
            assert(after.streams[i] == m.streams[i]);
        }
    }
    assert forall|i: int|
        0 <= i < after.streams.len() && (#[trigger] after.heads[i]) is Some implies !is_due(after, i) by {
        if i != m.turn {
            assert(m.heads[i] is Some);
        }
    }
    assert forall|i: int|
        0 <= i < after.streams.len() && (#[trigger] after.heads[i]) is None && !is_due(after, i) implies sort_laws::rows_left(
        after.streams[i],
        disk,
    )->Ok_0.len() == 0 by {
        if i != m.turn {
            assert(m.heads[i] is None);
        }
    }
}

/// A step of a merge gives the next row, or leaves the rows to come as they are; at its end
/// no row is to come. Blocks that are read are taken in the same way. Each step leaves fewer
/// steps.
pub proof fn a_merge_gives_the_merged_rows(m: Merging, disk: Map<int, Seq<u8>>)
    requires
        goes_right(m, disk),
    ensures
        ({
            let (after, act) = merge::merge_step(m);
            match act {
                Ok(Act::Row(r)) => {
                    &&& goes_right(after, disk)
                    &&& to_come(m, disk) == seq![r] + to_come(after, disk)
                    &&& steps_to_come(after, disk) < steps_to_come(m, disk)
                },
                Ok(Act::Again) => {
                    &&& goes_right(after, disk)
                    &&& parts(after, disk) == parts(m, disk)
                    &&& to_come(after, disk) == to_come(m, disk)
                    &&& steps_to_come(after, disk) < steps_to_come(m, disk)
                },
                Ok(Act::Fetch(b, n)) => {
                    let got = merge::merge_supplied(
                        after,
                        cache::disk_blocks(disk, b as int, n as nat),
                        n as int,
                    );
                    &&& got.1 is None
                    &&& goes_right(got.0, disk)
                    &&& parts(got.0, disk) == parts(m, disk)
                    &&& to_come(got.0, disk) == to_come(m, disk)
                    &&& steps_to_come(got.0, disk) < steps_to_come(m, disk)
                },
                Ok(Act::Done) => to_come(m, disk).len() == 0,
                Err(_) => false,
            }
        }),
{
    let n = m.streams.len();
    let (after, act) = merge::merge_step(m);
    if m.turn < n {
        let s = m.streams[m.turn];
        assert(is_readable(m.streams[m.turn], disk));
        sort_laws::a_run_gives_its_rows_in_order(s, disk);
        let (t, step) = sort_merge::polled(s);
        match step {
            Ok(Step::Row(r)) => {
                lemma_gave(m, t, Step::Row(r), disk);
            },
            Ok(Step::End) => {
                lemma_gave(m, t, Step::End, disk);
            },
            Ok(Step::Fetch(b, k)) => {
                assert(t == s);
                assert(after.streams =~= m.streams);
                assert(after == m);
                let data = cache::disk_blocks(disk, b as int, k as nat);
                let (u, got) = sort_merge::supplied(s, data, k as int);
                let r = got->Ok_0->Row_0;
                lemma_gave(m, u, Step::Row(r), disk);
            },
            Err(_) => {},
        }
    } else {
        let all = parts(m, disk);
        let heads = sort_laws::heads_of(all);
        assert forall|i: int| 0 <= i < n implies #[trigger] heads[i] == m.heads[i] by {
            assert(all[i] == part(m, disk, i));
        }
        assert(heads =~= m.heads);
        sort_merge::lemma_least_head(m.heads, m.keys);
        match sort_merge::least_head(m.heads, m.keys) {
            None => {},
            Some(i) => {
                let rest = sort_laws::without_first(all, i);
                let r = m.heads[i]->Some_0;
                assert(all[i] == part(m, disk, i));
                assert forall|k: int| 0 <= k < n implies #[trigger] parts(after, disk)[k] == rest[k] by {
                    assert(all[k] == part(m, disk, k));
                    if k == i {
                        assert(all[k].drop_first() =~= sort_laws::rows_left(
                            m.streams[k],
                            disk,
                        )->Ok_0);
                    }
                }
                assert(parts(after, disk) =~= rest);
                sort_laws::lemma_rows_in_less(all, i);
                assert forall|k: int|
                    0 <= k < n && (#[trigger] after.heads[k]) is None && !is_due(after, k) implies sort_laws::rows_left(
                    after.streams[k],
                    disk,
                )->Ok_0.len() == 0 by {
                    assert(m.heads[k] is None);
                }
                assert forall|k: int| 0 <= k < n && (#[trigger] after.heads[k]) is Some implies !is_due(
                    after,
                    k,
                ) by {}
            },
        }
    }
}

/// Whether the blocks of a run hold rows, and each of them at least one.
pub open spec fn run_holds(
    run: Run,
    rows: Seq<Seq<Val>>,
    columns: Seq<Column>,
    block_size: nat,
    disk: Map<int, Seq<u8>>,
) -> bool {
    &&& run.start_block + run.num_blocks <= u64::MAX
    &&& scan_laws::table_rows(
        disk,
        run.start_block as int,
        run.num_blocks as nat,
        block_size,
        columns,
        None,
    ) == Ok::<Seq<Seq<Val>>, Fault>(rows)
    &&& forall|b: int|
        run.start_block <= b < run.start_block + run.num_blocks ==> block::block_count(
            #[trigger] disk[b],
            block_size,
        ) > 0
}

/// Runs whose blocks hold rows are merged to these rows.
pub proof fn a_merge_begins_with_the_rows_of_its_runs(
    runs: Seq<Run>,
    rows: Seq<Seq<Seq<Val>>>,
    columns: Seq<Column>,
    keys: Seq<(int, bool)>,
    pool: int,
    block_size: nat,
    disk: Map<int, Seq<u8>>,
)
    requires
        block_size >= 2,
        cache::uniform(disk, block_size),
        rows.len() == runs.len(),
        forall|i: int|
            0 <= i < runs.len() ==> run_holds(
                #[trigger] runs[i],
                rows[i],
                columns,
                block_size,
                disk,
            ),
    ensures
        ({
            let m = merge::merging_of(runs, columns, keys, pool, block_size as int);
            &&& goes_right(m, disk)
            &&& parts(m, disk) == rows
            &&& to_come(m, disk) == sort_laws::merged(rows, keys)
        }),
{
    let m = merge::merging_of(runs, columns, keys, pool, block_size as int);
    assert forall|i: int| 0 <= i < runs.len() implies is_readable(#[trigger] m.streams[i], disk)
        && parts(m, disk)[i] == rows[i] by {
        assert(run_holds(runs[i], rows[i], columns, block_size, disk));
        let s = m.streams[i];
        assert(0 * block_size == 0);
        assert(sort_laws::rows_left(s, disk) == Ok::<Seq<Seq<Val>>, Fault>(
            s.rows + Seq::empty() + rows[i],
        ));
        assert(s.rows + Seq::empty() + rows[i] =~= rows[i]);
    }
    assert(parts(m, disk) =~= rows);
}

} // verus!
