//! Laws of the output of a sort: step by step, through all rounds of merging, the rows of the
//! input come out in the order of the keys.

use vstd::multiset::Multiset;
use vstd::prelude::*;

use crate::block;
use crate::cache;
use crate::disk::Disk;
use crate::error::Fault;
use crate::ops::merge::Merging;
use crate::ops::merge;
use crate::ops::merge_laws;
use crate::ops::run_laws;
use crate::ops::scan_laws;
use crate::ops::sort;
use crate::ops::sort_chunk::Run;
use crate::ops::sort_laws;
use crate::ops::sort_merge::Stream;
use crate::ops::sort_merge;
use crate::ops::sort_output::{Round, Sorting, Stage};
use crate::ops::sort_output;
use crate::ops::Act;
use crate::row;
use crate::schema::Column;
use crate::seqs;
use crate::value::{Order, Val};

verus! {

// ---- other blocks of the disk ----

/// A run whose blocks are the same holds the same rows.
proof fn lemma_same_run(
    run: Run,
    rows: Seq<Seq<Val>>,
    columns: Seq<Column>,
    block_size: nat,
    disk: Map<int, Seq<u8>>,
    other: Map<int, Seq<u8>>,
    end: int,
)
    requires
        merge_laws::run_holds(run, rows, columns, block_size, disk),
        cache::same_before(disk, other, end),
        run.start_block + run.num_blocks <= end,
    ensures
        merge_laws::run_holds(run, rows, columns, block_size, other),
{
    scan_laws::lemma_same_rows(
        disk,
        other,
        end,
        run.start_block as int,
        run.num_blocks as nat,
        block_size,
        columns,
    );
    assert forall|b: int| run.start_block <= b < run.start_block + run.num_blocks implies block::block_count(
        #[trigger] other[b],
        block_size,
    ) > 0 by {
        assert(other[b] == disk[b]);
        assert(block::block_count(disk[b], block_size) > 0);
    }
}

proof fn lemma_same_stream(
    s: Stream,
    disk: Map<int, Seq<u8>>,
    other: Map<int, Seq<u8>>,
    end: int,
)
    requires
        merge_laws::is_readable(s, disk),
        cache::same_before(disk, other, end),
        cache::uniform(other, s.block_size),
        s.next_block + s.blocks_left <= end,
    ensures
        merge_laws::is_readable(s, other),
        sort_laws::rows_left(s, other) == sort_laws::rows_left(s, disk),
{
    scan_laws::lemma_same_rows(
        disk,
        other,
        end,
        s.next_block,
        s.blocks_left as nat,
        s.block_size,
        s.columns,
    );
    assert forall|b: int| s.next_block <= b < s.next_block + s.blocks_left implies block::block_count(
        #[trigger] other[b],
        s.block_size,
    ) > 0 by {
        assert(other[b] == disk[b]);
        assert(block::block_count(disk[b], s.block_size) > 0);
    }
}

/// Whether the blocks of the runs of a merge come before a block.
pub open spec fn streams_below(m: Merging, end: int) -> bool {
    forall|i: int|
        0 <= i < m.streams.len() ==> (#[trigger] m.streams[i]).next_block + m.streams[i].blocks_left
            <= end
}

/// Whether the blocks of runs have this size.
pub open spec fn streams_sized(m: Merging, block_size: nat) -> bool {
    forall|i: int| 0 <= i < m.streams.len() ==> (#[trigger] m.streams[i]).block_size == block_size
}

/// A merge whose blocks are the same gives the same rows.
proof fn lemma_same_merge(
    m: Merging,
    block_size: nat,
    disk: Map<int, Seq<u8>>,
    other: Map<int, Seq<u8>>,
    end: int,
)
    requires
        merge_laws::goes_right(m, disk),
        streams_below(m, end),
        streams_sized(m, block_size),
        cache::same_before(disk, other, end),
        cache::uniform(other, block_size),
    ensures
        merge_laws::goes_right(m, other),
        merge_laws::parts(m, other) == merge_laws::parts(m, disk),
{
    assert forall|i: int| 0 <= i < m.streams.len() implies merge_laws::is_readable(
        #[trigger] m.streams[i],
        other,
    ) && sort_laws::rows_left(m.streams[i], other) == sort_laws::rows_left(m.streams[i], disk) by {
        assert(merge_laws::is_readable(m.streams[i], disk));
        lemma_same_stream(m.streams[i], disk, other, end);
    }
    assert forall|i: int|
        0 <= i < m.streams.len() && (#[trigger] m.heads[i]) is None && !merge_laws::is_due(
            m,
            i,
        ) implies sort_laws::rows_left(m.streams[i], other)->Ok_0.len() == 0 by {
        assert(merge_laws::is_readable(m.streams[i], other));
    }
    assert(merge_laws::parts(m, other) =~= merge_laws::parts(m, disk)) by {
        assert forall|i: int| 0 <= i < m.streams.len() implies merge_laws::parts(m, other)[i]
            == merge_laws::parts(m, disk)[i] by {
            assert(merge_laws::is_readable(m.streams[i], other));
        }
    }
}

/// The blocks of the runs of a merge stay where they are.
proof fn lemma_merge_stays_below(m: Merging, disk: Map<int, Seq<u8>>, block_size: nat, end: int)
    requires
        merge_laws::goes_right(m, disk),
        streams_below(m, end),
        streams_sized(m, block_size),
    ensures
        ({
            let (after, act) = merge::merge_step(m);
            &&& streams_below(after, end)
            &&& streams_sized(after, block_size)
            &&& act matches Ok(Act::Fetch(b, n)) ==> {
                let got = merge::merge_supplied(
                    after,
                    cache::disk_blocks(disk, b as int, n as nat),
                    n as int,
                ).0;
                streams_below(got, end) && streams_sized(got, block_size)
            }
        }),
{
    let (after, act) = merge::merge_step(m);
    if m.turn < m.streams.len() {
        let s = m.streams[m.turn];
        assert(merge_laws::is_readable(m.streams[m.turn], disk));
        let (t, step) = sort_merge::polled(s);
        assert(t.next_block + t.blocks_left == s.next_block + s.blocks_left);
        assert(t.block_size == s.block_size);
        match step {
            Ok(sort_merge::Step::Fetch(b, n)) => {
                let data = cache::disk_blocks(disk, b as int, n as nat);
                let u = sort_merge::supplied(t, data, n as int).0;
                assert(u.next_block + u.blocks_left == s.next_block + s.blocks_left);
                assert(u.block_size == s.block_size);
            },
            _ => {},
        }
    }
}

// ---- the rows of a round ----

/// What is known of the rows that are still to come.
pub struct Contents {
    /// The rows of the runs of the group that is merged.
    pub group: Seq<Seq<Seq<Val>>>,
    /// The rows of the runs behind the group that is merged.
    pub rest: Seq<Seq<Seq<Val>>>,
    /// The rows of the merged runs of the groups before.
    pub done: Seq<Seq<Seq<Val>>>,
    /// The rows that have joined the run to which the group is merged.
    pub grown: Seq<Seq<Val>>,
    /// No key of any row is a NaN.
    pub keyed: bool,
}

/// Whether runs hold rows, each its own, and have as many blocks as these need.
pub open spec fn holds_each(
    runs: Seq<Run>,
    rows: Seq<Seq<Seq<Val>>>,
    columns: Seq<Column>,
    block_size: nat,
    disk: Map<int, Seq<u8>>,
) -> bool {
    &&& rows.len() == runs.len()
    &&& forall|i: int|
        0 <= i < runs.len() ==> merge_laws::run_holds(
            #[trigger] runs[i],
            rows[i],
            columns,
            block_size,
            disk,
        ) && runs[i].num_blocks == block::packed_blocks(rows[i], block_size)
}

/// Whether the blocks of runs come before a block.
pub open spec fn below(runs: Seq<Run>, end: int) -> bool {
    forall|i: int|
        0 <= i < runs.len() ==> (#[trigger] runs[i]).start_block + runs[i].num_blocks <= end
}

/// The rows of a round, all of them.
pub open spec fn round_rows(r: Round, c: Contents, disk: Map<int, Seq<u8>>) -> Multiset<Seq<Val>> {
    sort_laws::pooled(c.done).add(c.grown.to_multiset()).add(
        merge_laws::to_come(r.merge, disk).to_multiset(),
    ).add(sort_laws::pooled(c.rest))
}

/// Whether all rows can be kept in blocks.
pub open spec fn storable(rows: Multiset<Seq<Val>>, columns: Seq<Column>, block_size: nat) -> bool {
    &&& forall|x: Seq<Val>| #[trigger]
        rows.contains(x) ==> block::packable(x, columns, block_size)
    &&& block::countable(rows, block_size)
}

/// Some of the rows that can be kept in blocks.
pub proof fn lemma_some_storable(
    all: Multiset<Seq<Val>>,
    rows: Seq<Seq<Val>>,
    columns: Seq<Column>,
    block_size: nat,
)
    requires
        storable(all, columns, block_size),
        rows.to_multiset().subset_of(all),
    ensures
        block::all_packable(rows, columns, block_size),
{
    assert forall|i: int| 0 <= i < rows.len() implies block::packable(
        #[trigger] rows[i],
        columns,
        block_size,
    ) by {
        vstd::seq_lib::to_multiset_contains(rows, rows[i]);
        assert(all.contains(rows[i]));
    }
    assert forall|few: Seq<Seq<Val>>|
        few.to_multiset().subset_of(rows.to_multiset()) && (#[trigger] block::joined(
            block::rows_bytes(few),
        )).len() <= block_size - 2 implies few.len() <= 0xffff by {
        assert(few.to_multiset().subset_of(all));
    }
}

/// Rows can be kept in blocks, whatever holds them.
pub proof fn lemma_rows_storable(rows: Seq<Seq<Val>>, columns: Seq<Column>, block_size: nat)
    ensures
        block::all_packable(rows, columns, block_size) <==> storable(
            rows.to_multiset(),
            columns,
            block_size,
        ),
{
    if block::all_packable(rows, columns, block_size) {
        assert forall|x: Seq<Val>| #[trigger] rows.to_multiset().contains(x) implies block::packable(
            x,
            columns,
            block_size,
        ) by {
            vstd::seq_lib::to_multiset_contains(rows, x);
            let i = choose|i: int| 0 <= i < rows.len() && rows[i] == x;
            assert(block::packable(rows[i], columns, block_size));
        }
    }
    if storable(rows.to_multiset(), columns, block_size) {
        lemma_some_storable(rows.to_multiset(), rows, columns, block_size);
    }
}

/// Whether no key of any row is a NaN.
pub open spec fn keyed(rows: Multiset<Seq<Val>>, keys: Seq<(int, bool)>) -> bool {
    forall|x: Seq<Val>| #[trigger] rows.contains(x) ==> sort::has_keys(x, keys)
}

/// Whether block numbers last for this round and the next ones: each takes at most one for each
/// row, and there are no more rounds than runs.
pub open spec fn numbers_last(r: Round, c: Contents, start: int, rows: nat) -> bool {
    &&& rows < usize::MAX
    &&& start + (rows - sort_laws::pooled(c.done).len()) + rows * (r.done.len() + 1 + r.runs.len()
        - r.upto) < u64::MAX
}

/// Whether a round goes right: every run holds its rows, and they are sorted where no key is
/// a NaN. The last blocks that were taken are those of the merged run, as many as the runs of
/// its group have.
pub open spec fn round_goes_right(
    s: Sorting,
    r: Round,
    next: int,
    disk: Map<int, Seq<u8>>,
    c: Contents,
) -> bool {
    let block_size = s.block_size as nat;
    let start = r.growing.start as int;
    let behind = r.runs.skip(r.upto);
    let all = round_rows(r, c, disk);
    &&& 2 <= s.block_size
    &&& cache::uniform(disk, block_size)
    &&& merge_laws::goes_right(r.merge, disk)
    &&& r.merge.keys == s.keys
    &&& streams_below(r.merge, start)
    &&& streams_sized(r.merge, block_size)
    &&& 0 <= r.upto <= r.runs.len()
    &&& holds_each(behind, c.rest, s.columns, block_size, disk)
    &&& below(behind, start)
    &&& holds_each(r.done, c.done, s.columns, block_size, disk)
    &&& below(r.done, start)
    &&& run_laws::growing_holds(r.growing, c.grown, s.columns, disk)
    &&& r.taken == block::packed_apart(c.group, block_size)
    &&& start + r.taken == next
    &&& c.grown.to_multiset().add(merge_laws::to_come(r.merge, disk).to_multiset())
        == sort_laws::pooled(c.group)
    &&& r.growing.block_size == block_size
    &&& storable(all, s.columns, block_size)
    &&& numbers_last(r, c, start, all.len())
    &&& c.keyed ==> {
        &&& keyed(all, s.keys)
        &&& sort_laws::sorted(c.grown + merge_laws::to_come(r.merge, disk), s.keys)
        &&& sort_laws::runs_sorted(c.rest, s.keys)
        &&& sort_laws::runs_sorted(c.done, s.keys)
    }
}

/// The rows that are still to come; their order is that of the sequence but in a round of
/// merging.
pub open spec fn rows_to_come(s: Sorting, disk: Map<int, Seq<u8>>, c: Contents) -> Multiset<
    Seq<Val>,
> {
    match s.stage {
        Stage::Cascade(r) => round_rows(r, c, disk),
        _ => sequence_to_come(s, disk).to_multiset(),
    }
}

/// The rows that come from memory, or from the last merge.
pub open spec fn sequence_to_come(s: Sorting, disk: Map<int, Seq<u8>>) -> Seq<Seq<Val>> {
    match s.stage {
        Stage::Memory(rows) => rows,
        Stage::Last(m) => merge_laws::to_come(m, disk),
        _ => Seq::empty(),
    }
}

/// Whether the output of a sort goes right: the rows that come from memory or from the last
/// merge are sorted where no key is a NaN.
pub open spec fn goes_right(
    s: Sorting,
    next: int,
    disk: Map<int, Seq<u8>>,
    c: Contents,
) -> bool {
    match s.stage {
        Stage::Cascade(r) => round_goes_right(s, r, next, disk, c),
        _ => {
            let rows = sequence_to_come(s, disk);
            &&& s.stage matches Stage::Last(m) ==> merge_laws::goes_right(m, disk)
            &&& c.keyed ==> keyed(rows.to_multiset(), s.keys) && sort_laws::sorted(rows, s.keys)
        },
    }
}

/// What the blocks of the disk are after a step.
pub open spec fn disk_after(s: Sorting, d: Disk, disk: Map<int, Seq<u8>>) -> Map<int, Seq<u8>> {
    match s.stage {
        Stage::Cascade(r) => match merge::merge_step(r.merge).1 {
            Ok(Act::Row(x)) => run_laws::disk_grown(r.growing, x, d, disk),
            Ok(Act::Done) => run_laws::disk_ended(r.growing, d, disk),
            _ => disk,
        },
        _ => disk,
    }
}

/// Where block numbers last, a merged run can have a block more.
proof fn lemma_has_room(s: Sorting, r: Round, d: Disk, disk: Map<int, Seq<u8>>, c: Contents)
    requires
        s.stage == Stage::Cascade(r),
        round_goes_right(s, r, d.next as int, disk, c),
    ensures
        run_laws::has_room(r.growing),
        r.growing.total <= c.grown.len(),
        sort_laws::pooled(c.done).len() + c.grown.len() <= round_rows(r, c, disk).len(),
{
    broadcast use vstd::seq_lib::group_to_multiset_ensures;

    run_laws::lemma_no_more_blocks_than_rows(r.growing, c.grown, s.columns, disk);
    let all = round_rows(r, c, disk);
    let grown = c.grown.to_multiset();
    assert(grown.len() == c.grown.len());
    let (x, y, z) = (
        sort_laws::pooled(c.done),
        merge_laws::to_come(r.merge, disk).to_multiset(),
        sort_laws::pooled(c.rest),
    );
    vstd::multiset::axiom_len_add(x, grown);
    vstd::multiset::axiom_len_add(x.add(grown), y);
    vstd::multiset::axiom_len_add(x.add(grown).add(y), z);
    let (n, k) = (all.len() as int, r.done.len() + 1 + r.runs.len() - r.upto);
    assert(0 <= n * k) by (nonlinear_arith)
        requires
            n >= 0,
            k >= 0,
    ;
}

// ---- pools of rows ----

proof fn lemma_pool_split(runs: Seq<Seq<Seq<Val>>>, k: int)
    requires
        0 <= k <= runs.len(),
    ensures
        sort_laws::pooled(runs) == sort_laws::pooled(runs.take(k)).add(
            sort_laws::pooled(runs.skip(k)),
        ),
    decreases runs.len() - k,
{
    let (a, b) = (runs.take(k), runs.skip(k));
    if k == runs.len() {
        assert(a =~= runs);
        assert(b =~= Seq::empty());
        assert(sort_laws::pooled(a).add(Multiset::empty()) =~= sort_laws::pooled(a));
    } else {
        lemma_pool_split(runs.drop_last(), k);
        assert(runs.drop_last().take(k) =~= a);
        assert(runs.drop_last().skip(k) =~= b.drop_last());
        let (x, y, z) = (
            sort_laws::pooled(a),
            sort_laws::pooled(b.drop_last()),
            runs.last().to_multiset(),
        );
        assert(b.last() == runs.last());
        assert(x.add(y).add(z) =~= x.add(y.add(z)));
    }
}

proof fn lemma_pool_has(runs: Seq<Seq<Seq<Val>>>, i: int, j: int)
    requires
        0 <= i < runs.len(),
        0 <= j < runs[i].len(),
    ensures
        sort_laws::pooled(runs).contains(runs[i][j]),
    decreases runs.len(),
{
    if i < runs.len() - 1 {
        lemma_pool_has(runs.drop_last(), i, j);
    } else {
        vstd::seq_lib::to_multiset_contains(runs[i], runs[i][j]);
    }
}

/// Rows of a pool without NaN keys have keys.
pub proof fn lemma_pool_keyed(
    runs: Seq<Seq<Seq<Val>>>,
    all: Multiset<Seq<Val>>,
    keys: Seq<(int, bool)>,
)
    requires
        sort_laws::pooled(runs).subset_of(all),
        keyed(all, keys),
    ensures
        sort_laws::runs_have_keys(runs, keys),
{
    assert forall|i: int| 0 <= i < runs.len() implies sort::all_have_keys(
        #[trigger] runs[i],
        keys,
    ) by {
        assert forall|j: int| 0 <= j < runs[i].len() implies sort::has_keys(
            #[trigger] runs[i][j],
            keys,
        ) by {
            lemma_pool_has(runs, i, j);
            assert(all.contains(runs[i][j]));
        }
    }
}

// ---- blocks of runs ----

/// The blocks of runs are those that their rows need.
proof fn lemma_blocks_of_runs(
    runs: Seq<Run>,
    rows: Seq<Seq<Seq<Val>>>,
    columns: Seq<Column>,
    block_size: nat,
    disk: Map<int, Seq<u8>>,
)
    requires
        holds_each(runs, rows, columns, block_size, disk),
    ensures
        sort_merge::blocks_of_runs(runs) == block::packed_apart(rows, block_size),
    decreases runs.len(),
{
    if runs.len() > 0 {
        let (a, b) = (runs.drop_last(), rows.drop_last());
        assert forall|i: int| 0 <= i < a.len() implies merge_laws::run_holds(
            #[trigger] a[i],
            b[i],
            columns,
            block_size,
            disk,
        ) && a[i].num_blocks == block::packed_blocks(b[i], block_size) by {
            assert(a[i] == runs[i]);
        }
        lemma_blocks_of_runs(a, b, columns, block_size, disk);
        assert(runs[runs.len() - 1].num_blocks == block::packed_blocks(
            rows[runs.len() - 1],
            block_size,
        ));
    }
}

/// Runs have no more blocks than rows.
proof fn lemma_blocks_within_rows(
    parts: Seq<Seq<Seq<Val>>>,
    all: Multiset<Seq<Val>>,
    columns: Seq<Column>,
    block_size: nat,
)
    requires
        2 <= block_size,
        sort_laws::pooled(parts).subset_of(all),
        storable(all, columns, block_size),
    ensures
        block::packed_apart(parts, block_size) <= sort_laws::pooled(parts).len(),
        block::rows_apart(parts) == sort_laws::pooled(parts).len(),
        forall|i: int|
            0 <= i < parts.len() ==> block::all_packable(#[trigger] parts[i], columns, block_size),
    decreases parts.len(),
{
    seqs::lemma_empty_multiset::<Seq<Val>>();
    if parts.len() > 0 {
        let (before, last) = (parts.drop_last(), parts.last());
        let (x, y) = (sort_laws::pooled(before), last.to_multiset());
        assert forall|w: Seq<Val>| #[trigger] x.count(w) <= all.count(w) by {
            assert(x.add(y).count(w) <= all.count(w));
        }
        assert forall|w: Seq<Val>| #[trigger] y.count(w) <= all.count(w) by {
            assert(x.add(y).count(w) <= all.count(w));
        }
        lemma_blocks_within_rows(before, all, columns, block_size);
        lemma_some_storable(all, last, columns, block_size);
        let n = block::lemma_packed_are_unpacked(last, columns, block_size);
        block::lemma_blocks_hold_rows(
            block::packed_rows(last, block_size),
            block_size,
            columns,
            n,
        );
        assert((n * block_size) / block_size == n) by (nonlinear_arith)
            requires
                block_size >= 2,
        ;
        vstd::multiset::axiom_len_add(x, y);
        vstd::seq_lib::to_multiset_len(last);
        assert forall|i: int| 0 <= i < parts.len() implies block::all_packable(
            #[trigger] parts[i],
            columns,
            block_size,
        ) by {
            if i < before.len() {
                assert(before[i] == parts[i]);
            }
        }
    }
}

// ---- beginnings ----

/// A group of runs begins to be merged.
proof fn lemma_group_begins(
    s: Sorting,
    runs: Seq<Run>,
    from: int,
    rest: Seq<Seq<Seq<Val>>>,
    done: Seq<Run>,
    done_rows: Seq<Seq<Seq<Val>>>,
    is_keyed: bool,
    d: Disk,
    disk: Map<int, Seq<u8>>,
) -> (c: Contents)
    requires
        2 <= s.block_size,
        cache::uniform(disk, s.block_size as nat),
        0 <= from <= runs.len(),
        holds_each(runs.skip(from), rest, s.columns, s.block_size as nat, disk),
        below(runs.skip(from), d.next as int),
        holds_each(done, done_rows, s.columns, s.block_size as nat, disk),
        below(done, d.next as int),
        storable(
            sort_laws::pooled(done_rows).add(sort_laws::pooled(rest)),
            s.columns,
            s.block_size as nat,
        ),
        is_keyed ==> {
            &&& keyed(sort_laws::pooled(done_rows).add(sort_laws::pooled(rest)), s.keys)
            &&& sort_laws::runs_sorted(rest, s.keys)
            &&& sort_laws::runs_sorted(done_rows, s.keys)
        },
        ({
            let rows = sort_laws::pooled(done_rows).add(sort_laws::pooled(rest)).len();
            let upto = sort_output::group_end(from, runs.len() as int);
            &&& rows < usize::MAX
            &&& d.next + (rows - sort_laws::pooled(done_rows).len()) + rows * (done.len() + 1
                + runs.len() - upto) < u64::MAX
        }),
    ensures
        c.keyed == is_keyed,
        sort_output::group_begun(s, runs, from, done, d).0 matches Stage::Cascade(r) && {
            &&& round_goes_right(
                s,
                r,
                sort_output::group_begun(s, runs, from, done, d).1.next as int,
                disk,
                c,
            )
            &&& round_rows(r, c, disk) == sort_laws::pooled(done_rows).add(sort_laws::pooled(rest))
        },
{
    let bs = s.block_size as nat;
    let upto = sort_output::group_end(from, runs.len() as int);
    let k = upto - from;
    let group = runs.subrange(from, upto);
    let rows = rest.take(k);
    let r = sort_output::group_begun(s, runs, from, done, d).0->Cascade_0;
    let c = Contents {
        group: rows,
        rest: rest.skip(k),
        done: done_rows,
        grown: Seq::empty(),
        keyed: is_keyed,
    };
    let all = sort_laws::pooled(done_rows).add(sort_laws::pooled(rest));
    assert forall|i: int| 0 <= i < group.len() implies merge_laws::run_holds(
        #[trigger] group[i],
        rows[i],
        s.columns,
        bs,
        disk,
    ) && group[i].num_blocks == block::packed_blocks(rows[i], bs) by {
        assert(group[i] == runs.skip(from)[i]);
    }
    lemma_blocks_of_runs(group, rows, s.columns, bs, disk);
    merge_laws::a_merge_begins_with_the_rows_of_its_runs(
        group,
        rows,
        s.columns,
        s.keys,
        s.pool,
        bs,
        disk,
    );
    assert(streams_below(r.merge, d.next as int)) by {
        assert forall|i: int| 0 <= i < r.merge.streams.len() implies (
        #[trigger] r.merge.streams[i]).next_block + r.merge.streams[i].blocks_left <= d.next by {
            assert(group[i] == runs.skip(from)[i]);
        }
    }
    let behind = runs.skip(upto);
    assert forall|i: int| 0 <= i < behind.len() implies merge_laws::run_holds(
        #[trigger] behind[i],
        c.rest[i],
        s.columns,
        bs,
        disk,
    ) && behind[i].num_blocks == block::packed_blocks(c.rest[i], bs) && behind[i].start_block
        + behind[i].num_blocks <= d.next by {
        assert(behind[i] == runs.skip(from)[k + i]);
    }
    let none = Seq::<Seq<Val>>::empty();
    block::lemma_none_packable(s.columns, bs);
    assert(block::rows_bytes(none) =~= Seq::empty());
    assert(cache::disk_blocks(disk, d.next as int, 0) =~= Seq::empty());
    assert(Seq::<u8>::empty() + Seq::<u8>::empty() =~= Seq::empty());
    assert(0 * bs == 0);
    assert(run_laws::growing_holds(r.growing, none, s.columns, disk));
    sort_laws::merging_keeps_the_rows(rows, s.keys);
    lemma_pool_split(rest, k);
    seqs::lemma_empty_multiset::<Seq<Val>>();
    let (x, y, z) = (
        sort_laws::pooled(done_rows),
        sort_laws::pooled(rows),
        sort_laws::pooled(c.rest),
    );
    assert(x.add(Multiset::empty()).add(y).add(z) =~= x.add(y.add(z)));
    let to_come = merge_laws::to_come(r.merge, disk);
    assert(none + to_come =~= to_come);
    assert(Multiset::<Seq<Val>>::empty().add(y) =~= y);
    lemma_blocks_within_rows(rows, all, s.columns, bs);
    vstd::multiset::axiom_len_add(y, z);
    vstd::multiset::axiom_len_add(x, y.add(z));
    let (n, times) = (all.len() as int, done.len() + 1 + runs.len() - upto);
    assert(0 <= n * times) by (nonlinear_arith)
        requires
            n >= 0,
            times >= 0,
    ;
    if is_keyed {
        assert(sort_laws::pooled(rows).subset_of(all));
        lemma_pool_keyed(rows, all, s.keys);
        assert forall|i: int| 0 <= i < rows.len() implies sort_laws::sorted(
            #[trigger] rows[i],
            s.keys,
        ) by {
            assert(rows[i] == rest[i]);
        }
        sort_laws::merging_sorts(rows, s.keys);
        assert forall|i: int| 0 <= i < c.rest.len() implies sort_laws::sorted(
            #[trigger] c.rest[i],
            s.keys,
        ) by {
            assert(c.rest[i] == rest[k + i]);
        }
    }
    c
}

/// Runs begin to be merged with all their rows to come, in order where the runs are sorted
/// and no key is a NaN.
pub proof fn a_round_begins_with_the_rows_of_its_runs(
    s: Sorting,
    runs: Seq<Run>,
    rows: Seq<Seq<Seq<Val>>>,
    is_keyed: bool,
    d: Disk,
    disk: Map<int, Seq<u8>>,
) -> (c: Contents)
    requires
        2 <= s.block_size,
        cache::uniform(disk, s.block_size as nat),
        holds_each(runs, rows, s.columns, s.block_size as nat, disk),
        below(runs, d.next as int),
        storable(sort_laws::pooled(rows), s.columns, s.block_size as nat),
        is_keyed ==> keyed(sort_laws::pooled(rows), s.keys) && sort_laws::runs_sorted(
            rows,
            s.keys,
        ),
        runs.len() > sort_merge::MAX_MERGE_WIDTH ==> {
            &&& sort_laws::pooled(rows).len() < usize::MAX
            &&& d.next + sort_laws::pooled(rows).len() * runs.len() < u64::MAX
        },
    ensures
        c.keyed == is_keyed,
        ({
            let (stage, after) = sort_output::round_begun(s, runs, d);
            let t = Sorting { stage, ..s };
            &&& goes_right(t, after.next as int, disk, c)
            &&& rows_to_come(t, disk, c) == sort_laws::pooled(rows)
        }),
{
    let bs = s.block_size as nat;
    let (stage, after) = sort_output::round_begun(s, runs, d);
    let t = Sorting { stage, ..s };
    let all = sort_laws::pooled(rows);
    let none = Seq::<Seq<Seq<Val>>>::empty();
    assert(Multiset::empty().add(all) =~= all);
    if runs.len() > sort_merge::MAX_MERGE_WIDTH {
        assert(runs.skip(0) =~= runs);
        let (n, k) = (all.len() as int, runs.len() - sort_merge::MAX_MERGE_WIDTH);
        seqs::lemma_empty_multiset::<Seq<Val>>();
        assert(sort_laws::pooled(none).len() == 0);
        assert(n + n * (1 + k) <= n * runs.len()) by (nonlinear_arith)
            requires
                n >= 0,
                k + 2 <= runs.len(),
        ;
        let c = lemma_group_begins(s, runs, 0, rows, Seq::empty(), none, is_keyed, d, disk);
        assert(round_goes_right(t, t.stage->Cascade_0, after.next as int, disk, c));
        c
    } else {
        merge_laws::a_merge_begins_with_the_rows_of_its_runs(
            runs,
            rows,
            s.columns,
            s.keys,
            s.pool,
            bs,
            disk,
        );
        sort_laws::merging_keeps_the_rows(rows, s.keys);
        if is_keyed {
            lemma_pool_keyed(rows, all, s.keys);
            sort_laws::merging_sorts(rows, s.keys);
        }
        Contents { group: none, rest: none, done: none, grown: Seq::empty(), keyed: is_keyed }
    }
}

// ---- steps ----

/// Runs hold their rows on a disk with the same blocks.
pub proof fn lemma_same_runs(
    runs: Seq<Run>,
    rows: Seq<Seq<Seq<Val>>>,
    columns: Seq<Column>,
    block_size: nat,
    disk: Map<int, Seq<u8>>,
    other: Map<int, Seq<u8>>,
    end: int,
)
    requires
        holds_each(runs, rows, columns, block_size, disk),
        below(runs, end),
        cache::same_before(disk, other, end),
    ensures
        holds_each(runs, rows, columns, block_size, other),
{
    assert forall|i: int| 0 <= i < runs.len() implies merge_laws::run_holds(
        #[trigger] runs[i],
        rows[i],
        columns,
        block_size,
        other,
    ) && runs[i].num_blocks == block::packed_blocks(rows[i], block_size) by {
        lemma_same_run(runs[i], rows[i], columns, block_size, disk, other, end);
    }
}

/// A row goes from the runs of a group to their merged run.
proof fn lemma_round_row(
    s: Sorting,
    r: Round,
    d: Disk,
    disk: Map<int, Seq<u8>>,
    c: Contents,
    x: Seq<Val>,
) -> (e: Contents)
    requires
        s.stage == Stage::Cascade(r),
        round_goes_right(s, r, d.next as int, disk, c),
        run_laws::has_room(r.growing),
        merge::merge_step(r.merge).1 == Ok::<Act, Fault>(Act::Row(x)),
    ensures
        ({
            let t = Round {
                merge: merge::merge_step(r.merge).0,
                growing: sort_merge::grown(r.growing, x, d).0,
                ..r
            };
            let now = run_laws::disk_grown(r.growing, x, d, disk);
            &&& e.keyed == c.keyed
            &&& round_goes_right(s, t, d.next as int, now, e)
            &&& merge_laws::steps_to_come(t.merge, now) < merge_laws::steps_to_come(r.merge, disk)
            &&& round_rows(t, e, now) == round_rows(r, c, disk)
        }),
{
    let bs = s.block_size as nat;
    let start = r.growing.start as int;
    let now = run_laws::disk_grown(r.growing, x, d, disk);
    let after = merge::merge_step(r.merge).0;
    let t = Round { merge: after, growing: sort_merge::grown(r.growing, x, d).0, ..r };
    let e = Contents { grown: c.grown.push(x), ..c };
    let all = round_rows(r, c, disk);
    merge_laws::a_merge_gives_the_merged_rows(r.merge, disk);
    lemma_merge_stays_below(r.merge, disk, bs, start);
    let before = merge_laws::to_come(r.merge, disk);
    let rest = merge_laws::to_come(after, disk);
    assert(before[0] == x);
    vstd::seq_lib::to_multiset_contains(before, x);
    assert(e.grown.to_multiset().subset_of(all)) by {
        assert(e.grown + rest =~= c.grown + before);
        vstd::seq_lib::lemma_multiset_commutative(e.grown, rest);
        vstd::seq_lib::lemma_multiset_commutative(c.grown, before);
        let (x, y) = (e.grown.to_multiset(), rest.to_multiset());
        let (u, v) = (c.grown.to_multiset(), before.to_multiset());
        assert(x.add(y) == u.add(v));
        assert forall|w: Seq<Val>| #[trigger] x.count(w) <= all.count(w) by {
            assert(x.add(y).count(w) == u.add(v).count(w));
        }
    }
    lemma_some_storable(all, e.grown, s.columns, bs);
    run_laws::a_row_joins_a_merged_run(r.growing, c.grown, x, s.columns, d, disk);
    cache::lemma_written_same_before(
        disk,
        r.growing.start + r.growing.written,
        (t.growing.written - r.growing.written) as nat,
        block::packing_with(r.growing.packing, row::encode_vals(x), bs).full,
        bs,
        start,
    );
    lemma_same_merge(after, bs, disk, now, start);
    lemma_same_runs(r.runs.skip(r.upto), c.rest, s.columns, bs, disk, now, start);
    lemma_same_runs(r.done, c.done, s.columns, bs, disk, now, start);
    assert(e.grown + rest =~= c.grown + before);
    vstd::seq_lib::lemma_multiset_commutative(e.grown, rest);
    vstd::seq_lib::lemma_multiset_commutative(c.grown, before);
    let (p, q) = (sort_laws::pooled(c.done), sort_laws::pooled(c.rest));
    assert(p.add(e.grown.to_multiset()).add(rest.to_multiset()).add(q) =~= p.add(
        e.grown.to_multiset().add(rest.to_multiset()),
    ).add(q));
    assert(p.add(c.grown.to_multiset()).add(before.to_multiset()).add(q) =~= p.add(
        c.grown.to_multiset().add(before.to_multiset()),
    ).add(q));
    e
}

/// A group has been merged.
proof fn lemma_round_done(
    s: Sorting,
    r: Round,
    d: Disk,
    disk: Map<int, Seq<u8>>,
    c: Contents,
) -> (e: Contents)
    requires
        s.stage == Stage::Cascade(r),
        round_goes_right(s, r, d.next as int, disk, c),
        merge::merge_step(r.merge).1 == Ok::<Act, Fault>(Act::Done),
    ensures
        ({
            let t = Sorting { stage: sort_output::group_ended(s, r, d).0, ..s };
            let now = run_laws::disk_ended(r.growing, d, disk);
            &&& e.keyed == c.keyed
            &&& goes_right(t, sort_output::group_ended(s, r, d).1.next as int, now, e)
            &&& is_nearer(course_left(t, now), course_left(s, disk))
            &&& rows_to_come(t, now, e) == round_rows(r, c, disk)
        }),
{
    let bs = s.block_size as nat;
    let start = r.growing.start as int;
    let now = run_laws::disk_ended(r.growing, d, disk);
    let (g, written, _) = sort_merge::run_ended(r.growing, d);
    lemma_has_room(s, r, d, disk, c);
    let after = sort_output::rest_taken(written, r.taken, g.total);
    let next = after.next as int;
    merge_laws::a_merge_gives_the_merged_rows(r.merge, disk);
    let none = merge_laws::to_come(r.merge, disk);
    assert(none =~= Seq::empty());
    seqs::lemma_empty_multiset::<Seq<Val>>();
    run_laws::a_merged_run_holds_its_rows(r.growing, c.grown, s.columns, d, disk);
    assert(c.grown.to_multiset().add(Multiset::empty()) =~= c.grown.to_multiset());
    assert(sort_laws::pooled(c.group).subset_of(round_rows(r, c, disk)));
    lemma_blocks_within_rows(c.group, round_rows(r, c, disk), s.columns, bs);
    vstd::seq_lib::to_multiset_len(c.grown);
    assert(r.taken <= c.grown.len());
    let (rows_now, times) = (
        round_rows(r, c, disk).len() as int,
        r.done.len() + 1 + r.runs.len() - r.upto,
    );
    assert(0 <= rows_now * times) by (nonlinear_arith)
        requires
            rows_now >= 0,
            times >= 0,
    ;
    assert(next == start + if g.total > r.taken {
        g.total
    } else {
        r.taken
    });
    cache::lemma_written_same_before(
        disk,
        r.growing.start + r.growing.written,
        (g.written - r.growing.written) as nat,
        if r.growing.packing.count > 0 {
            block::packing_sealed(r.growing.packing, bs).full
        } else {
            r.growing.packing.full
        },
        bs,
        start,
    );
    let behind = r.runs.skip(r.upto);
    lemma_same_runs(behind, c.rest, s.columns, bs, disk, now, start);
    lemma_same_runs(r.done, c.done, s.columns, bs, disk, now, start);
    let run = Run { start_block: g.start, num_blocks: g.total };
    let (done, rows) = if g.total > 0 {
        (r.done.push(run), c.done.push(c.grown))
    } else {
        (r.done, c.done)
    };
    assert(c.grown + none =~= c.grown);
    let (p, q) = (sort_laws::pooled(c.done), sort_laws::pooled(c.rest));
    let all = round_rows(r, c, disk);
    assert(sort_laws::pooled(rows) == p.add(c.grown.to_multiset())) by {
        if g.total > 0 {
            assert(rows.drop_last() =~= c.done);
        } else {
            assert(c.grown =~= Seq::empty());
            assert(p.add(Multiset::empty()) =~= p);
        }
    }
    assert(all =~= sort_laws::pooled(rows).add(q));
    assert(holds_each(done, rows, s.columns, bs, now)) by {
        assert forall|i: int| 0 <= i < done.len() implies merge_laws::run_holds(
            #[trigger] done[i],
            rows[i],
            s.columns,
            bs,
            now,
        ) && done[i].num_blocks == block::packed_blocks(rows[i], bs) by {
            if i < r.done.len() {
                assert(done[i] == r.done[i]);
            }
        }
    }
    assert(below(done, next)) by {
        assert forall|i: int| 0 <= i < done.len() implies (#[trigger] done[i]).start_block
            + done[i].num_blocks <= next by {
            if i < r.done.len() {
                assert(done[i] == r.done[i]);
            }
        }
    }
    assert(below(behind, next));
    if c.keyed {
        assert forall|i: int| 0 <= i < rows.len() implies sort_laws::sorted(
            #[trigger] rows[i],
            s.keys,
        ) by {
            if i < c.done.len() {
                assert(rows[i] == c.done[i]);
            }
        }
    }
    let t = Sorting { stage: sort_output::group_ended(s, r, d).0, ..s };
    let n = all.len() as int;
    let count = r.done.len() + 1 + r.runs.len() - r.upto;
    let before = sort_laws::pooled(c.done).len();
    let now_done = sort_laws::pooled(rows).len();
    vstd::multiset::axiom_len_add(p, c.grown.to_multiset());
    vstd::seq_lib::to_multiset_len(c.grown);
    assert(now_done == before + c.grown.len());
    if r.upto < r.runs.len() {
        let k = done.len() + 1 + r.runs.len() - sort_output::group_end(
            r.upto,
            r.runs.len() as int,
        );
        assert(n * k <= n * count) by (nonlinear_arith)
            requires
                n >= 0,
                k <= count,
        ;
        let e = lemma_group_begins(s, r.runs, r.upto, c.rest, done, rows, c.keyed, after, now);
        let last = sort_output::group_ended(s, r, d).1.next as int;
        assert(round_goes_right(t, t.stage->Cascade_0, last, now, e));
        e
    } else {
        assert(c.rest =~= Seq::empty());
        assert(sort_laws::pooled(rows).add(Multiset::empty()) =~= sort_laws::pooled(rows));
        assert(n * done.len() <= n * count) by (nonlinear_arith)
            requires
                n >= 0,
                done.len() <= count,
        ;
        a_round_begins_with_the_rows_of_its_runs(s, done, rows, c.keyed, after, now)
    }
}

/// Rows without texts stay, merged, within the blocks that were taken for them.
pub proof fn merged_rows_without_texts_stay_in_their_blocks(
    s: Sorting,
    r: Round,
    d: Disk,
    disk: Map<int, Seq<u8>>,
    c: Contents,
)
    requires
        s.stage == Stage::Cascade(r),
        round_goes_right(s, r, d.next as int, disk, c),
        merge::merge_step(r.merge).1 == Ok::<Act, Fault>(Act::Done),
        row::is_textless(s.columns),
    ensures
        ({
            let (g, written, _) = sort_merge::run_ended(r.growing, d);
            &&& g.total <= r.taken
            &&& sort_output::rest_taken(written, r.taken, g.total) == written
        }),
{
    let bs = s.block_size as nat;
    let all = round_rows(r, c, disk);
    let width = row::columns_width(s.columns);
    lemma_has_room(s, r, d, disk, c);
    merge_laws::a_merge_gives_the_merged_rows(r.merge, disk);
    let none = merge_laws::to_come(r.merge, disk);
    assert(none =~= Seq::empty());
    seqs::lemma_empty_multiset::<Seq<Val>>();
    run_laws::a_merged_run_holds_its_rows(r.growing, c.grown, s.columns, d, disk);
    assert(c.grown.to_multiset().add(Multiset::empty()) =~= c.grown.to_multiset());
    assert(sort_laws::pooled(c.group).subset_of(all));
    lemma_blocks_within_rows(c.group, all, s.columns, bs);
    vstd::seq_lib::to_multiset_len(c.grown);
    lemma_some_storable(all, c.grown, s.columns, bs);
    if c.grown.len() > 0 {
        assert forall|i: int| 0 <= i < c.grown.len() implies row::encode_vals(
            #[trigger] c.grown[i],
        ).len() == width && 1 <= width <= bs - 2 by {
            assert(block::packable(c.grown[i], s.columns, bs));
            row::rows_without_texts_are_of_one_width(c.grown[i], s.columns);
        }
        assert(row::encode_vals(c.grown[0]).len() == width);
        assert forall|i: int| 0 <= i < c.group.len() implies block::all_as_wide(
            #[trigger] c.group[i],
            width,
        ) by {
            assert(block::all_packable(c.group[i], s.columns, bs));
            assert forall|j: int| 0 <= j < c.group[i].len() implies row::encode_vals(
                #[trigger] c.group[i][j],
            ).len() == width by {
                assert(block::packable(c.group[i][j], s.columns, bs));
                row::rows_without_texts_are_of_one_width(c.group[i][j], s.columns);
            }
        }
        block::rows_of_one_width_need_no_more_blocks_together(c.grown, c.group, width, bs);
    }
}

/// What is left of the course of the output of a sort: the runs of the next round at most, the
/// runs that this round has still to begin with, and the steps of the merge.
pub open spec fn course_left(s: Sorting, disk: Map<int, Seq<u8>>) -> (int, int, int) {
    match s.stage {
        Stage::Cascade(r) => (
            r.done.len() + 1 + r.runs.len() - r.upto,
            r.runs.len() - r.upto,
            merge_laws::steps_to_come(r.merge, disk) as int,
        ),
        Stage::Last(m) => (0, 0, merge_laws::steps_to_come(m, disk) as int),
        Stage::Memory(rows) => (0, 0, rows.len() as int),
        Stage::Over => (0, 0, 0),
    }
}

/// Whether less of the course is left.
pub open spec fn is_nearer(a: (int, int, int), b: (int, int, int)) -> bool {
    &&& 0 <= a.0
    &&& 0 <= a.1
    &&& 0 <= a.2
    &&& a.0 < b.0 || (a.0 == b.0 && (a.1 < b.1 || (a.1 == b.1 && a.2 < b.2)))
}

/// A step of the output of a sort goes right: it gives the next row, or leaves the rows to
/// come as they are; at its end no row is to come. Blocks that are read are taken in the same
/// way. Each step is nearer to the end.
pub open spec fn step_goes_right(
    s: Sorting,
    d: Disk,
    disk: Map<int, Seq<u8>>,
    c: Contents,
    e: Contents,
) -> bool {
    let (t, after, _, act) = sort_output::sort_step(s, d);
    let next = after.next as int;
    let now = disk_after(s, d, disk);
    match act {
        Ok(Act::Row(x)) => {
            &&& goes_right(t, next, now, e)
            &&& sequence_to_come(s, disk) == seq![x] + sequence_to_come(t, now)
            &&& s.stage !is Cascade
            &&& t.stage !is Cascade
            &&& is_nearer(course_left(t, now), course_left(s, disk))
        },
        Ok(Act::Again) => {
            &&& goes_right(t, next, now, e)
            &&& rows_to_come(t, now, e) == rows_to_come(s, disk, c)
            &&& is_nearer(course_left(t, now), course_left(s, disk))
        },
        Ok(Act::Fetch(b, n)) => {
            let got = sort_output::sort_supplied(
                t,
                cache::disk_blocks(now, b as int, n as nat),
                n as int,
            );
            &&& got.1 is None
            &&& goes_right(got.0, next, now, e)
            &&& rows_to_come(got.0, now, e) == rows_to_come(s, disk, c)
            &&& is_nearer(course_left(got.0, now), course_left(s, disk))
        },
        Ok(Act::Done) => rows_to_come(s, disk, c) == Multiset::<Seq<Val>>::empty(),
        Err(_) => false,
    }
}

/// A step in a round of merging.
proof fn lemma_round_step(
    s: Sorting,
    r: Round,
    d: Disk,
    disk: Map<int, Seq<u8>>,
    c: Contents,
) -> (e: Contents)
    requires
        s.stage == Stage::Cascade(r),
        round_goes_right(s, r, d.next as int, disk, c),
    ensures
        e.keyed == c.keyed,
        step_goes_right(s, d, disk, c, e),
{
    let (after, act) = merge::merge_step(r.merge);
    let bs = s.block_size as nat;
    merge_laws::a_merge_gives_the_merged_rows(r.merge, disk);
    lemma_merge_stays_below(r.merge, disk, bs, r.growing.start as int);
    let t = sort_output::sort_step(s, d).0;
    match act {
        Ok(Act::Row(x)) => {
            lemma_has_room(s, r, d, disk, c);
            let e = lemma_round_row(s, r, d, disk, c, x);
            let now = disk_after(s, d, disk);
            lemma_round_same(s, t, t.stage->Cascade_0, d.next as int, now, e);
            e
        },
        Ok(Act::Done) => lemma_round_done(s, r, d, disk, c),
        Ok(Act::Fetch(b, n)) => {
            let data = cache::disk_blocks(disk, b as int, n as nat);
            let m = merge::merge_supplied(after, data, n as int).0;
            let q = Round { merge: m, ..r };
            assert(round_rows(q, c, disk) == round_rows(r, c, disk));
            assert(round_goes_right(s, q, d.next as int, disk, c));
            let u = sort_output::sort_supplied(t, data, n as int).0;
            assert(u.stage == Stage::Cascade(q));
            lemma_round_same(s, u, q, d.next as int, disk, c);
            c
        },
        _ => {
            let q = Round { merge: after, ..r };
            assert(round_rows(q, c, disk) == round_rows(r, c, disk));
            assert(round_goes_right(s, q, d.next as int, disk, c));
            lemma_round_same(s, t, q, d.next as int, disk, c);
            c
        },
    }
}

/// Only the stage of a sort changes.
proof fn lemma_round_same(
    s: Sorting,
    t: Sorting,
    r: Round,
    next: int,
    disk: Map<int, Seq<u8>>,
    c: Contents,
)
    requires
        t == (Sorting { stage: t.stage, ..s }),
    ensures
        round_goes_right(t, r, next, disk, c) == round_goes_right(s, r, next, disk, c),
{
}

/// A step of the output of a sort gives the next row, or leaves the rows to come as they are,
/// and is nearer to the end; at its end no row is to come. Where no key is a NaN, the rows that
/// it gives come in the order of the keys.
pub proof fn a_sort_gives_its_rows_in_order(
    s: Sorting,
    d: Disk,
    disk: Map<int, Seq<u8>>,
    c: Contents,
) -> (e: Contents)
    requires
        goes_right(s, d.next as int, disk, c),
    ensures
        e.keyed == c.keyed,
        step_goes_right(s, d, disk, c, e),
{
    seqs::lemma_empty_multiset::<Seq<Val>>();
    match s.stage {
        Stage::Cascade(r) => lemma_round_step(s, r, d, disk, c),
        Stage::Last(m) => {
            merge_laws::a_merge_gives_the_merged_rows(m, disk);
            let rows = sequence_to_come(s, disk);
            match merge::merge_step(m).1 {
                Ok(Act::Row(x)) => {
                    let rest = sequence_to_come(sort_output::sort_step(s, d).0, disk);
                    lemma_rest_sorted(rows, x, rest, s.keys);
                },
                Ok(Act::Done) => {
                    assert(rows =~= Seq::empty());
                },
                _ => {},
            }
            c
        },
        Stage::Memory(rows) => {
            if rows.len() > 0 {
                assert(rows =~= seq![rows[0]] + rows.drop_first());
                lemma_rest_sorted(rows, rows[0], rows.drop_first(), s.keys);
            } else {
                assert(rows =~= Seq::empty());
            }
            c
        },
        Stage::Over => c,
    }
}

/// Sorted rows but for the first are sorted.
proof fn lemma_rest_sorted(
    rows: Seq<Seq<Val>>,
    x: Seq<Val>,
    rest: Seq<Seq<Val>>,
    keys: Seq<(int, bool)>,
)
    requires
        rows == seq![x] + rest,
    ensures
        keyed(rows.to_multiset(), keys) ==> keyed(rest.to_multiset(), keys),
        sort_laws::sorted(rows, keys) ==> sort_laws::sorted(rest, keys),
{
    vstd::seq_lib::lemma_multiset_commutative(seq![x], rest);
    if keyed(rows.to_multiset(), keys) {
        assert forall|y: Seq<Val>| #[trigger] rest.to_multiset().contains(y) implies sort::has_keys(
            y,
            keys,
        ) by {
            assert(rows.to_multiset().contains(y));
        }
    }
    if sort_laws::sorted(rows, keys) {
        assert forall|i: int, j: int| 0 <= i < j < rest.len() implies sort::rows_order(
            #[trigger] rest[i],
            #[trigger] rest[j],
            keys,
        ) != Order::Greater by {
            assert(rows[i + 1] == rest[i] && rows[j + 1] == rest[j]);
        }
    }
}

// ---- the whole output ----

/// What follows a step of the output of a sort, with the blocks that are read for it: a row or
/// none, and the state of the sort, of the disk and of its blocks then.
pub enum Next {
    Row(Seq<Val>, Sorting, Disk, Map<int, Seq<u8>>),
    On(Sorting, Disk, Map<int, Seq<u8>>),
    End,
    Failed,
}

/// What follows a step of the output of a sort.
pub open spec fn next_of(s: Sorting, d: Disk, disk: Map<int, Seq<u8>>) -> Next {
    let (t, after, _, act) = sort_output::sort_step(s, d);
    let now = disk_after(s, d, disk);
    match act {
        Ok(Act::Row(x)) => Next::Row(x, t, after, now),
        Ok(Act::Again) => Next::On(t, after, now),
        Ok(Act::Fetch(b, k)) => {
            let got = sort_output::sort_supplied(
                t,
                cache::disk_blocks(now, b as int, k as nat),
                k as int,
            );
            if got.1 is None {
                Next::On(got.0, after, now)
            } else {
                Next::Failed
            }
        },
        Ok(Act::Done) => Next::End,
        Err(_) => Next::Failed,
    }
}

/// The rows that the output of a sort gives, step by step, if it ends within `n` steps.
pub open spec fn rows_given(s: Sorting, d: Disk, disk: Map<int, Seq<u8>>, n: nat) -> Option<
    Seq<Seq<Val>>,
>
    decreases n,
{
    if n == 0 {
        None
    } else {
        match next_of(s, d, disk) {
            Next::Row(x, t, after, now) => match rows_given(t, after, now, (n - 1) as nat) {
                Some(rest) => Some(seq![x] + rest),
                None => None,
            },
            Next::On(t, after, now) => rows_given(t, after, now, (n - 1) as nat),
            Next::End => Some(Seq::empty()),
            Next::Failed => None,
        }
    }
}

/// The rows that a sort gives do not hang on when one looks.
pub proof fn lemma_rows_given_once(
    s: Sorting,
    d: Disk,
    disk: Map<int, Seq<u8>>,
    n: nat,
    m: nat,
)
    requires
        rows_given(s, d, disk, n) is Some,
        rows_given(s, d, disk, m) is Some,
    ensures
        rows_given(s, d, disk, n) == rows_given(s, d, disk, m),
    decreases n,
{
    match next_of(s, d, disk) {
        Next::Row(_, t, after, now) => {
            lemma_rows_given_once(t, after, now, (n - 1) as nat, (m - 1) as nat);
        },
        Next::On(t, after, now) => {
            lemma_rows_given_once(t, after, now, (n - 1) as nat, (m - 1) as nat);
        },
        _ => {},
    }
}

/// What lies ahead of a sort: what is left of its course, the rows, these in their order but
/// in a round of merging, and the keys.
struct Ahead {
    left: (int, int, int),
    rows: Multiset<Seq<Val>>,
    sequence: Option<Seq<Seq<Val>>>,
    keys: Seq<(int, bool)>,
}

#[verifier::opaque]
spec fn ahead(s: Sorting, disk: Map<int, Seq<u8>>, c: Contents) -> Ahead {
    Ahead {
        left: course_left(s, disk),
        rows: rows_to_come(s, disk, c),
        sequence: if s.stage is Cascade {
            None
        } else {
            Some(sequence_to_come(s, disk))
        },
        keys: s.keys,
    }
}

#[verifier::opaque]
spec fn on_course(s: Sorting, d: Disk, disk: Map<int, Seq<u8>>, c: Contents) -> bool {
    goes_right(s, d.next as int, disk, c)
}

proof fn lemma_next(s: Sorting, d: Disk, disk: Map<int, Seq<u8>>, c: Contents) -> (e: Contents)
    requires
        on_course(s, d, disk, c),
    ensures
        e.keyed == c.keyed,
        ({
            let a = ahead(s, disk, c);
            &&& a.sequence matches Some(rows) ==> a.rows == rows.to_multiset() && (c.keyed
                ==> sort_laws::sorted(rows, a.keys))
            &&& match next_of(s, d, disk) {
                Next::Row(x, t, after, now) => {
                    let b = ahead(t, now, e);
                    &&& on_course(t, after, now, e)
                    &&& is_nearer(b.left, a.left)
                    &&& b.keys == a.keys
                    &&& b.sequence is Some
                    &&& a.sequence == Some(seq![x] + b.sequence->Some_0)
                },
                Next::On(t, after, now) => {
                    let b = ahead(t, now, e);
                    &&& on_course(t, after, now, e)
                    &&& is_nearer(b.left, a.left)
                    &&& b.keys == a.keys
                    &&& b.rows == a.rows
                    &&& a.sequence is Some ==> b.sequence == a.sequence
                },
                Next::End => a.rows == Multiset::<Seq<Val>>::empty(),
                Next::Failed => false,
            }
        }),
{
    reveal(ahead);
    reveal(on_course);
    let e = a_sort_gives_its_rows_in_order(s, d, disk, c);
    match s.stage {
        Stage::Last(m) => {
            merge_laws::a_merge_gives_the_merged_rows(m, disk);
        },
        _ => {},
    }
    e
}

/// The output of a sort ends, and gives all rows that were to come, once each; where no key is
/// a NaN, it gives them in the order of the keys. That holds of rows in memory, of runs that
/// are merged at once, and of runs that are merged in rounds.
pub proof fn a_sort_gives_all_its_rows(
    s: Sorting,
    d: Disk,
    disk: Map<int, Seq<u8>>,
    c: Contents,
) -> (n: nat)
    requires
        goes_right(s, d.next as int, disk, c),
    ensures
        rows_given(s, d, disk, n) matches Some(rows) && {
            &&& rows.to_multiset() == rows_to_come(s, disk, c)
            &&& c.keyed ==> sort_laws::sorted(rows, s.keys)
        },
{
    reveal(ahead);
    reveal(on_course);
    lemma_rows_ahead(s, d, disk, c)
}

proof fn lemma_rows_ahead(s: Sorting, d: Disk, disk: Map<int, Seq<u8>>, c: Contents) -> (n: nat)
    requires
        on_course(s, d, disk, c),
    ensures
        rows_given(s, d, disk, n) matches Some(rows) && {
            let a = ahead(s, disk, c);
            &&& rows.to_multiset() == a.rows
            &&& a.sequence is Some ==> a.sequence == Some(rows)
            &&& c.keyed ==> sort_laws::sorted(rows, a.keys)
        },
    decreases ahead(s, disk, c).left.0, ahead(s, disk, c).left.1, ahead(s, disk, c).left.2,
{
    let e = lemma_next(s, d, disk, c);
    match next_of(s, d, disk) {
        Next::Row(_, t, after, now) => lemma_rows_ahead(t, after, now, e) + 1,
        Next::On(t, after, now) => lemma_rows_ahead(t, after, now, e) + 1,
        _ => {
            seqs::lemma_empty_multiset::<Seq<Val>>();
            match ahead(s, disk, c).sequence {
                Some(rows) => {
                    vstd::seq_lib::to_multiset_len(rows);
                    assert(rows =~= Seq::empty());
                },
                None => {},
            }
            1
        },
    }
}

} // verus!
