//! Laws of the last phase of a hash join: step by step, the pairs of the buckets that went to
//! blocks come out.

use vstd::multiset::Multiset;
use vstd::prelude::*;

use crate::block;
use crate::cache;
use crate::error::Fault;
use crate::ops::hash;
use crate::ops::hash_join::{BucketRun, NUM_BUCKETS};
use crate::ops::hash_join;
use crate::ops::join_laws;
use crate::ops::join_output::{Matching, Probing};
use crate::ops::join_output;
use crate::ops::joiner::{Cursor, LOAD_BLOCKS, PROBE_BLOCKS};
use crate::ops::joiner;
use crate::ops::scan_laws;
use crate::ops::Act;
use crate::schema::Column;
use crate::seqs;
use crate::value::Val;

verus! {

// ---- reading runs ----

/// The rows of a run from a block on.
pub open spec fn run_rest(
    run: BucketRun,
    from: int,
    disk: Map<int, Seq<u8>>,
    block_size: nat,
    columns: Seq<Column>,
) -> Result<Seq<Seq<Val>>, Fault> {
    scan_laws::table_rows(
        disk,
        run.start_block + from,
        (run.num_blocks - from) as nat,
        block_size,
        columns,
        None,
    )
}

/// The rows from a place on.
pub open spec fn rows_from(
    c: Cursor,
    disk: Map<int, Seq<u8>>,
    block_size: nat,
    columns: Seq<Column>,
) -> Seq<Seq<Val>>
    decreases c.runs.len() - c.run,
{
    if 0 <= c.run < c.runs.len() {
        run_rest(c.runs[c.run], c.block, disk, block_size, columns)->Ok_0 + rows_from(
            Cursor { run: c.run + 1, block: 0, ..c },
            disk,
            block_size,
            columns,
        )
    } else {
        Seq::empty()
    }
}

/// The number of blocks from a place on.
pub open spec fn blocks_from(c: Cursor) -> int
    decreases c.runs.len() - c.run,
{
    if 0 <= c.run < c.runs.len() {
        c.runs[c.run].num_blocks - c.block + blocks_from(Cursor { run: c.run + 1, block: 0, ..c })
    } else {
        0
    }
}

/// The rows of runs, one run behind the other.
pub open spec fn rows_of_runs(
    runs: Seq<BucketRun>,
    disk: Map<int, Seq<u8>>,
    block_size: nat,
    columns: Seq<Column>,
) -> Seq<Seq<Val>> {
    rows_from(join_output::first_block(runs, 1), disk, block_size, columns)
}

/// Whether each block of a run holds a row.
pub open spec fn filled(run: BucketRun, disk: Map<int, Seq<u8>>, block_size: nat) -> bool {
    forall|b: int|
        run.start_block <= b < run.start_block + run.num_blocks ==> block::block_count(
            #[trigger] disk[b],
            block_size,
        ) > 0
}

/// Whether runs can be read from the disk, and no block of theirs is empty.
pub open spec fn readable(
    runs: Seq<BucketRun>,
    disk: Map<int, Seq<u8>>,
    block_size: nat,
    columns: Seq<Column>,
) -> bool {
    forall|i: int|
        0 <= i < runs.len() ==> {
            let r = #[trigger] runs[i];
            &&& r.start_block + r.num_blocks <= u64::MAX
            &&& run_rest(r, 0, disk, block_size, columns) is Ok
            &&& filled(r, disk, block_size)
        }
}

/// Whether a place is one in runs that can be read.
pub open spec fn in_place(
    c: Cursor,
    disk: Map<int, Seq<u8>>,
    block_size: nat,
    columns: Seq<Column>,
) -> bool {
    &&& c.most >= 1
    &&& 0 <= c.run
    &&& 0 <= c.block
    &&& c.run < c.runs.len() ==> c.block <= c.runs[c.run].num_blocks
    &&& readable(c.runs, disk, block_size, columns)
}

proof fn lemma_run_split(
    r: BucketRun,
    from: int,
    n: int,
    disk: Map<int, Seq<u8>>,
    block_size: nat,
    columns: Seq<Column>,
)
    requires
        0 <= from,
        0 <= n,
        from + n <= r.num_blocks,
        run_rest(r, 0, disk, block_size, columns) is Ok,
    ensures
        run_rest(r, from, disk, block_size, columns) is Ok,
        ({
            let here = scan_laws::table_rows(
                disk,
                r.start_block + from,
                n as nat,
                block_size,
                columns,
                None,
            );
            &&& here is Ok
            &&& run_rest(r, from, disk, block_size, columns)->Ok_0 == here->Ok_0 + run_rest(
                r,
                from + n,
                disk,
                block_size,
                columns,
            )->Ok_0
        }),
{
    let (a, b) = (from as nat, (r.num_blocks - from) as nat);
    assert(a + b == (r.num_blocks - 0) as nat);
    scan_laws::lemma_table_split(disk, r.start_block + 0, a, b, block_size, columns, None);
    let (k, l) = (n as nat, (r.num_blocks - (from + n)) as nat);
    assert(k + l == b);
    scan_laws::lemma_table_split(
        disk,
        r.start_block + from,
        k,
        l,
        block_size,
        columns,
        None,
    );
    assert((r.start_block + from) + k == r.start_block + (from + n));
}

/// Leaving behind runs that have been read leaves the rows to read.
proof fn lemma_moved_on(
    c: Cursor,
    disk: Map<int, Seq<u8>>,
    block_size: nat,
    columns: Seq<Column>,
)
    requires
        in_place(c, disk, block_size, columns),
    ensures
        ({
            let d = joiner::moved_on(c);
            &&& in_place(d, disk, block_size, columns)
            &&& d.runs == c.runs
            &&& d.most == c.most
            &&& rows_from(d, disk, block_size, columns) == rows_from(c, disk, block_size, columns)
            &&& blocks_from(d) == blocks_from(c)
            &&& d.run < d.runs.len() ==> d.block < d.runs[d.run].num_blocks
        }),
    decreases c.runs.len() - c.run,
{
    if c.run < c.runs.len() && c.block >= c.runs[c.run].num_blocks {
        let d = Cursor { run: c.run + 1, block: 0, ..c };
        lemma_moved_on(d, disk, block_size, columns);
        let r = c.runs[c.run];
        assert(run_rest(r, c.block, disk, block_size, columns)->Ok_0 =~= Seq::empty());
        assert(Seq::<Seq<Val>>::empty() + rows_from(d, disk, block_size, columns) =~= rows_from(
            d,
            disk,
            block_size,
            columns,
        ));
    }
}

/// The blocks at a place give the next rows.
proof fn lemma_blocks_read(
    c: Cursor,
    disk: Map<int, Seq<u8>>,
    block_size: nat,
    columns: Seq<Column>,
)
    requires
        in_place(c, disk, block_size, columns),
        block_size >= 2,
        cache::uniform(disk, block_size),
        c.run < c.runs.len(),
        c.block < c.runs[c.run].num_blocks,
    ensures
        joiner::blocks_at(c) matches Some((b, n)) && {
            let d = Cursor { block: c.block + n, ..c };
            let got = block::blocks_rows(
                cache::disk_blocks(disk, b as int, n as nat),
                block_size,
                columns,
                n as nat,
            );
            &&& n >= 1
            &&& in_place(d, disk, block_size, columns)
            &&& got is Ok
            &&& got->Ok_0.len() > 0
            &&& rows_from(c, disk, block_size, columns) == got->Ok_0 + rows_from(
                d,
                disk,
                block_size,
                columns,
            )
            &&& blocks_from(d) == blocks_from(c) - n
        },
{
    let r = c.runs[c.run];
    let (b, n) = joiner::blocks_at(c)->Some_0;
    let d = Cursor { block: c.block + n, ..c };
    lemma_run_split(r, c.block, n as int, disk, block_size, columns);
    scan_laws::lemma_table_is_blocks(
        disk,
        r.start_block + c.block,
        n as nat,
        n as nat,
        block_size,
        columns,
    );
    assert(b == r.start_block + c.block);
    let here = block::blocks_rows(
        cache::disk_blocks(disk, b as int, n as nat),
        block_size,
        columns,
        n as nat,
    )->Ok_0;
    let data = cache::disk_blocks(disk, b as int, n as nat);
    cache::lemma_disk_blocks_len(disk, b as int, n as nat, block_size);
    assert forall|i: int| 0 <= i < n implies block::block_count(
        #[trigger] block::nth_block(data, block_size, i),
        block_size,
    ) > 0 by {
        scan_laws::lemma_nth_of_disk(disk, b as int, n as nat, i, block_size);
        assert(filled(r, disk, block_size));
        assert(block::block_count(disk[b + i], block_size) > 0);
    }
    block::lemma_blocks_hold_rows(data, block_size, columns, n as nat);
    let next = Cursor { run: c.run + 1, block: 0, ..c };
    assert(Cursor { run: d.run + 1, block: 0, ..d } == next);
    let rest = run_rest(r, c.block + n, disk, block_size, columns)->Ok_0;
    let others = rows_from(next, disk, block_size, columns);
    assert((here + rest) + others =~= here + (rest + others));
}

/// How many blocks are read at once does not matter to the rows.
proof fn lemma_any_most(
    c: Cursor,
    most: int,
    disk: Map<int, Seq<u8>>,
    block_size: nat,
    columns: Seq<Column>,
)
    ensures
        rows_from(Cursor { most, ..c }, disk, block_size, columns) == rows_from(
            c,
            disk,
            block_size,
            columns,
        ),
        blocks_from(Cursor { most, ..c }) == blocks_from(c),
    decreases c.runs.len() - c.run,
{
    if 0 <= c.run < c.runs.len() {
        lemma_any_most(Cursor { run: c.run + 1, block: 0, ..c }, most, disk, block_size, columns);
    }
}

proof fn lemma_blocks_from(
    c: Cursor,
    disk: Map<int, Seq<u8>>,
    block_size: nat,
    columns: Seq<Column>,
)
    requires
        in_place(c, disk, block_size, columns),
    ensures
        blocks_from(c) >= 0,
    decreases c.runs.len() - c.run,
{
    if c.run < c.runs.len() {
        lemma_blocks_from(
            Cursor { run: c.run + 1, block: 0, ..c },
            disk,
            block_size,
            columns,
        );
    }
}

// ---- the pairs to come ----

/// The rows of the side that is matched, all of them.
pub open spec fn probe_rows(m: Matching, p: Probing, disk: Map<int, Seq<u8>>) -> Seq<Seq<Val>> {
    rows_of_runs(
        p.probe,
        disk,
        m.join.block_size,
        join_output::side_columns(m, !p.left_is_build),
    )
}

/// The pairs of rows of the side that is held with rows of the other side.
pub open spec fn pairs_with(
    m: Matching,
    p: Probing,
    held: Seq<Seq<Val>>,
    rows: Seq<Seq<Val>>,
) -> Multiset<Seq<Val>> {
    joiner::probed(
        held,
        join_output::side_key(m, p.left_is_build),
        rows,
        join_output::side_key(m, !p.left_is_build),
        p.left_is_build,
    ).to_multiset()
}

/// The pairs of a bucket that are still to come.
pub open spec fn pass_to_come(m: Matching, p: Probing, disk: Map<int, Seq<u8>>) -> Multiset<
    Seq<Val>,
> {
    let rest = rows_from(
        p.load.cursor,
        disk,
        m.join.block_size,
        join_output::side_columns(m, p.left_is_build),
    );
    let all = probe_rows(m, p, disk);
    if p.probing {
        pairs_with(
            m,
            p,
            p.load.rows,
            rows_from(
                p.cursor,
                disk,
                m.join.block_size,
                join_output::side_columns(m, !p.left_is_build),
            ),
        ).add(pairs_with(m, p, rest, all))
    } else {
        pairs_with(m, p, p.load.rows + rest, all)
    }
}

/// The pairs of a bucket that went to blocks.
pub open spec fn bucket_to_come(m: Matching, b: int, disk: Map<int, Seq<u8>>) -> Multiset<
    Seq<Val>,
> {
    match joiner::plan_of(m.join.buckets[b]) {
        Some((build, probe, left_is_build)) => pass_to_come(
            m,
            join_output::pass_begun(m, build, probe, left_is_build),
            disk,
        ),
        None => Multiset::empty(),
    }
}

/// The pairs of the buckets from a bucket on.
pub open spec fn buckets_to_come(m: Matching, from: int, disk: Map<int, Seq<u8>>) -> Multiset<
    Seq<Val>,
>
    decreases NUM_BUCKETS - from,
{
    if 0 <= from < NUM_BUCKETS {
        bucket_to_come(m, from, disk).add(buckets_to_come(m, from + 1, disk))
    } else {
        Multiset::empty()
    }
}

/// The pairs that are still to come.
pub open spec fn to_come(m: Matching, disk: Map<int, Seq<u8>>) -> Multiset<Seq<Val>> {
    match m.pass {
        Some(p) => pass_to_come(m, p, disk).add(buckets_to_come(m, m.bucket, disk)),
        None => buckets_to_come(m, m.bucket, disk),
    }
}

/// Whether the matching of a bucket goes right on a disk.
pub open spec fn pass_goes_right(m: Matching, p: Probing, disk: Map<int, Seq<u8>>) -> bool {
    let (cb, cp) = (
        join_output::side_columns(m, p.left_is_build),
        join_output::side_columns(m, !p.left_is_build),
    );
    &&& p.load.columns == cb
    &&& p.load.key == join_output::side_key(m, p.left_is_build)
    &&& p.load.block_size == m.join.block_size
    &&& p.load.budget == m.join.budget
    &&& in_place(p.load.cursor, disk, m.join.block_size, cb)
    &&& in_place(p.cursor, disk, m.join.block_size, cp)
    &&& p.cursor.runs == p.probe
    &&& p.load.full ==> p.load.rows.len() > 0
    &&& p.probing ==> p.load.rows.len() > 0
}

/// Whether the last phase goes right on a disk: the blocks of all buckets can be read.
pub open spec fn goes_right(m: Matching, disk: Map<int, Seq<u8>>) -> bool {
    &&& m.join.block_size >= 2
    &&& cache::uniform(disk, m.join.block_size)
    &&& 0 <= m.bucket
    &&& forall|b: int|
        0 <= b < NUM_BUCKETS ==> readable(
            (#[trigger] m.join.buckets[b]).left_runs,
            disk,
            m.join.block_size,
            m.left_columns,
        ) && readable(m.join.buckets[b].right_runs, disk, m.join.block_size, m.right_columns)
    &&& m.pass matches Some(p) ==> pass_goes_right(m, p, disk)
}

/// The steps that the matching of a bucket still takes, at most.
pub open spec fn pass_steps(p: Probing) -> int {
    let all = blocks_from(join_output::first_block(p.probe, 1));
    blocks_from(p.load.cursor) * (all + 5) + (if p.probing {
        blocks_from(p.cursor) + 2
    } else if p.load.rows.len() > 0 {
        all + 4
    } else {
        1
    })
}

/// The steps that the buckets from a bucket on take, at most.
pub open spec fn buckets_steps(m: Matching, from: int) -> int
    decreases NUM_BUCKETS - from,
{
    if 0 <= from < NUM_BUCKETS {
        1 + (match joiner::plan_of(m.join.buckets[from]) {
            Some((build, probe, left_is_build)) => pass_steps(
                join_output::pass_begun(m, build, probe, left_is_build),
            ),
            None => 0,
        }) + buckets_steps(m, from + 1)
    } else {
        0
    }
}

/// The steps that the last phase still takes, at most.
pub open spec fn steps_to_come(m: Matching) -> int {
    buckets_steps(m, m.bucket) + (match m.pass {
        Some(p) => pass_steps(p),
        None => 0,
    })
}

proof fn lemma_pass_steps(m: Matching, p: Probing, disk: Map<int, Seq<u8>>)
    requires
        pass_goes_right(m, p, disk),
    ensures
        pass_steps(p) > 0,
{
    let bs = m.join.block_size;
    let (cb, cp) = (
        join_output::side_columns(m, p.left_is_build),
        join_output::side_columns(m, !p.left_is_build),
    );
    let start = join_output::first_block(p.probe, 1);
    assert(in_place(start, disk, bs, cp));
    lemma_blocks_from(start, disk, bs, cp);
    lemma_blocks_from(p.load.cursor, disk, bs, cb);
    lemma_blocks_from(p.cursor, disk, bs, cp);
    let (left, k) = (blocks_from(p.load.cursor), blocks_from(start) + 5);
    assert(0 <= left * k) by (nonlinear_arith)
        requires
            left >= 0,
            k >= 0,
    ;
}

proof fn lemma_buckets_steps(m: Matching, from: int, disk: Map<int, Seq<u8>>)
    requires
        goes_right(m, disk),
        0 <= from,
    ensures
        buckets_steps(m, from) >= 0,
    decreases NUM_BUCKETS - from,
{
    if from < NUM_BUCKETS {
        lemma_buckets_steps(m, from + 1, disk);
        lemma_pass_begins(m, from, disk);
        match joiner::plan_of(m.join.buckets[from]) {
            Some((build, probe, left_is_build)) => {
                lemma_pass_steps(
                    m,
                    join_output::pass_begun(m, build, probe, left_is_build),
                    disk,
                );
            },
            None => {},
        }
    }
}

/// A state of the same join with another bucket under way has the same buckets to come.
proof fn lemma_buckets_same(m: Matching, n: Matching, from: int, disk: Map<int, Seq<u8>>)
    requires
        m.join == n.join,
        m.left_columns == n.left_columns,
        m.right_columns == n.right_columns,
    ensures
        buckets_to_come(m, from, disk) == buckets_to_come(n, from, disk),
        buckets_steps(m, from) == buckets_steps(n, from),
    decreases NUM_BUCKETS - from,
{
    if 0 <= from < NUM_BUCKETS {
        lemma_buckets_same(m, n, from + 1, disk);
        match joiner::plan_of(m.join.buckets[from]) {
            Some((build, probe, left_is_build)) => {
                assert(join_output::pass_begun(m, build, probe, left_is_build)
                    == join_output::pass_begun(n, build, probe, left_is_build));
            },
            None => {},
        }
    }
}

/// The matching of a bucket begins with all its pairs to come.
proof fn lemma_pass_begins(m: Matching, b: int, disk: Map<int, Seq<u8>>)
    requires
        goes_right(m, disk),
        0 <= b < NUM_BUCKETS,
    ensures
        joiner::plan_of(m.join.buckets[b]) matches Some((build, probe, left_is_build))
            ==> pass_goes_right(m, join_output::pass_begun(m, build, probe, left_is_build), disk),
{
    assert(readable(m.join.buckets[b].left_runs, disk, m.join.block_size, m.left_columns));
}

/// Blocks that are matched give the pairs of their rows.
proof fn lemma_blocks_probed(
    held: Seq<Seq<Val>>,
    held_key: int,
    data: Seq<u8>,
    block_size: nat,
    n: nat,
    columns: Seq<Column>,
    key: int,
    left_is_build: bool,
)
    requires
        block::blocks_rows(data, block_size, columns, n) is Ok,
    ensures
        joiner::blocks_probed(held, held_key, data, block_size, n, columns, key, left_is_build) == (
            joiner::probed(
                held,
                held_key,
                block::blocks_rows(data, block_size, columns, n)->Ok_0,
                key,
                left_is_build,
            ),
            None::<Fault>,
        ),
    decreases n,
{
    if n > 0 {
        lemma_blocks_probed(
            held,
            held_key,
            data,
            block_size,
            (n - 1) as nat,
            columns,
            key,
            left_is_build,
        );
        join_laws::matching_in_parts_agrees(
            held,
            held_key,
            block::blocks_rows(data, block_size, columns, (n - 1) as nat)->Ok_0,
            block::block_rows(block::nth_block(data, block_size, n - 1), block_size, columns)->Ok_0,
            key,
            left_is_build,
        );
    }
}

proof fn lemma_nothing_held(rows: Seq<Seq<Val>>, held_key: int, key: int, left_is_build: bool)
    ensures
        joiner::probed(Seq::empty(), held_key, rows, key, left_is_build) == Seq::<
            Seq<Val>,
        >::empty(),
    decreases rows.len(),
{
    reveal(Seq::filter);
    if rows.len() > 0 {
        lemma_nothing_held(rows.drop_last(), held_key, key, left_is_build);
        let found = hash::matching(Seq::empty(), held_key, rows.last()[key]);
        assert(found =~= Seq::empty());
        assert(hash_join::paired(rows.last(), found, !left_is_build) =~= Seq::empty());
        assert(Seq::<Seq<Val>>::empty() + Seq::empty() =~= Seq::<Seq<Val>>::empty());
    }
}

/// A step of the matching of a bucket.
proof fn lemma_pass_step(m: Matching, p: Probing, disk: Map<int, Seq<u8>>)
    requires
        goes_right(m, disk),
        m.pass == Some(p),
    ensures
        ({
            let (after, act) = join_output::pass_step(p);
            match act {
                Act::Again => match after {
                    Some(q) => {
                        &&& pass_goes_right(m, q, disk)
                        &&& pass_to_come(m, q, disk) == pass_to_come(m, p, disk)
                        &&& pass_steps(q) < pass_steps(p)
                    },
                    None => pass_to_come(m, p, disk) == Multiset::<Seq<Val>>::empty()
                        && 0 < pass_steps(p),
                },
                Act::Fetch(b, n) => {
                    let got = join_output::match_supplied(
                        Matching { pass: after, ..m },
                        cache::disk_blocks(disk, b as int, n as nat),
                        n as int,
                    );
                    &&& got.2 is None
                    &&& got.0.pass matches Some(q) && {
                        &&& got.0 == Matching { pass: Some(q), ..m }
                        &&& pass_goes_right(m, q, disk)
                        &&& pass_to_come(m, p, disk) == got.1.to_multiset().add(
                            pass_to_come(m, q, disk),
                        )
                        &&& pass_steps(q) < pass_steps(p)
                    }
                },
                _ => false,
            }
        }),
{
    let bs = m.join.block_size;
    let (cb, cp) = (
        join_output::side_columns(m, p.left_is_build),
        join_output::side_columns(m, !p.left_is_build),
    );
    let (kb, kp) = (
        join_output::side_key(m, p.left_is_build),
        join_output::side_key(m, !p.left_is_build),
    );
    let start = join_output::first_block(p.probe, 1);
    let all = probe_rows(m, p, disk);
    let k = blocks_from(start) + 5;
    assert(in_place(start, disk, bs, cp));
    lemma_blocks_from(start, disk, bs, cp);
    lemma_blocks_from(p.load.cursor, disk, bs, cb);
    lemma_blocks_from(p.cursor, disk, bs, cp);
    lemma_moved_on(p.load.cursor, disk, bs, cb);
    lemma_moved_on(p.cursor, disk, bs, cp);
    seqs::lemma_empty_multiset::<Seq<Val>>();
    let rest = rows_from(p.load.cursor, disk, bs, cb);
    let left = blocks_from(p.load.cursor);
    assert(0 <= left * k) by (nonlinear_arith)
        requires
            left >= 0,
            k >= 0,
    ;
    if !p.probing {
        let c = joiner::moved_on(p.load.cursor);
        if p.load.full || joiner::blocks_at(c) is None {
            if p.load.rows.len() == 0 {
                assert(p.load.rows =~= Seq::empty());
                assert(rest =~= Seq::empty());
                assert(p.load.rows + rest =~= Seq::empty());
                lemma_nothing_held(all, kb, kp, p.left_is_build);
            } else {
                lemma_any_most(start, PROBE_BLOCKS as int, disk, bs, cp);
                join_laws::holding_in_passes_agrees(
                    p.load.rows,
                    rest,
                    kb,
                    all,
                    kp,
                    p.left_is_build,
                );
                assert(Cursor { most: PROBE_BLOCKS as int, ..start } == join_output::first_block(
                    p.probe,
                    PROBE_BLOCKS as int,
                ));
            }
        } else {
            lemma_blocks_read(c, disk, bs, cb);
            let (b, n) = joiner::blocks_at(c)->Some_0;
            let d = Cursor { block: c.block + n, ..c };
            let here = block::blocks_rows(
                cache::disk_blocks(disk, b as int, n as nat),
                bs,
                cb,
                n as nat,
            )->Ok_0;
            let more = rows_from(d, disk, bs, cb);
            assert(p.load.rows + (here + more) =~= (p.load.rows + here) + more);
            assert(Multiset::<Seq<Val>>::empty().add(pass_to_come(m, p, disk)) =~= pass_to_come(
                m,
                p,
                disk,
            ));
            lemma_blocks_from(d, disk, bs, cb);
            let fewer = blocks_from(d);
            assert(fewer * k + k <= left * k) by (nonlinear_arith)
                requires
                    fewer < left,
                    k >= 0,
            ;
        }
    } else {
        let c = joiner::moved_on(p.cursor);
        let rows = rows_from(p.cursor, disk, bs, cp);
        match joiner::blocks_at(c) {
            Some((b, n)) => {
                lemma_blocks_read(c, disk, bs, cp);
                let d = Cursor { block: c.block + n, ..c };
                let data = cache::disk_blocks(disk, b as int, n as nat);
                let here = block::blocks_rows(data, bs, cp, n as nat)->Ok_0;
                let more = rows_from(d, disk, bs, cp);
                lemma_blocks_probed(p.load.rows, kb, data, bs, n as nat, cp, kp, p.left_is_build);
                join_laws::matching_in_parts_agrees(
                    p.load.rows,
                    kb,
                    here,
                    more,
                    kp,
                    p.left_is_build,
                );
                let x = joiner::probed(p.load.rows, kb, here, kp, p.left_is_build);
                let y = joiner::probed(p.load.rows, kb, more, kp, p.left_is_build);
                vstd::seq_lib::lemma_multiset_commutative(x, y);
                let z = pairs_with(m, p, rest, all);
                assert(x.to_multiset().add(y.to_multiset()).add(z) =~= x.to_multiset().add(
                    y.to_multiset().add(z),
                ));
            },
            None => {
                assert(rows =~= Seq::empty());
                assert(joiner::probed(p.load.rows, kb, rows, kp, p.left_is_build) == Seq::<
                    Seq<Val>,
                >::empty());
                let z = pairs_with(m, p, rest, all);
                assert(Multiset::empty().add(z) =~= z);
                if p.load.cursor.run >= p.load.cursor.runs.len() {
                    assert(rest =~= Seq::empty());
                    lemma_nothing_held(all, kb, kp, p.left_is_build);
                } else {
                    assert(Seq::<Seq<Val>>::empty() + rest =~= rest);
                }
            },
        }
    }
}

/// A step of the last phase leaves the pairs to come as they are, or asks for blocks; these
/// give pairs that were to come, and leave the others to come; at the end no pair is to come.
/// Each step leaves fewer steps.
pub proof fn the_last_phase_gives_the_pairs_of_the_buckets(m: Matching, disk: Map<int, Seq<u8>>)
    requires
        goes_right(m, disk),
    ensures
        0 <= steps_to_come(m),
        ({
            let (after, act) = join_output::match_step(m);
            match act {
                Act::Again => {
                    &&& goes_right(after, disk)
                    &&& to_come(after, disk) == to_come(m, disk)
                    &&& steps_to_come(after) < steps_to_come(m)
                },
                Act::Fetch(b, n) => {
                    let got = join_output::match_supplied(
                        after,
                        cache::disk_blocks(disk, b as int, n as nat),
                        n as int,
                    );
                    &&& got.2 is None
                    &&& goes_right(got.0, disk)
                    &&& to_come(m, disk) == got.1.to_multiset().add(to_come(got.0, disk))
                    &&& steps_to_come(got.0) < steps_to_come(m)
                },
                Act::Done => to_come(m, disk) == Multiset::<Seq<Val>>::empty(),
                _ => false,
            }
        }),
{
    let (after, act) = join_output::match_step(m);
    lemma_buckets_same(m, after, m.bucket, disk);
    lemma_buckets_steps(m, m.bucket, disk);
    match m.pass {
        Some(p) => {
            lemma_pass_steps(m, p, disk);
            lemma_pass_step(m, p, disk);
            let rest = buckets_to_come(m, m.bucket, disk);
            let (next, _) = join_output::pass_step(p);
            match act {
                Act::Fetch(b, n) => {
                    let got = join_output::match_supplied(
                        after,
                        cache::disk_blocks(disk, b as int, n as nat),
                        n as int,
                    );
                    lemma_buckets_same(m, got.0, m.bucket, disk);
                    let q = got.0.pass->Some_0;
                    lemma_pass_same(m, got.0, q, disk);
                    let (x, y) = (got.1.to_multiset(), pass_to_come(m, q, disk));
                    assert(x.add(y).add(rest) =~= x.add(y.add(rest)));
                },
                _ => {
                    match next {
                        Some(q) => {
                            lemma_pass_same(m, after, q, disk);
                        },
                        None => {
                            assert(Multiset::empty().add(rest) =~= rest);
                        },
                    }
                },
            }
        },
        None => {
            if m.bucket < NUM_BUCKETS {
                lemma_pass_begins(m, m.bucket, disk);
                lemma_buckets_same(m, after, m.bucket + 1, disk);
                let rest = buckets_to_come(m, m.bucket + 1, disk);
                match after.pass {
                    Some(q) => {
                        lemma_pass_same(m, after, q, disk);
                    },
                    None => {
                        assert(Multiset::empty().add(rest) =~= rest);
                    },
                }
            }
        },
    }
}

proof fn lemma_pass_same(m: Matching, n: Matching, p: Probing, disk: Map<int, Seq<u8>>)
    requires
        m.join == n.join,
        m.left_columns == n.left_columns,
        m.right_columns == n.right_columns,
    ensures
        pass_to_come(m, p, disk) == pass_to_come(n, p, disk),
        pass_goes_right(m, p, disk) == pass_goes_right(n, p, disk),
{
}

/// The pairs of a bucket are those of its left and its right rows with the same key.
pub proof fn a_bucket_gives_its_pairs(m: Matching, b: int, disk: Map<int, Seq<u8>>)
    requires
        joiner::plan_of(m.join.buckets[b]) is Some,
    ensures
        bucket_to_come(m, b, disk) == join_laws::equi_pairs(
            rows_of_runs(m.join.buckets[b].left_runs, disk, m.join.block_size, m.left_columns),
            m.join.left_key,
            rows_of_runs(m.join.buckets[b].right_runs, disk, m.join.block_size, m.right_columns),
            m.join.right_key,
        ).to_multiset(),
{
    let bucket = m.join.buckets[b];
    let bs = m.join.block_size;
    let left = rows_of_runs(bucket.left_runs, disk, bs, m.left_columns);
    let right = rows_of_runs(bucket.right_runs, disk, bs, m.right_columns);
    lemma_any_most(
        join_output::first_block(bucket.left_runs, 1),
        LOAD_BLOCKS as int,
        disk,
        bs,
        m.left_columns,
    );
    lemma_any_most(
        join_output::first_block(bucket.right_runs, 1),
        LOAD_BLOCKS as int,
        disk,
        bs,
        m.right_columns,
    );
    assert(Cursor { most: LOAD_BLOCKS as int, ..join_output::first_block(bucket.left_runs, 1) }
        == join_output::first_block(bucket.left_runs, LOAD_BLOCKS as int));
    assert(Cursor { most: LOAD_BLOCKS as int, ..join_output::first_block(bucket.right_runs, 1) }
        == join_output::first_block(bucket.right_runs, LOAD_BLOCKS as int));
    assert(Seq::<Seq<Val>>::empty() + left =~= left);
    assert(Seq::<Seq<Val>>::empty() + right =~= right);
    join_laws::either_side_can_be_held(left, m.join.left_key, right, m.join.right_key);
}

// ---- the whole phase ----

/// The pairs that the last phase gives, step by step, if it ends within `n` steps.
pub open spec fn pairs_given(m: Matching, disk: Map<int, Seq<u8>>, n: nat) -> Option<
    Seq<Seq<Val>>,
>
    decreases n,
{
    if n == 0 {
        None
    } else {
        let (after, act) = join_output::match_step(m);
        match act {
            Act::Again => pairs_given(after, disk, (n - 1) as nat),
            Act::Fetch(b, k) => {
                let got = join_output::match_supplied(
                    after,
                    cache::disk_blocks(disk, b as int, k as nat),
                    k as int,
                );
                match (got.2, pairs_given(got.0, disk, (n - 1) as nat)) {
                    (None, Some(rest)) => Some(got.1 + rest),
                    _ => None,
                }
            },
            Act::Done => Some(Seq::empty()),
            Act::Row(_) => None,
        }
    }
}

/// The pairs that the last phase gives do not hang on when one looks.
pub proof fn lemma_pairs_given_once(m: Matching, disk: Map<int, Seq<u8>>, n: nat, k: nat)
    requires
        pairs_given(m, disk, n) is Some,
        pairs_given(m, disk, k) is Some,
    ensures
        pairs_given(m, disk, n) == pairs_given(m, disk, k),
    decreases n,
{
    let (after, act) = join_output::match_step(m);
    match act {
        Act::Again => lemma_pairs_given_once(after, disk, (n - 1) as nat, (k - 1) as nat),
        Act::Fetch(b, j) => {
            let got = join_output::match_supplied(
                after,
                cache::disk_blocks(disk, b as int, j as nat),
                j as int,
            );
            lemma_pairs_given_once(got.0, disk, (n - 1) as nat, (k - 1) as nat);
        },
        _ => {},
    }
}

/// The last phase ends, and gives all pairs that were to come, once each.
pub proof fn the_last_phase_gives_all_its_pairs(m: Matching, disk: Map<int, Seq<u8>>) -> (n: nat)
    requires
        goes_right(m, disk),
    ensures
        pairs_given(m, disk, n) matches Some(pairs) && pairs.to_multiset() == to_come(m, disk),
    decreases steps_to_come(m),
{
    the_last_phase_gives_the_pairs_of_the_buckets(m, disk);
    let (after, act) = join_output::match_step(m);
    match act {
        Act::Again => {
            the_last_phase_gives_the_pairs_of_the_buckets(after, disk);
            the_last_phase_gives_all_its_pairs(after, disk) + 1
        },
        Act::Fetch(b, k) => {
            let got = join_output::match_supplied(
                after,
                cache::disk_blocks(disk, b as int, k as nat),
                k as int,
            );
            the_last_phase_gives_the_pairs_of_the_buckets(got.0, disk);
            let n = the_last_phase_gives_all_its_pairs(got.0, disk);
            vstd::seq_lib::lemma_multiset_commutative(got.1, pairs_given(got.0, disk, n)->Some_0);
            n + 1
        },
        _ => {
            seqs::lemma_empty_multiset::<Seq<Val>>();
            1
        },
    }
}

} // verus!
