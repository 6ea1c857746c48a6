//! Laws of the inputs of a hash join: every right row is held by its bucket, in memory or in
//! blocks, and every left row gives its pairs, at once or from blocks.

use vstd::multiset::Multiset;
use vstd::prelude::*;

use crate::block;
use crate::cache;
use crate::disk::Disk;
use crate::ops::hash;
use crate::ops::hash_join::{Bucket, Spill, NUM_BUCKETS};
use crate::ops::hash_join;
use crate::ops::join_laws;
use crate::ops::join_output::Matching;
use crate::ops::join_output_laws;
use crate::ops::joiner::Join;
use crate::ops::joiner;
use crate::ops::spill_laws;
use crate::row;
use crate::schema::Column;
use crate::seqs;
use crate::value::Val;

verus! {

// ---- what a join holds ----

/// The rows that came to a join.
pub struct Sides {
    /// The right rows.
    pub right: Seq<Seq<Val>>,
    /// For each bucket the right rows that wait to be written, or are held in memory until
    /// the right input ends.
    pub right_waits: Seq<Seq<Seq<Val>>>,
    /// For each bucket the left rows that went to blocks.
    pub left: Seq<Seq<Seq<Val>>>,
    /// For each bucket the left rows that wait to be written.
    pub left_waits: Seq<Seq<Seq<Val>>>,
    pub left_columns: Seq<Column>,
    pub right_columns: Seq<Column>,
}

/// The number of rows in buckets.
pub open spec fn total_rows(buckets: Seq<Seq<Seq<Val>>>) -> nat
    decreases buckets.len(),
{
    if buckets.len() == 0 {
        0
    } else {
        total_rows(buckets.drop_last()) + buckets.last().len()
    }
}

proof fn lemma_total_update(buckets: Seq<Seq<Seq<Val>>>, b: int, rows: Seq<Seq<Val>>)
    requires
        0 <= b < buckets.len(),
    ensures
        total_rows(buckets.update(b, rows)) + buckets[b].len() == total_rows(buckets) + rows.len(),
        buckets[b].len() <= total_rows(buckets),
    decreases buckets.len(),
{
    let after = buckets.update(b, rows);
    if b == buckets.len() - 1 {
        assert(after.drop_last() =~= buckets.drop_last());
    } else {
        lemma_total_update(buckets.drop_last(), b, rows);
        assert(after.drop_last() =~= buckets.drop_last().update(b, rows));
    }
}

proof fn lemma_total_none(buckets: Seq<Seq<Seq<Val>>>)
    requires
        forall|b: int| 0 <= b < buckets.len() ==> (#[trigger] buckets[b]).len() == 0,
    ensures
        total_rows(buckets) == 0,
    decreases buckets.len(),
{
    if buckets.len() > 0 {
        let before = buckets.drop_last();
        assert forall|b: int| 0 <= b < before.len() implies (#[trigger] before[b]).len() == 0 by {
            assert(before[b] == buckets[b]);
        }
        lemma_total_none(before);
        assert(buckets[buckets.len() - 1].len() == 0);
    }
}

/// The right rows of a bucket.
pub open spec fn right_of(s: Sides, key: int, b: int) -> Seq<Seq<Val>> {
    join_laws::rows_of_bucket(s.right, key, b)
}

/// Whether a bucket holds its rows. Where the right input has ended for it, its right rows
/// are found by their key, or are all written.
pub open spec fn bucket_holds(
    j: Join,
    s: Sides,
    b: int,
    right_ended: bool,
    left_ended: bool,
    next: int,
    disk: Map<int, Seq<u8>>,
) -> bool {
    let bucket = j.buckets[b];
    let rows = right_of(s, j.right_key, b);
    &&& forall|i: int|
        0 <= i < rows.len() ==> hash::bit_places(#[trigger] rows[i][j.right_key]).subset_of(
            bucket.bloom,
        )
    &&& if bucket.spilled {
        &&& bucket.rows.len() == 0
        &&& spill_laws::on_their_way(
            bucket.right,
            bucket.right_runs,
            next,
            rows,
            s.right_waits[b],
            s.right_columns,
            j.block_size,
            disk,
        )
        &&& right_ended ==> s.right_waits[b].len() == 0
        &&& spill_laws::on_their_way(
            bucket.left,
            bucket.left_runs,
            next,
            s.left[b],
            s.left_waits[b],
            s.left_columns,
            j.block_size,
            disk,
        )
        &&& left_ended ==> s.left_waits[b].len() == 0
    } else {
        &&& bucket.rows == if right_ended {
            Seq::empty()
        } else {
            rows
        }
        &&& bucket.table == if right_ended {
            rows
        } else {
            Seq::empty()
        }
        &&& s.right_waits[b] == bucket.rows
        &&& bucket.right.packing == block::nothing_packed()
        &&& bucket.right_runs.len() == 0
        &&& bucket.left.packing == block::nothing_packed()
        &&& bucket.left_runs.len() == 0
        &&& s.left[b].len() == 0
        &&& s.left_waits[b].len() == 0
    }
}

/// Whether a join holds its rows. The right input has ended for the buckets before
/// `right_ended`, the left input for those before `left_ended`.
pub open spec fn join_holds(
    j: Join,
    s: Sides,
    right_ended: int,
    left_ended: int,
    next: int,
    disk: Map<int, Seq<u8>>,
) -> bool {
    &&& 2 <= j.block_size
    &&& cache::uniform(disk, j.block_size)
    &&& j.buckets.len() == NUM_BUCKETS
    &&& s.right_waits.len() == NUM_BUCKETS
    &&& s.left.len() == NUM_BUCKETS
    &&& s.left_waits.len() == NUM_BUCKETS
    &&& block::all_packable(s.right, s.right_columns, j.block_size)
    &&& forall|b: int|
        #![trigger j.buckets[b]]
        0 <= b < NUM_BUCKETS ==> bucket_holds(
            j,
            s,
            b,
            b < right_ended,
            b < left_ended,
            next,
            disk,
        )
}

/// A join before its first row holds no rows.
pub proof fn a_join_begins_without_rows(
    j: Join,
    left_columns: Seq<Column>,
    right_columns: Seq<Column>,
    next: int,
    disk: Map<int, Seq<u8>>,
) -> (s: Sides)
    requires
        2 <= j.block_size,
        cache::uniform(disk, j.block_size),
        j.buckets == Seq::new(NUM_BUCKETS as nat, |i: int| hash_join::empty_bucket()),
    ensures
        join_holds(j, s, 0, 0, next, disk),
        s.right == Seq::<Seq<Val>>::empty(),
        s.left_columns == left_columns,
        s.right_columns == right_columns,
        total_rows(s.right_waits) == 0,
        total_rows(s.left_waits) == 0,
        forall|b: int| 0 <= b < NUM_BUCKETS ==> (#[trigger] s.left[b]).len() == 0,
        pairs_in_blocks(j, s, 0) == Multiset::<Seq<Val>>::empty(),
{
    reveal(Seq::filter);
    block::lemma_none_packable(right_columns, j.block_size);
    let none = Seq::new(NUM_BUCKETS as nat, |i: int| Seq::<Seq<Val>>::empty());
    let s = Sides {
        right: Seq::empty(),
        right_waits: none,
        left: none,
        left_waits: none,
        left_columns,
        right_columns,
    };
    assert forall|b: int|
        #![trigger j.buckets[b]]
        0 <= b < NUM_BUCKETS implies bucket_holds(
        j,
        s,
        b,
        false,
        false,
        next,
        disk,
    ) by {
        assert(j.buckets[b] == hash_join::empty_bucket());
        assert(right_of(s, j.right_key, b) =~= Seq::empty());
    }
    lemma_no_pairs_in_blocks(j, s, 0);
    lemma_total_none(none);
    s
}

// ---- the right input ----

proof fn lemma_bucket_rows_are_rows(rows: Seq<Seq<Val>>, key: int, b: int)
    ensures
        join_laws::rows_of_bucket(rows, key, b).to_multiset().subset_of(rows.to_multiset()),
    decreases rows.len(),
{
    broadcast use vstd::seq_lib::group_to_multiset_ensures;

    reveal(Seq::filter);
    if rows.len() > 0 {
        let before = rows.drop_last();
        lemma_bucket_rows_are_rows(before, key, b);
        assert(before.push(rows.last()) =~= rows);
    }
}

proof fn lemma_bucket_packable(
    rows: Seq<Seq<Val>>,
    key: int,
    b: int,
    columns: Seq<Column>,
    block_size: nat,
)
    requires
        block::all_packable(rows, columns, block_size),
    ensures
        block::all_packable(join_laws::rows_of_bucket(rows, key, b), columns, block_size),
{
    lemma_bucket_rows_are_rows(rows, key, b);
    block::lemma_some_packable(
        rows,
        join_laws::rows_of_bucket(rows, key, b),
        columns,
        block_size,
    );
}

proof fn lemma_one_more_in_bucket(rows: Seq<Seq<Val>>, r: Seq<Val>, key: int, b: int)
    ensures
        join_laws::rows_of_bucket(rows.push(r), key, b) == if hash_join::bucket_of(r[key]) == b {
            join_laws::rows_of_bucket(rows, key, b).push(r)
        } else {
            join_laws::rows_of_bucket(rows, key, b)
        },
{
    reveal(Seq::filter);
    assert(rows.push(r).drop_last() =~= rows);
}

/// A bucket that is left as it is holds its rows, wherever else blocks are written.
proof fn lemma_bucket_stays(
    j: Join,
    k: Join,
    s: Sides,
    t: Sides,
    b: int,
    right_ended: bool,
    left_ended: bool,
    next: int,
    later: int,
    disk: Map<int, Seq<u8>>,
    now: Map<int, Seq<u8>>,
)
    requires
        bucket_holds(j, s, b, right_ended, left_ended, next, disk),
        k.buckets[b] == j.buckets[b],
        k.right_key == j.right_key,
        k.block_size == j.block_size,
        right_of(t, j.right_key, b) == right_of(s, j.right_key, b),
        t.right_waits[b] == s.right_waits[b],
        t.left[b] == s.left[b],
        t.left_waits[b] == s.left_waits[b],
        t.left_columns == s.left_columns,
        t.right_columns == s.right_columns,
        cache::same_before(disk, now, next),
        cache::uniform(now, j.block_size),
        next <= later,
    ensures
        bucket_holds(k, t, b, right_ended, left_ended, later, now),
{
    let bucket = j.buckets[b];
    if bucket.spilled {
        spill_laws::lemma_way_same(
            bucket.right,
            bucket.right_runs,
            next,
            later,
            right_of(s, j.right_key, b),
            s.right_waits[b],
            s.right_columns,
            j.block_size,
            disk,
            now,
        );
        spill_laws::lemma_way_same(
            bucket.left,
            bucket.left_runs,
            next,
            later,
            s.left[b],
            s.left_waits[b],
            s.left_columns,
            j.block_size,
            disk,
            now,
        );
    }
}

/// The right rows of a bucket on their way to blocks.
pub open spec fn right_way(b: Bucket, d: Disk) -> Spill {
    Spill { grace: b.right, runs: b.right_runs, disk: d, sent: Seq::empty() }
}

/// The left rows of a bucket on their way to blocks.
pub open spec fn left_way(b: Bucket, d: Disk) -> Spill {
    Spill { grace: b.left, runs: b.left_runs, disk: d, sent: Seq::empty() }
}

/// What the blocks of the disk are once the largest bucket went to blocks.
pub open spec fn relieved_on_disk(j: Join, d: Disk, disk: Map<int, Seq<u8>>) -> Map<int, Seq<u8>> {
    match joiner::largest(j.buckets) {
        None => disk,
        Some(k) => spill_laws::all_graced_on_disk(
            right_way(j.buckets[k], d),
            j.buckets[k].rows,
            j.block_size,
            j.limit,
            disk,
        ),
    }
}

/// A join whose bucket holds a right row more in memory.
pub open spec fn held_more(j: Join, r: Seq<Val>, d: Disk) -> Join {
    let b = hash_join::bucket_of(r[j.right_key]);
    let weight = row::saturated(row::row_weight(r));
    let got = hash_join::right_taken(
        j.buckets[b],
        r,
        j.right_key,
        weight,
        d,
        j.block_size,
        j.limit,
    );
    Join {
        buckets: j.buckets.update(b, got.0),
        total: row::saturated((j.total + weight) as nat),
        ..j
    }
}

/// What the blocks of the disk are once a right row arrived.
pub open spec fn right_on_disk(j: Join, r: Seq<Val>, d: Disk, disk: Map<int, Seq<u8>>) -> Map<
    int,
    Seq<u8>,
> {
    let bucket = j.buckets[hash_join::bucket_of(r[j.right_key])];
    if bucket.spilled {
        spill_laws::graced_on_disk(right_way(bucket, d), r, j.block_size, j.limit, disk)
    } else if held_more(j, r, d).total > j.budget {
        relieved_on_disk(held_more(j, r, d), d, disk)
    } else {
        disk
    }
}

proof fn lemma_largest(buckets: Seq<Bucket>)
    ensures
        joiner::largest(buckets) matches Some(k) ==> 0 <= k < buckets.len() && !buckets[k].spilled,
    decreases buckets.len(),
{
    if buckets.len() > 0 {
        lemma_largest(buckets.drop_last());
    }
}

proof fn lemma_bucket_of(key: Val)
    ensures
        0 <= hash_join::bucket_of(key) < NUM_BUCKETS,
{
}

/// The largest bucket goes to blocks, and keeps its rows.
proof fn lemma_relieved(
    j: Join,
    s: Sides,
    d: Disk,
    disk: Map<int, Seq<u8>>,
) -> (t: Sides)
    requires
        join_holds(j, s, 0, 0, d.next as int, disk),
        d.next + total_rows(s.right_waits) <= u64::MAX,
        total_rows(s.right_waits) <= usize::MAX,
    ensures
        ({
            let got = joiner::relieved(j, d);
            &&& got.1.next + total_rows(t.right_waits) <= d.next + total_rows(s.right_waits)
            &&& total_rows(t.right_waits) <= total_rows(s.right_waits)
            &&& join_holds(got.0, t, 0, 0, got.1.next as int, relieved_on_disk(j, d, disk))
            &&& t == (Sides { right_waits: t.right_waits, ..s })
            &&& got.0 == (Join { buckets: got.0.buckets, total: got.0.total, ..j })
        }),
{
    lemma_largest(j.buckets);
    match joiner::largest(j.buckets) {
        None => s,
        Some(k) => {
            let bucket = j.buckets[k];
            let rows = right_of(s, j.right_key, k);
            assert(bucket_holds(j, s, k, false, false, d.next as int, disk));
            let way = right_way(bucket, d);
            assert(way.runs =~= Seq::empty());
            spill_laws::lemma_none_on_their_way(
                way.grace,
                d.next as int,
                s.right_columns,
                j.block_size,
                disk,
            );
            lemma_total_update(s.right_waits, k, rows);
            lemma_bucket_packable(s.right, j.right_key, k, s.right_columns, j.block_size);
            let none = Seq::<Seq<Val>>::empty();
            assert(none + rows =~= rows);
            let left = spill_laws::rows_go_on_their_way(
                way,
                rows,
                j.limit,
                none,
                none,
                s.right_columns,
                j.block_size,
                disk,
            );
            lemma_total_update(s.right_waits, k, left);
            let u = Sides { right_waits: s.right_waits.update(k, left), ..s };
            let got = joiner::relieved(j, d);
            let now = relieved_on_disk(j, d, disk);
            let later = got.1.next as int;
            spill_laws::lemma_none_on_their_way(
                bucket.left,
                later,
                s.left_columns,
                j.block_size,
                now,
            );
            assert(bucket.left_runs =~= Seq::empty());
            assert(s.left[k] =~= Seq::empty());
            assert(s.left_waits[k] =~= Seq::empty());
            assert forall|b: int|
                #![trigger got.0.buckets[b]]
                0 <= b < NUM_BUCKETS implies bucket_holds(
                got.0,
                u,
                b,
                false,
                false,
                later,
                now,
            ) by {
                assert(bucket_holds(j, s, b, false, false, d.next as int, disk));
                if b != k {
                    lemma_bucket_stays(
                        j,
                        got.0,
                        s,
                        u,
                        b,
                        false,
                        false,
                        d.next as int,
                        later,
                        disk,
                        now,
                    );
                }
            }
            u
        },
    }
}

/// A right row is held by its bucket, as the others are.
pub proof fn a_right_row_is_held(
    j: Join,
    s: Sides,
    r: Seq<Val>,
    d: Disk,
    disk: Map<int, Seq<u8>>,
) -> (t: Sides)
    requires
        join_holds(j, s, 0, 0, d.next as int, disk),
        block::all_packable(s.right.push(r), s.right_columns, j.block_size),
        d.next + total_rows(s.right_waits) < u64::MAX,
        total_rows(s.right_waits) < usize::MAX,
    ensures
        ({
            let got = joiner::with_right(j, r, d);
            &&& got.1.next + total_rows(t.right_waits) <= d.next + total_rows(s.right_waits) + 1
            &&& total_rows(t.right_waits) <= total_rows(s.right_waits) + 1
            &&& got.0 == (Join { buckets: got.0.buckets, total: got.0.total, ..j })
            &&& join_holds(got.0, t, 0, 0, got.1.next as int, right_on_disk(j, r, d, disk))
            &&& t == (Sides { right: s.right.push(r), right_waits: t.right_waits, ..s })
        }),
{
    let bs = j.block_size;
    let k = hash_join::bucket_of(r[j.right_key]);
    lemma_bucket_of(r[j.right_key]);
    let bucket = j.buckets[k];
    let all = s.right.push(r);
    let now = right_on_disk(j, r, d, disk);
    let got = joiner::with_right(j, r, d);
    assert(bucket_holds(j, s, k, false, false, d.next as int, disk));
    lemma_bucket_packable(all, j.right_key, k, s.right_columns, bs);
    assert forall|b: int| 0 <= b < NUM_BUCKETS implies #[trigger] join_laws::rows_of_bucket(
        all,
        j.right_key,
        b,
    ) == (if b == k {
        right_of(s, j.right_key, b).push(r)
    } else {
        right_of(s, j.right_key, b)
    }) by {
        lemma_one_more_in_bucket(s.right, r, j.right_key, b);
    }
    let rows = right_of(s, j.right_key, k);
    let bloom = bucket.bloom.union(hash::bit_places(r[j.right_key]));
    assert forall|i: int| 0 <= i < rows.push(r).len() implies hash::bit_places(
        #[trigger] rows.push(r)[i][j.right_key],
    ).subset_of(bloom) by {
        if i < rows.len() {
            assert(rows.push(r)[i] == rows[i]);
            assert(hash::bit_places(rows[i][j.right_key]).subset_of(bucket.bloom));
        }
    }
    if bucket.spilled {
        let waits = s.right_waits[k];
        lemma_total_update(s.right_waits, k, waits);
        let left = spill_laws::a_row_goes_on_its_way(
            right_way(bucket, d),
            r,
            j.limit,
            rows,
            waits,
            s.right_columns,
            bs,
            disk,
        );
        lemma_total_update(s.right_waits, k, left);
        let t = Sides { right: all, right_waits: s.right_waits.update(k, left), ..s };
        let later = got.1.next as int;
        spill_laws::lemma_way_same(
            bucket.left,
            bucket.left_runs,
            d.next as int,
            later,
            s.left[k],
            s.left_waits[k],
            s.left_columns,
            bs,
            disk,
            now,
        );
        assert forall|b: int|
            #![trigger got.0.buckets[b]]
            0 <= b < NUM_BUCKETS implies bucket_holds(
            got.0,
            t,
            b,
            false,
            false,
            later,
            now,
        ) by {
            assert(bucket_holds(j, s, b, false, false, d.next as int, disk));
            assert(right_of(t, j.right_key, b) == join_laws::rows_of_bucket(all, j.right_key, b));
            if b != k {
                lemma_bucket_stays(
                    j,
                    got.0,
                    s,
                    t,
                    b,
                    false,
                    false,
                    d.next as int,
                    later,
                    disk,
                    now,
                );
            }
        }
        t
    } else {
        let held = held_more(j, r, d);
        let more = s.right_waits[k].push(r);
        lemma_total_update(s.right_waits, k, more);
        let t = Sides { right: all, right_waits: s.right_waits.update(k, more), ..s };
        assert forall|b: int|
            #![trigger held.buckets[b]]
            0 <= b < NUM_BUCKETS implies bucket_holds(
            held,
            t,
            b,
            false,
            false,
            d.next as int,
            disk,
        ) by {
            assert(bucket_holds(j, s, b, false, false, d.next as int, disk));
            assert(right_of(t, j.right_key, b) == join_laws::rows_of_bucket(all, j.right_key, b));
            if b != k {
                lemma_bucket_stays(
                    j,
                    held,
                    s,
                    t,
                    b,
                    false,
                    false,
                    d.next as int,
                    d.next as int,
                    disk,
                    disk,
                );
            }
        }
        if held.total > j.budget {
            lemma_relieved(held, t, d, disk)
        } else {
            t
        }
    }
}

/// What the blocks of the disk are once the right input ended for the first `n` buckets.
pub open spec fn right_ended_on_disk(j: Join, d: Disk, n: nat, disk: Map<int, Seq<u8>>) -> Map<
    int,
    Seq<u8>,
>
    decreases n,
{
    if n == 0 {
        disk
    } else {
        let before = joiner::right_finished(j, d, (n - 1) as nat);
        let at = right_ended_on_disk(j, d, (n - 1) as nat, disk);
        let bucket = before.0.buckets[n - 1];
        if bucket.spilled {
            spill_laws::flushed_on_disk(right_way(bucket, before.1), j.block_size, at)
        } else {
            at
        }
    }
}

/// Once the right input ended, the right rows of each bucket are found by their key, or are
/// all written.
pub proof fn the_right_rows_are_complete(
    j: Join,
    s: Sides,
    d: Disk,
    n: nat,
    disk: Map<int, Seq<u8>>,
) -> (t: Sides)
    requires
        join_holds(j, s, 0, 0, d.next as int, disk),
        n <= NUM_BUCKETS,
        d.next + total_rows(s.right_waits) <= u64::MAX,
        total_rows(s.right_waits) <= usize::MAX,
    ensures
        ({
            let got = joiner::right_finished(j, d, n);
            &&& join_holds(
                got.0,
                t,
                n as int,
                0,
                got.1.next as int,
                right_ended_on_disk(j, d, n, disk),
            )
            &&& got.1.next + total_rows(t.right_waits) <= d.next + total_rows(s.right_waits)
            &&& total_rows(t.right_waits) <= total_rows(s.right_waits)
            &&& got.0 == (Join { buckets: got.0.buckets, ..j })
            &&& t == (Sides { right_waits: t.right_waits, ..s })
        }),
    decreases n,
{
    if n == 0 {
        s
    } else {
        let m = (n - 1) as nat;
        let mid = the_right_rows_are_complete(j, s, d, m, disk);
        let (i, e, _) = joiner::right_finished(j, d, m);
        let at = right_ended_on_disk(j, d, m, disk);
        let bucket = i.buckets[m as int];
        let rows = right_of(mid, j.right_key, m as int);
        assert(bucket_holds(i, mid, m as int, false, false, e.next as int, at));
        let got = joiner::right_finished(j, d, n);
        let now = right_ended_on_disk(j, d, n, disk);
        let later = got.1.next as int;
        let none = Seq::<Seq<Val>>::empty();
        lemma_total_update(mid.right_waits, m as int, none);
        let t = if bucket.spilled {
            spill_laws::waiting_rows_are_written(
                right_way(bucket, e),
                rows,
                mid.right_waits[m as int],
                mid.right_columns,
                j.block_size,
                at,
            );
            spill_laws::lemma_way_same(
                bucket.left,
                bucket.left_runs,
                e.next as int,
                later,
                mid.left[m as int],
                mid.left_waits[m as int],
                mid.left_columns,
                j.block_size,
                at,
                now,
            );
            Sides { right_waits: mid.right_waits.update(m as int, none), ..mid }
        } else {
            assert(bucket.table + bucket.rows =~= rows);
            Sides { right_waits: mid.right_waits.update(m as int, none), ..mid }
        };
        assert forall|b: int|
            #![trigger got.0.buckets[b]]
            0 <= b < NUM_BUCKETS implies bucket_holds(
            got.0,
            t,
            b,
            b < n,
            false,
            later,
            now,
        ) by {
            assert(bucket_holds(i, mid, b, b < m, false, e.next as int, at));
            if b != m {
                lemma_bucket_stays(
                    i,
                    got.0,
                    mid,
                    t,
                    b,
                    b < m,
                    false,
                    e.next as int,
                    later,
                    at,
                    now,
                );
            }
        }
        t
    }
}

// ---- the left input ----

/// The pairs of the left rows of a bucket that went to blocks.
pub open spec fn bucket_pairs(j: Join, s: Sides, b: int) -> Multiset<Seq<Val>> {
    join_laws::equi_pairs(
        s.left[b],
        j.left_key,
        right_of(s, j.right_key, b),
        j.right_key,
    ).to_multiset()
}

/// The pairs of the left rows that went to blocks, of the buckets from one on.
pub open spec fn pairs_in_blocks(j: Join, s: Sides, from: int) -> Multiset<Seq<Val>>
    decreases NUM_BUCKETS - from,
{
    if 0 <= from < NUM_BUCKETS {
        bucket_pairs(j, s, from).add(pairs_in_blocks(j, s, from + 1))
    } else {
        Multiset::empty()
    }
}

proof fn lemma_no_pairs_in_blocks(j: Join, s: Sides, from: int)
    requires
        s.left.len() == NUM_BUCKETS,
        forall|b: int| 0 <= b < NUM_BUCKETS ==> (#[trigger] s.left[b]).len() == 0,
    ensures
        pairs_in_blocks(j, s, from) == Multiset::<Seq<Val>>::empty(),
    decreases NUM_BUCKETS - from,
{
    if 0 <= from < NUM_BUCKETS {
        lemma_no_pairs_in_blocks(j, s, from + 1);
        assert(s.left[from].len() == 0);
        seqs::lemma_empty_multiset::<Seq<Val>>();
        assert(Multiset::<Seq<Val>>::empty().add(Multiset::empty()) =~= Multiset::empty());
    }
}

proof fn lemma_pairs_same(j: Join, k: Join, s: Sides, t: Sides, from: int)
    requires
        k.left_key == j.left_key,
        k.right_key == j.right_key,
        t.right == s.right,
        t.left == s.left,
    ensures
        pairs_in_blocks(k, t, from) == pairs_in_blocks(j, s, from),
    decreases NUM_BUCKETS - from,
{
    if 0 <= from < NUM_BUCKETS {
        lemma_pairs_same(j, k, s, t, from + 1);
    }
}

/// A left row more in a bucket has its own pairs there.
proof fn lemma_pairs_more(j: Join, k: Join, s: Sides, t: Sides, l: Seq<Val>, b: int, from: int)
    requires
        k.left_key == j.left_key,
        k.right_key == j.right_key,
        t.right == s.right,
        0 <= b < NUM_BUCKETS,
        s.left.len() == NUM_BUCKETS,
        t.left == s.left.update(b, s.left[b].push(l)),
    ensures
        pairs_in_blocks(k, t, from) == if 0 <= from <= b {
            pairs_in_blocks(j, s, from).add(
                hash_join::paired(
                    l,
                    hash::matching(right_of(s, j.right_key, b), j.right_key, l[j.left_key]),
                    true,
                ).to_multiset(),
            )
        } else {
            pairs_in_blocks(j, s, from)
        },
    decreases NUM_BUCKETS - from,
{
    if 0 <= from < NUM_BUCKETS {
        lemma_pairs_more(j, k, s, t, l, b, from + 1);
        let more = hash_join::paired(
            l,
            hash::matching(right_of(s, j.right_key, b), j.right_key, l[j.left_key]),
            true,
        );
        let rest = pairs_in_blocks(j, s, from + 1);
        let here = bucket_pairs(j, s, from);
        if from == b {
            assert(s.left[b].push(l).drop_last() =~= s.left[b]);
            let x = join_laws::equi_pairs(
                s.left[b],
                j.left_key,
                right_of(s, j.right_key, b),
                j.right_key,
            );
            vstd::seq_lib::lemma_multiset_commutative(x, more);
            assert(here.add(more.to_multiset()).add(rest) =~= here.add(rest).add(
                more.to_multiset(),
            ));
        } else if from < b {
            assert(here.add(rest.add(more.to_multiset())) =~= here.add(rest).add(
                more.to_multiset(),
            ));
        }
    }
}

/// What the blocks of the disk are once a left row arrived.
pub open spec fn left_on_disk(j: Join, l: Seq<Val>, d: Disk, disk: Map<int, Seq<u8>>) -> Map<
    int,
    Seq<u8>,
> {
    let bucket = j.buckets[hash_join::bucket_of(l[j.left_key])];
    if hash::bit_places(l[j.left_key]).subset_of(bucket.bloom) && bucket.spilled
        && bucket.right_runs.len() > 0 {
        spill_laws::graced_on_disk(left_way(bucket, d), l, j.block_size, j.limit, disk)
    } else {
        disk
    }
}

/// A left row gives its pairs: those with all right rows that have its key, at once or from
/// blocks.
pub proof fn a_left_row_gives_its_pairs(
    j: Join,
    s: Sides,
    l: Seq<Val>,
    d: Disk,
    disk: Map<int, Seq<u8>>,
) -> (t: Sides)
    requires
        join_holds(j, s, NUM_BUCKETS as int, 0, d.next as int, disk),
        block::all_packable(
            s.left[hash_join::bucket_of(l[j.left_key])].push(l),
            s.left_columns,
            j.block_size,
        ),
        d.next + total_rows(s.left_waits) < u64::MAX,
        total_rows(s.left_waits) < usize::MAX,
    ensures
        ({
            let got = joiner::with_left(j, l, d);
            &&& join_holds(
                got.0,
                t,
                NUM_BUCKETS as int,
                0,
                got.1.next as int,
                left_on_disk(j, l, d, disk),
            )
            &&& got.3.to_multiset().add(pairs_in_blocks(got.0, t, 0)) == pairs_in_blocks(
                j,
                s,
                0,
            ).add(
                hash_join::paired(
                    l,
                    hash::matching(s.right, j.right_key, l[j.left_key]),
                    true,
                ).to_multiset(),
            )
            &&& t == (Sides { left: t.left, left_waits: t.left_waits, ..s })
            &&& t.left == s.left || t.left == s.left.update(
                hash_join::bucket_of(l[j.left_key]),
                s.left[hash_join::bucket_of(l[j.left_key])].push(l),
            )
            &&& got.1.next + total_rows(t.left_waits) <= d.next + total_rows(s.left_waits) + 1
            &&& total_rows(t.left_waits) <= total_rows(s.left_waits) + 1
            &&& got.0 == (Join { buckets: got.0.buckets, ..j })
        }),
{
    let bs = j.block_size;
    let key = l[j.left_key];
    let k = hash_join::bucket_of(key);
    lemma_bucket_of(key);
    let bucket = j.buckets[k];
    let rows = right_of(s, j.right_key, k);
    let got = joiner::with_left(j, l, d);
    let now = left_on_disk(j, l, d, disk);
    assert(bucket_holds(j, s, k, true, false, d.next as int, disk));
    join_laws::a_key_is_in_its_bucket(s.right, j.right_key, key);
    let found = hash::matching(rows, j.right_key, key);
    let pairs = hash_join::paired(l, found, true);
    seqs::lemma_empty_multiset::<Seq<Val>>();
    let before = pairs_in_blocks(j, s, 0);
    if hash::bit_places(key).subset_of(bucket.bloom) && bucket.spilled && bucket.right_runs.len()
        > 0 {
        lemma_total_update(s.left_waits, k, s.left_waits[k]);
        let left = spill_laws::a_row_goes_on_its_way(
            left_way(bucket, d),
            l,
            j.limit,
            s.left[k],
            s.left_waits[k],
            s.left_columns,
            bs,
            disk,
        );
        lemma_total_update(s.left_waits, k, left);
        let t = Sides {
            left: s.left.update(k, s.left[k].push(l)),
            left_waits: s.left_waits.update(k, left),
            ..s
        };
        let later = got.1.next as int;
        spill_laws::lemma_way_same(
            bucket.right,
            bucket.right_runs,
            d.next as int,
            later,
            rows,
            s.right_waits[k],
            s.right_columns,
            bs,
            disk,
            now,
        );
        assert forall|b: int|
            #![trigger got.0.buckets[b]]
            0 <= b < NUM_BUCKETS implies bucket_holds(
            got.0,
            t,
            b,
            true,
            false,
            later,
            now,
        ) by {
            assert(bucket_holds(j, s, b, true, false, d.next as int, disk));
            if b != k {
                lemma_bucket_stays(
                    j,
                    got.0,
                    s,
                    t,
                    b,
                    true,
                    false,
                    d.next as int,
                    later,
                    disk,
                    now,
                );
            }
        }
        lemma_pairs_more(j, got.0, s, t, l, k, 0);
        let after = pairs_in_blocks(got.0, t, 0);
        assert(Multiset::empty().add(after) =~= after);
        t
    } else {
        if !hash::bit_places(key).subset_of(bucket.bloom) {
            join_laws::an_unknown_key_has_no_match(rows, j.right_key, bucket.bloom, key);
        } else if bucket.spilled {
            assert(bucket.right_runs =~= Seq::empty());
            assert(rows =~= Seq::empty());
            reveal(Seq::filter);
            assert(found =~= Seq::empty());
        }
        if !hash::bit_places(key).subset_of(bucket.bloom) || bucket.spilled {
            assert(pairs =~= Seq::empty());
        }
        assert(got.3 =~= pairs);
        assert(got.0.buckets =~= j.buckets);
        assert(got.0 == j);
        assert(pairs.to_multiset().add(before) =~= before.add(pairs.to_multiset()));
        assert forall|b: int|
            #![trigger got.0.buckets[b]]
            0 <= b < NUM_BUCKETS implies bucket_holds(
            got.0,
            s,
            b,
            true,
            false,
            d.next as int,
            disk,
        ) by {
            assert(bucket_holds(j, s, b, true, false, d.next as int, disk));
        }
        s
    }
}

/// What the blocks of the disk are once the left input ended for the first `n` buckets.
pub open spec fn left_ended_on_disk(j: Join, d: Disk, n: nat, disk: Map<int, Seq<u8>>) -> Map<
    int,
    Seq<u8>,
>
    decreases n,
{
    if n == 0 {
        disk
    } else {
        let before = joiner::left_finished(j, d, (n - 1) as nat);
        let at = left_ended_on_disk(j, d, (n - 1) as nat, disk);
        let bucket = before.0.buckets[n - 1];
        if bucket.spilled {
            spill_laws::flushed_on_disk(left_way(bucket, before.1), j.block_size, at)
        } else {
            at
        }
    }
}

/// Once the left input ended, all left rows that went to blocks are written.
pub proof fn the_left_rows_are_complete(
    j: Join,
    s: Sides,
    d: Disk,
    n: nat,
    disk: Map<int, Seq<u8>>,
) -> (t: Sides)
    requires
        join_holds(j, s, NUM_BUCKETS as int, 0, d.next as int, disk),
        n <= NUM_BUCKETS,
        d.next + total_rows(s.left_waits) <= u64::MAX,
        total_rows(s.left_waits) <= usize::MAX,
    ensures
        ({
            let got = joiner::left_finished(j, d, n);
            &&& join_holds(
                got.0,
                t,
                NUM_BUCKETS as int,
                n as int,
                got.1.next as int,
                left_ended_on_disk(j, d, n, disk),
            )
            &&& got.1.next + total_rows(t.left_waits) <= d.next + total_rows(s.left_waits)
            &&& total_rows(t.left_waits) <= total_rows(s.left_waits)
            &&& got.0 == (Join { buckets: got.0.buckets, ..j })
            &&& t == (Sides { left_waits: t.left_waits, ..s })
            &&& pairs_in_blocks(got.0, t, 0) == pairs_in_blocks(j, s, 0)
        }),
    decreases n,
{
    if n == 0 {
        s
    } else {
        let m = (n - 1) as nat;
        let mid = the_left_rows_are_complete(j, s, d, m, disk);
        let (i, e, _) = joiner::left_finished(j, d, m);
        let at = left_ended_on_disk(j, d, m, disk);
        let bucket = i.buckets[m as int];
        assert(bucket_holds(i, mid, m as int, true, false, e.next as int, at));
        let none = Seq::<Seq<Val>>::empty();
        lemma_total_update(mid.left_waits, m as int, none);
        let got = joiner::left_finished(j, d, n);
        let now = left_ended_on_disk(j, d, n, disk);
        let later = got.1.next as int;
        let t = if bucket.spilled {
            spill_laws::waiting_rows_are_written(
                left_way(bucket, e),
                mid.left[m as int],
                mid.left_waits[m as int],
                mid.left_columns,
                j.block_size,
                at,
            );
            spill_laws::lemma_way_same(
                bucket.right,
                bucket.right_runs,
                e.next as int,
                later,
                right_of(mid, j.right_key, m as int),
                mid.right_waits[m as int],
                mid.right_columns,
                j.block_size,
                at,
                now,
            );
            Sides { left_waits: mid.left_waits.update(m as int, none), ..mid }
        } else {
            mid
        };
        assert forall|b: int|
            #![trigger got.0.buckets[b]]
            0 <= b < NUM_BUCKETS implies bucket_holds(
            got.0,
            t,
            b,
            true,
            b < n,
            later,
            now,
        ) by {
            assert(bucket_holds(i, mid, b, true, b < m, e.next as int, at));
            if b != m {
                lemma_bucket_stays(
                    i,
                    got.0,
                    mid,
                    t,
                    b,
                    true,
                    b < m,
                    e.next as int,
                    later,
                    at,
                    now,
                );
            }
        }
        lemma_pairs_same(i, got.0, mid, t, 0);
        t
    }
}

// ---- the last phase ----

/// The pairs of a bucket that are to come are those of its left rows that went to blocks.
proof fn lemma_bucket_to_come(
    j: Join,
    s: Sides,
    m: Matching,
    b: int,
    next: int,
    disk: Map<int, Seq<u8>>,
)
    requires
        0 <= b < NUM_BUCKETS,
        bucket_holds(j, s, b, true, true, next, disk),
        m.join == j,
        m.left_columns == s.left_columns,
        m.right_columns == s.right_columns,
    ensures
        join_output_laws::bucket_to_come(m, b, disk) == bucket_pairs(j, s, b),
{
    let bucket = j.buckets[b];
    let rows = right_of(s, j.right_key, b);
    seqs::lemma_empty_multiset::<Seq<Val>>();
    if bucket.spilled {
        let left = join_output_laws::rows_of_runs(
            bucket.left_runs,
            disk,
            j.block_size,
            s.left_columns,
        );
        let right = join_output_laws::rows_of_runs(
            bucket.right_runs,
            disk,
            j.block_size,
            s.right_columns,
        );
        assert(left =~= s.left[b]);
        assert(right =~= rows);
        match joiner::plan_of(bucket) {
            Some(_) => {
                join_output_laws::a_bucket_gives_its_pairs(m, b, disk);
            },
            None => {
                if bucket.right_runs.len() == 0 {
                    assert(rows =~= Seq::empty());
                    lemma_no_right(s.left[b], j.left_key, j.right_key);
                } else {
                    assert(s.left[b] =~= Seq::empty());
                }
            },
        }
    } else {
        assert(s.left[b] =~= Seq::empty());
    }
}

proof fn lemma_no_right(left: Seq<Seq<Val>>, left_key: int, right_key: int)
    ensures
        join_laws::equi_pairs(left, left_key, Seq::empty(), right_key) == Seq::<Seq<Val>>::empty(),
    decreases left.len(),
{
    reveal(Seq::filter);
    if left.len() > 0 {
        lemma_no_right(left.drop_last(), left_key, right_key);
        let found = hash::matching(Seq::empty(), right_key, left.last()[left_key]);
        assert(found =~= Seq::empty());
        assert(hash_join::paired(left.last(), found, true) =~= Seq::empty());
        assert(Seq::<Seq<Val>>::empty() + Seq::empty() =~= Seq::<Seq<Val>>::empty());
    }
}

proof fn lemma_buckets_to_come(
    j: Join,
    s: Sides,
    m: Matching,
    from: int,
    next: int,
    disk: Map<int, Seq<u8>>,
)
    requires
        join_holds(j, s, NUM_BUCKETS as int, NUM_BUCKETS as int, next, disk),
        m.join == j,
        m.left_columns == s.left_columns,
        m.right_columns == s.right_columns,
    ensures
        join_output_laws::buckets_to_come(m, from, disk) == pairs_in_blocks(j, s, from),
    decreases NUM_BUCKETS - from,
{
    if 0 <= from < NUM_BUCKETS {
        lemma_buckets_to_come(j, s, m, from + 1, next, disk);
        assert(bucket_holds(j, s, from, true, true, next, disk));
        lemma_bucket_to_come(j, s, m, from, next, disk);
    }
}

/// The last phase of a join whose inputs have ended goes right, and the pairs of the left rows
/// that went to blocks are to come.
pub proof fn the_last_phase_begins_with_the_pairs_in_blocks(
    j: Join,
    s: Sides,
    next: int,
    disk: Map<int, Seq<u8>>,
)
    requires
        join_holds(j, s, NUM_BUCKETS as int, NUM_BUCKETS as int, next, disk),
    ensures
        ({
            let m = Matching {
                join: j,
                left_columns: s.left_columns,
                right_columns: s.right_columns,
                bucket: 0,
                pass: None,
            };
            &&& join_output_laws::goes_right(m, disk)
            &&& join_output_laws::to_come(m, disk) == pairs_in_blocks(j, s, 0)
        }),
{
    let m = Matching {
        join: j,
        left_columns: s.left_columns,
        right_columns: s.right_columns,
        bucket: 0,
        pass: None,
    };
    assert forall|b: int| 0 <= b < NUM_BUCKETS implies join_output_laws::readable(
        (#[trigger] m.join.buckets[b]).left_runs,
        disk,
        j.block_size,
        m.left_columns,
    ) && join_output_laws::readable(
        m.join.buckets[b].right_runs,
        disk,
        j.block_size,
        m.right_columns,
    ) by {
        assert(bucket_holds(j, s, b, true, true, next, disk));
    }
    lemma_buckets_to_come(j, s, m, 0, next, disk);
}

// ---- the whole course ----

/// The course of a join: its state, that of the disk and its blocks, and the pairs that it
/// gave.
pub struct Course {
    pub join: Join,
    pub disk: Disk,
    pub blocks: Map<int, Seq<u8>>,
    pub pairs: Seq<Seq<Val>>,
}

/// The disk and its blocks, as other operators leave them.
pub struct World {
    pub disk: Disk,
    pub blocks: Map<int, Seq<u8>>,
}

/// The course of a join once other operators have worked.
pub open spec fn after_others(c: Course, w: World) -> Course {
    Course { disk: w.disk, blocks: w.blocks, ..c }
}

/// Whether other operators only took blocks that were free, and wrote only to these; so many
/// block numbers are left.
pub open spec fn left_alone(c: Course, w: World, numbers: nat) -> bool {
    &&& c.disk.next <= w.disk.next
    &&& cache::same_before(c.blocks, w.blocks, c.disk.next as int)
    &&& cache::uniform(w.blocks, c.join.block_size)
    &&& w.disk.next + numbers <= u64::MAX
}

/// Right rows arrive in turn; other operators may work before each of them.
pub open spec fn right_came(c: Course, rows: Seq<Seq<Val>>, worlds: Seq<World>) -> Course
    decreases rows.len(),
{
    if rows.len() == 0 {
        c
    } else {
        let before = after_others(
            right_came(c, rows.drop_last(), worlds),
            worlds[rows.len() - 1],
        );
        let got = joiner::with_right(before.join, rows.last(), before.disk);
        Course {
            join: got.0,
            disk: got.1,
            blocks: right_on_disk(before.join, rows.last(), before.disk, before.blocks),
            ..before
        }
    }
}

/// The right input ends.
pub open spec fn right_over(c: Course) -> Course {
    let n = NUM_BUCKETS as nat;
    let got = joiner::right_finished(c.join, c.disk, n);
    Course {
        join: got.0,
        disk: got.1,
        blocks: right_ended_on_disk(c.join, c.disk, n, c.blocks),
        ..c
    }
}

/// Whether other operators leave a join alone while its right rows arrive.
pub open spec fn right_alone(
    c: Course,
    rows: Seq<Seq<Val>>,
    worlds: Seq<World>,
    numbers: nat,
) -> bool
    decreases rows.len(),
{
    rows.len() > 0 ==> {
        &&& right_alone(c, rows.drop_last(), worlds, numbers)
        &&& left_alone(right_came(c, rows.drop_last(), worlds), worlds[rows.len() - 1], numbers)
    }
}

/// Left rows arrive in turn; other operators may work before each of them.
pub open spec fn left_came(c: Course, rows: Seq<Seq<Val>>, worlds: Seq<World>) -> Course
    decreases rows.len(),
{
    if rows.len() == 0 {
        c
    } else {
        let before = after_others(
            left_came(c, rows.drop_last(), worlds),
            worlds[rows.len() - 1],
        );
        let got = joiner::with_left(before.join, rows.last(), before.disk);
        Course {
            join: got.0,
            disk: got.1,
            blocks: left_on_disk(before.join, rows.last(), before.disk, before.blocks),
            pairs: before.pairs + got.3,
        }
    }
}

/// Whether other operators leave a join alone while its left rows arrive.
pub open spec fn left_rows_alone(
    c: Course,
    rows: Seq<Seq<Val>>,
    worlds: Seq<World>,
    numbers: nat,
) -> bool
    decreases rows.len(),
{
    rows.len() > 0 ==> {
        &&& left_rows_alone(c, rows.drop_last(), worlds, numbers)
        &&& left_alone(left_came(c, rows.drop_last(), worlds), worlds[rows.len() - 1], numbers)
    }
}

/// The left input ends.
pub open spec fn left_over(c: Course) -> Course {
    let n = NUM_BUCKETS as nat;
    let got = joiner::left_finished(c.join, c.disk, n);
    Course {
        join: got.0,
        disk: got.1,
        blocks: left_ended_on_disk(c.join, c.disk, n, c.blocks),
        ..c
    }
}

/// A join that is left alone holds its rows.
proof fn lemma_holds_after_others(
    c: Course,
    w: World,
    numbers: nat,
    s: Sides,
    right_ended: int,
    left_ended: int,
)
    requires
        join_holds(c.join, s, right_ended, left_ended, c.disk.next as int, c.blocks),
        left_alone(c, w, numbers),
    ensures
        join_holds(c.join, s, right_ended, left_ended, w.disk.next as int, w.blocks),
{
    let j = c.join;
    assert forall|b: int|
        #![trigger j.buckets[b]]
        0 <= b < NUM_BUCKETS implies bucket_holds(
        j,
        s,
        b,
        b < right_ended,
        b < left_ended,
        w.disk.next as int,
        w.blocks,
    ) by {
        lemma_bucket_stays(
            j,
            j,
            s,
            s,
            b,
            b < right_ended,
            b < left_ended,
            c.disk.next as int,
            w.disk.next as int,
            c.blocks,
            w.blocks,
        );
    }
}

proof fn lemma_right_came(
    c: Course,
    s: Sides,
    rows: Seq<Seq<Val>>,
    worlds: Seq<World>,
    numbers: nat,
) -> (t: Sides)
    requires
        join_holds(c.join, s, 0, 0, c.disk.next as int, c.blocks),
        block::all_packable(s.right + rows, s.right_columns, c.join.block_size),
        right_alone(c, rows, worlds, numbers),
        total_rows(s.right_waits) + rows.len() <= numbers,
        numbers <= usize::MAX,
    ensures
        ({
            let e = right_came(c, rows, worlds);
            &&& join_holds(e.join, t, 0, 0, e.disk.next as int, e.blocks)
            &&& t == (Sides { right: s.right + rows, right_waits: t.right_waits, ..s })
            &&& e.join == (Join { buckets: e.join.buckets, total: e.join.total, ..c.join })
            &&& e.pairs == c.pairs
            &&& total_rows(t.right_waits) <= total_rows(s.right_waits) + rows.len()
        }),
    decreases rows.len(),
{
    if rows.len() == 0 {
        assert(s.right + rows =~= s.right);
        s
    } else {
        let before = rows.drop_last();
        assert((s.right + rows).drop_last() =~= s.right + before);
        assert((s.right + before).push(rows.last()) =~= s.right + rows);
        block::lemma_front_packable(s.right + rows, s.right_columns, c.join.block_size);
        let mid = lemma_right_came(c, s, before, worlds, numbers);
        let w = worlds[rows.len() - 1];
        lemma_holds_after_others(right_came(c, before, worlds), w, numbers, mid, 0, 0);
        let e = after_others(right_came(c, before, worlds), w);
        let t = a_right_row_is_held(e.join, mid, rows.last(), e.disk, e.blocks);
        t
    }
}

/// Rows that are some of others, and one row more on both sides.
proof fn lemma_push_within(some: Seq<Seq<Val>>, rows: Seq<Seq<Val>>, r: Seq<Val>)
    requires
        some.to_multiset().subset_of(rows.to_multiset()),
    ensures
        some.push(r).to_multiset().subset_of(rows.push(r).to_multiset()),
        some.to_multiset().subset_of(rows.push(r).to_multiset()),
{
    broadcast use vstd::seq_lib::group_to_multiset_ensures;

    assert(some.push(r).to_multiset() == some.to_multiset().insert(r));
    assert(rows.push(r).to_multiset() == rows.to_multiset().insert(r));
}

proof fn lemma_left_came(
    c: Course,
    s: Sides,
    rows: Seq<Seq<Val>>,
    worlds: Seq<World>,
    numbers: nat,
) -> (t: Sides)
    requires
        join_holds(c.join, s, NUM_BUCKETS as int, 0, c.disk.next as int, c.blocks),
        block::all_packable(rows, s.left_columns, c.join.block_size),
        left_rows_alone(c, rows, worlds, numbers),
        total_rows(s.left_waits) + rows.len() <= numbers,
        numbers <= usize::MAX,
        c.pairs.len() == 0,
        forall|b: int| 0 <= b < NUM_BUCKETS ==> (#[trigger] s.left[b]).len() == 0,
        pairs_in_blocks(c.join, s, 0) == Multiset::<Seq<Val>>::empty(),
    ensures
        ({
            let e = left_came(c, rows, worlds);
            &&& join_holds(e.join, t, NUM_BUCKETS as int, 0, e.disk.next as int, e.blocks)
            &&& t == (Sides { left: t.left, left_waits: t.left_waits, ..s })
            &&& e.join == (Join { buckets: e.join.buckets, ..c.join })
            &&& e.pairs.to_multiset().add(pairs_in_blocks(e.join, t, 0)) == join_laws::equi_pairs(
                rows,
                c.join.left_key,
                s.right,
                c.join.right_key,
            ).to_multiset()
            &&& total_rows(t.left_waits) <= total_rows(s.left_waits) + rows.len()
            &&& forall|b: int|
                0 <= b < NUM_BUCKETS ==> (#[trigger] t.left[b]).to_multiset().subset_of(
                    rows.to_multiset(),
                )
        }),
    decreases rows.len(),
{
    if rows.len() == 0 {
        assert(c.pairs =~= Seq::empty());
        assert forall|b: int| 0 <= b < NUM_BUCKETS implies (
        #[trigger] s.left[b]).to_multiset().subset_of(rows.to_multiset()) by {
            assert(s.left[b] =~= rows);
        }
        seqs::lemma_empty_multiset::<Seq<Val>>();
        assert(Multiset::<Seq<Val>>::empty().add(Multiset::empty()) =~= Multiset::empty());
        s
    } else {
        let before = rows.drop_last();
        let l = rows.last();
        block::lemma_front_packable(rows, s.left_columns, c.join.block_size);
        let mid = lemma_left_came(c, s, before, worlds, numbers);
        let w = worlds[rows.len() - 1];
        lemma_holds_after_others(
            left_came(c, before, worlds),
            w,
            numbers,
            mid,
            NUM_BUCKETS as int,
            0,
        );
        let e = after_others(left_came(c, before, worlds), w);
        let k = hash_join::bucket_of(l[c.join.left_key]);
        lemma_bucket_of(l[c.join.left_key]);
        lemma_push_within(mid.left[k], before, l);
        assert(before.push(l) =~= rows);
        block::lemma_some_packable(
            rows,
            mid.left[k].push(l),
            s.left_columns,
            c.join.block_size,
        );
        let t = a_left_row_gives_its_pairs(e.join, mid, l, e.disk, e.blocks);
        let got = joiner::with_left(e.join, l, e.disk);
        vstd::seq_lib::lemma_multiset_commutative(e.pairs, got.3);
        let (lk, rk) = (c.join.left_key, c.join.right_key);
        let x = join_laws::equi_pairs(before, lk, s.right, rk);
        let y = hash_join::paired(l, hash::matching(s.right, rk, l[lk]), true);
        vstd::seq_lib::lemma_multiset_commutative(x, y);
        let (p, q) = (e.pairs.to_multiset(), got.3.to_multiset());
        let after = pairs_in_blocks(got.0, t, 0);
        let then = pairs_in_blocks(e.join, mid, 0);
        assert(p.add(q).add(after) =~= p.add(q.add(after)));
        assert(p.add(then.add(y.to_multiset())) =~= p.add(then).add(y.to_multiset()));
        assert forall|b: int| 0 <= b < NUM_BUCKETS implies (
        #[trigger] t.left[b]).to_multiset().subset_of(rows.to_multiset()) by {
            assert(mid.left[b].to_multiset().subset_of(before.to_multiset()));
            lemma_push_within(mid.left[b], before, l);
        }
        t
    }
}

/// What other operators do in the course of a join: before each right row and the end of the
/// right input, and before each left row and the end of the left input.
pub struct Others {
    pub right: Seq<World>,
    pub right_end: World,
    pub left: Seq<World>,
    pub left_end: World,
}

/// The course of a join whose right input has ended.
pub open spec fn right_taken(c: Course, right: Seq<Seq<Val>>, o: Others) -> Course {
    right_over(after_others(right_came(c, right, o.right), o.right_end))
}

/// The course of a join whose inputs have ended.
pub open spec fn inputs_taken(
    c: Course,
    right: Seq<Seq<Val>>,
    left: Seq<Seq<Val>>,
    o: Others,
) -> Course {
    left_over(after_others(left_came(right_taken(c, right, o), left, o.left), o.left_end))
}

/// Whether a hash join can take these inputs: no row has come, the rows can be kept in blocks,
/// block numbers last, and other operators leave the blocks of the join alone.
pub open spec fn can_take(
    c: Course,
    right: Seq<Seq<Val>>,
    left: Seq<Seq<Val>>,
    o: Others,
    left_columns: Seq<Column>,
    right_columns: Seq<Column>,
) -> bool {
    let c1 = right_came(c, right, o.right);
    let c2 = right_taken(c, right, o);
    let c3 = left_came(c2, left, o.left);
    &&& c.join.buckets == Seq::new(NUM_BUCKETS as nat, |i: int| hash_join::empty_bucket())
    &&& 2 <= c.join.block_size
    &&& c.pairs.len() == 0
    &&& cache::uniform(c.blocks, c.join.block_size)
    &&& block::all_packable(right, right_columns, c.join.block_size)
    &&& block::all_packable(left, left_columns, c.join.block_size)
    &&& right.len() <= usize::MAX
    &&& left.len() <= usize::MAX
    &&& right_alone(c, right, o.right, right.len())
    &&& left_alone(c1, o.right_end, right.len())
    &&& left_rows_alone(c2, left, o.left, left.len())
    &&& left_alone(c3, o.left_end, left.len())
}

/// The last phase of a hash join whose inputs have ended.
pub open spec fn last_phase(
    c: Course,
    left_columns: Seq<Column>,
    right_columns: Seq<Column>,
) -> Matching {
    Matching { join: c.join, left_columns, right_columns, bucket: 0, pass: None }
}

/// A hash join gives every pair of a left and a right row with the same key, and no other:
/// those that it gave while its left input came, and those that are to come in its last phase.
/// Meanwhile other operators may take blocks of their own.
pub proof fn a_hash_join_gives_all_pairs(
    c: Course,
    right: Seq<Seq<Val>>,
    left: Seq<Seq<Val>>,
    o: Others,
    left_columns: Seq<Column>,
    right_columns: Seq<Column>,
)
    requires
        can_take(c, right, left, o, left_columns, right_columns),
    ensures
        ({
            let e = inputs_taken(c, right, left, o);
            let m = last_phase(e, left_columns, right_columns);
            &&& join_output_laws::goes_right(m, e.blocks)
            &&& e.pairs.to_multiset().add(join_output_laws::to_come(m, e.blocks))
                == join_laws::equi_pairs(
                left,
                c.join.left_key,
                right,
                c.join.right_key,
            ).to_multiset()
        }),
{
    let n = NUM_BUCKETS as nat;
    let s = a_join_begins_without_rows(
        c.join,
        left_columns,
        right_columns,
        c.disk.next as int,
        c.blocks,
    );
    assert(s.right + right =~= right);
    let s1 = lemma_right_came(c, s, right, o.right, right.len());
    let c1 = right_came(c, right, o.right);
    lemma_holds_after_others(c1, o.right_end, right.len(), s1, 0, 0);
    let d1 = after_others(c1, o.right_end);
    let s2 = the_right_rows_are_complete(d1.join, s1, d1.disk, n, d1.blocks);
    let c2 = right_over(d1);
    lemma_no_pairs_in_blocks(c2.join, s2, 0);
    let s3 = lemma_left_came(c2, s2, left, o.left, left.len());
    let c3 = left_came(c2, left, o.left);
    lemma_holds_after_others(c3, o.left_end, left.len(), s3, NUM_BUCKETS as int, 0);
    let d3 = after_others(c3, o.left_end);
    let s4 = the_left_rows_are_complete(d3.join, s3, d3.disk, n, d3.blocks);
    let c4 = left_over(d3);
    the_last_phase_begins_with_the_pairs_in_blocks(
        c4.join,
        s4,
        c4.disk.next as int,
        c4.blocks,
    );
}

} // verus!
