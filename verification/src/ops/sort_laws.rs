//! What a sort gives: the rows of its input, in the order of the keys.

use vstd::multiset::Multiset;
use vstd::prelude::*;

use crate::block;
use crate::cache;
use crate::error::Fault;
use crate::ops::scan_laws;
use crate::ops::sort;
use crate::ops::sort_chunk::Chunk;
use crate::ops::sort_chunk;
use crate::ops::sort_merge::{Step, Stream};
use crate::ops::sort_merge;
use crate::row;
use crate::schema::Column;
use crate::seqs;
use crate::value::{Order, Val};

verus! {

// ---- a chunk ----

/// The chunk of rows that arrived one after the other.
pub open spec fn chunk_of(rows: Seq<Seq<Val>>) -> Chunk
    decreases rows.len(),
{
    if rows.len() == 0 {
        sort_chunk::empty_chunk()
    } else {
        sort_chunk::chunk_with(chunk_of(rows.drop_last()), rows.last())
    }
}

/// Whether the rows have the types of the columns, and can be stored.
pub open spec fn all_stored(rows: Seq<Seq<Val>>, columns: Seq<Column>) -> bool {
    forall|i: int|
        0 <= i < rows.len() ==> row::row_fits(#[trigger] rows[i], columns) && row::row_storable(
            rows[i],
        )
}

proof fn lemma_chunk_layout(rows: Seq<Seq<Val>>)
    requires
        block::joined(block::rows_bytes(rows)).len() <= usize::MAX,
    ensures
        chunk_of(rows).bytes == block::joined(block::rows_bytes(rows)),
        chunk_of(rows).offsets.len() == rows.len(),
        forall|i: int|
            0 <= i < rows.len() ==> (#[trigger] chunk_of(rows).offsets[i]) == block::joined(
                block::rows_bytes(rows).take(i),
            ).len(),
    decreases rows.len(),
{
    let parts = block::rows_bytes(rows);
    if rows.len() == 0 {
        assert(parts =~= Seq::empty());
    } else {
        let before = rows.drop_last();
        assert(block::rows_bytes(before) =~= parts.drop_last());
        lemma_chunk_layout(before);
        let c = chunk_of(rows);
        assert forall|i: int| 0 <= i < rows.len() implies (#[trigger] c.offsets[i])
            == block::joined(parts.take(i)).len() by {
            if i < before.len() {
                assert(c.offsets[i] == chunk_of(before).offsets[i]);
                assert(block::rows_bytes(before).take(i) =~= parts.take(i));
            } else {
                assert(parts.take(i) =~= parts.drop_last());
            }
        }
    }
}

proof fn lemma_row_place(rows: Seq<Seq<Val>>, i: int)
    requires
        block::joined(block::rows_bytes(rows)).len() <= usize::MAX,
        0 <= i < rows.len(),
    ensures
        ({
            let c = chunk_of(rows);
            &&& row::found_at(c.bytes, c.offsets[i] as int, row::encode_vals(rows[i]))
            &&& sort_chunk::row_slice(c, i) == row::encode_vals(rows[i])
        }),
{
    let c = chunk_of(rows);
    let parts = block::rows_bytes(rows);
    let enc = row::encode_vals(rows[i]);
    lemma_chunk_layout(rows);
    assert(c.offsets[i] == block::joined(parts.take(i)).len());
    assert(parts.take(i + 1).drop_last() =~= parts.take(i));
    assert(parts.take(i + 1).last() == enc);
    block::lemma_joined_prefix(parts, i + 1);
    let upto = block::joined(parts.take(i + 1));
    let at = c.offsets[i] as int;
    assert(upto == block::joined(parts.take(i)) + enc);
    assert(c.bytes.subrange(at, at + enc.len()) =~= enc) by {
        assert forall|k: int| 0 <= k < enc.len() implies c.bytes.subrange(at, at + enc.len())[k]
            == enc[k] by {
            assert(c.bytes.take(upto.len() as int)[at + k] == upto[at + k]);
        }
    }
    if i + 1 < rows.len() {
        assert(c.offsets[i + 1] == block::joined(parts.take(i + 1)).len());
    } else {
        assert(parts.take(i + 1) =~= parts);
    }
}

/// The rows of a chunk are those that arrived.
pub proof fn a_chunk_gives_back_its_rows(rows: Seq<Seq<Val>>, columns: Seq<Column>)
    requires
        all_stored(rows, columns),
        block::joined(block::rows_bytes(rows)).len() <= usize::MAX,
    ensures
        sort_chunk::all_rows(chunk_of(rows), columns) == Ok::<Seq<Seq<Val>>, Fault>(rows),
{
    lemma_chunk_layout(rows);
    lemma_chunk_decodes(rows, columns, rows.len());
    assert(rows.take(rows.len() as int) =~= rows);
}

/// The rows of a chunk are those that arrived, and a chunk that is sorted and packed
/// is the blocks of those rows in that arrangement.
pub proof fn chunk_keeps_its_rows(
    rows: Seq<Seq<Val>>,
    columns: Seq<Column>,
    p: Seq<usize>,
    block_size: nat,
)
    requires
        all_stored(rows, columns),
        block::joined(block::rows_bytes(rows)).len() <= usize::MAX,
        sort::arranges(p, 0, rows.len() as int),
    ensures
        sort_chunk::all_rows(chunk_of(rows), columns) == Ok::<Seq<Seq<Val>>, Fault>(rows),
        sort_chunk::packed_slices(sort_chunk::slices(chunk_of(rows), p), block_size)
            == block::packed_rows(sort_chunk::arranged(rows, p), block_size),
{
    let c = chunk_of(rows);
    a_chunk_gives_back_its_rows(rows, columns);
    let out = sort_chunk::arranged(rows, p);
    assert(sort_chunk::slices(c, p) =~= block::rows_bytes(out)) by {
        assert forall|i: int| 0 <= i < p.len() implies sort_chunk::slices(c, p)[i]
            == block::rows_bytes(out)[i] by {
            lemma_row_place(rows, p[i] as int);
        }
    }
}

proof fn lemma_chunk_decodes(rows: Seq<Seq<Val>>, columns: Seq<Column>, n: nat)
    requires
        all_stored(rows, columns),
        block::joined(block::rows_bytes(rows)).len() <= usize::MAX,
        n <= rows.len(),
    ensures
        sort_chunk::chunk_rows(chunk_of(rows), columns, n) == Ok::<Seq<Seq<Val>>, Fault>(
            rows.take(n as int),
        ),
    decreases n,
{
    let c = chunk_of(rows);
    if n == 0 {
        assert(rows.take(0) =~= Seq::empty());
    } else {
        lemma_chunk_decodes(rows, columns, (n - 1) as nat);
        lemma_row_place(rows, n - 1);
        assert(row::row_fits(rows[n - 1], columns) && row::row_storable(rows[n - 1]));
        row::encoded_row_is_decoded(c.bytes, c.offsets[n - 1] as int, rows[n - 1], columns);
        assert(rows.take(n - 1).push(rows[n - 1]) =~= rows.take(n as int));
    }
}

// ---- arrangements ----

/// An arrangement of rows holds the same rows.
pub proof fn arrangement_keeps_the_rows(rows: Seq<Seq<Val>>, p: Seq<usize>)
    requires
        sort::arranges(p, 0, rows.len() as int),
    ensures
        sort_chunk::arranged(rows, p).to_multiset() == rows.to_multiset(),
{
    let order = p.map_values(|i: usize| i as int);
    assert forall|i: int| 0 <= i < rows.len() implies 0 <= #[trigger] order[i] < rows.len() by {
        assert(0 <= p[i] < rows.len());
    }
    assert forall|i: int, j: int| 0 <= i < order.len() && 0 <= j < order.len() && i != j implies order[i]
        != order[j] by {
        assert(p[i] != p[j]);
    }
    seqs::lemma_arranged_bag(rows, order);
    assert(sort_chunk::arranged(rows, p) =~= order.map_values(|i: int| rows[i]));
}

/// Whether rows ascend by the keys.
pub open spec fn sorted(rows: Seq<Seq<Val>>, keys: Seq<(int, bool)>) -> bool {
    forall|i: int, j: int|
        0 <= i < j < rows.len() ==> sort::rows_order(#[trigger] rows[i], #[trigger] rows[j], keys)
            != Order::Greater
}

/// A sort in memory gives the rows of its input in the order of the keys.
pub proof fn sorting_in_memory_sorts(
    rows: Seq<Seq<Val>>,
    p: Seq<usize>,
    keys: Seq<(int, bool)>,
)
    requires
        sort_chunk::sorts(p, rows, keys),
    ensures
        sort_chunk::arranged(rows, p).to_multiset() == rows.to_multiset(),
        sort::all_have_keys(rows, keys) ==> sorted(sort_chunk::arranged(rows, p), keys),
{
    arrangement_keeps_the_rows(rows, p);
    if sort::all_have_keys(rows, keys) {
        let out = sort_chunk::arranged(rows, p);
        assert forall|i: int, j: int| 0 <= i < j < out.len() implies sort::rows_order(
            #[trigger] out[i],
            #[trigger] out[j],
            keys,
        ) != Order::Greater by {
            assert(sort::in_order(rows, p[i] as int, p[j] as int, keys));
        }
    }
}

// ---- reading a run ----

/// The rows of `n` cached blocks from `head` on.
pub open spec fn cached_rows(s: Stream, head: int, n: nat) -> Result<Seq<Seq<Val>>, Fault>
    decreases n,
{
    if n == 0 {
        Ok(Seq::empty())
    } else {
        match block::block_rows(
            block::nth_block(s.data, s.block_size, head),
            s.block_size,
            s.columns,
        ) {
            Err(e) => Err(e),
            Ok(rows) => match cached_rows(s, head + 1, (n - 1) as nat) {
                Err(e) => Err(e),
                Ok(rest) => Ok(rows + rest),
            },
        }
    }
}

/// The rows that a run still has: those decoded, those in cached blocks, and those in
/// blocks of the disk.
pub open spec fn rows_left(s: Stream, disk: Map<int, Seq<u8>>) -> Result<Seq<Seq<Val>>, Fault> {
    let cached = cached_rows(
        s,
        s.head,
        if s.head < s.count {
            (s.count - s.head) as nat
        } else {
            0
        },
    );
    let stored = scan_laws::table_rows(
        disk,
        s.next_block,
        s.blocks_left as nat,
        s.block_size,
        s.columns,
        None,
    );
    match (cached, stored) {
        (Ok(a), Ok(b)) => Ok(s.rows + a + b),
        (Err(e), _) => Err(e),
        (_, Err(e)) => Err(e),
    }
}

/// Whether the parts of a run fit together, and the blocks that it still has on the disk
/// have numbers.
pub open spec fn steady(s: Stream) -> bool {
    &&& s.block_size >= 2
    &&& 1 <= s.fetch <= 4096
    &&& 0 <= s.blocks_left
    &&& 0 <= s.next_block
    &&& s.next_block + s.blocks_left <= u64::MAX
    &&& 0 <= s.head
    &&& 0 <= s.count
    &&& s.data.len() >= s.count * s.block_size
}

/// Whether every block of a run that is still to come holds a row.
pub open spec fn no_empty_block(s: Stream, disk: Map<int, Seq<u8>>) -> bool {
    &&& forall|i: int|
        s.head <= i < s.count ==> block::block_count(
            #[trigger] block::nth_block(s.data, s.block_size, i),
            s.block_size,
        ) > 0
    &&& forall|b: int|
        s.next_block <= b < s.next_block + s.blocks_left ==> block::block_count(
            #[trigger] disk[b],
            s.block_size,
        ) > 0
}

/// A run gives the first of the rows it still has, and then has the others; it ends
/// only where it has none.
pub proof fn a_run_gives_its_rows_in_order(s: Stream, disk: Map<int, Seq<u8>>)
    requires
        steady(s),
        cache::uniform(disk, s.block_size),
        rows_left(s, disk) is Ok,
        no_empty_block(s, disk),
    ensures
        match sort_merge::polled(s).1 {
            Ok(Step::Row(r)) => {
                let t = sort_merge::polled(s).0;
                &&& rows_left(t, disk) matches Ok(rest) && rows_left(s, disk)->Ok_0 == seq![r] + rest
                &&& no_empty_block(t, disk)
                &&& steady(t)
            },
            Ok(Step::Fetch(b, n)) => {
                let got = sort_merge::supplied(
                    s,
                    cache::disk_blocks(disk, b as int, n as nat),
                    n as int,
                );
                &&& 1 <= n <= s.blocks_left
                &&& got.1 matches Ok(Step::Row(r)) && rows_left(got.0, disk) matches Ok(rest)
                    && rows_left(s, disk)->Ok_0 == seq![r] + rest
                &&& no_empty_block(got.0, disk)
                &&& steady(got.0)
            },
            Ok(Step::End) => {
                let t = sort_merge::polled(s).0;
                &&& rows_left(s, disk)->Ok_0.len() == 0
                &&& rows_left(t, disk) matches Ok(rest) && rest.len() == 0
                &&& no_empty_block(t, disk)
                &&& steady(t)
            },
            Err(_) => false,
        },
{
    let n0 = if s.head < s.count {
        (s.count - s.head) as nat
    } else {
        0
    };
    let a = cached_rows(s, s.head, n0)->Ok_0;
    let b = scan_laws::table_rows(
        disk,
        s.next_block,
        s.blocks_left as nat,
        s.block_size,
        s.columns,
        None,
    )->Ok_0;
    let t = sort_merge::polled(s).0;
    if s.rows.len() > 0 {
        lemma_cached_same(s, t, s.head, n0);
        assert(s.rows + a + b =~= seq![s.rows[0]] + (s.rows.drop_first() + a + b));
    } else if s.head < s.count {
        let blk = block::nth_block(s.data, s.block_size, s.head);
        lemma_nth_len(s.data, s.block_size, s.head, s.count);
        block::lemma_rows_counted(blk, s.columns, None, block::block_count(blk, s.block_size));
        let rows = block::block_rows(blk, s.block_size, s.columns)->Ok_0;
        assert(rows.len() > 0);
        let rest = cached_rows(s, s.head + 1, (n0 - 1) as nat)->Ok_0;
        lemma_cached_same(s, t, s.head + 1, (n0 - 1) as nat);
        assert(s.rows + (rows + rest) + b =~= seq![rows[0]] + (rows.drop_first() + rest + b));
        assert forall|i: int| t.head <= i < t.count implies block::block_count(
            #[trigger] block::nth_block(t.data, t.block_size, i),
            t.block_size,
        ) > 0 by {
            assert(block::nth_block(t.data, t.block_size, i) == block::nth_block(
                s.data,
                s.block_size,
                i,
            ));
        }
    } else if s.blocks_left == 0 {
        assert(s.rows + a + b =~= Seq::empty());
        assert(0 * s.block_size == 0);
        assert(rows_left(t, disk) == Ok::<Seq<Seq<Val>>, Fault>(t.rows + Seq::empty() + b));
    } else {
        let n = if s.blocks_left < s.fetch {
            s.blocks_left
        } else {
            s.fetch as int
        };
        let data = cache::disk_blocks(disk, s.next_block, n as nat);
        let got = sort_merge::supplied(s, data, n);
        let u = got.0;
        cache::lemma_disk_blocks_len(disk, s.next_block, n as nat, s.block_size);
        assert(0 * s.block_size == 0);
        cache::lemma_blocks_of_disk(disk, s.next_block, n as nat, 0, s.block_size);
        let first = disk[s.next_block];
        assert(block::nth_block(data, s.block_size, 0) == disk[s.next_block + 0]);
        assert(s.blocks_left as nat == n as nat + (s.blocks_left - n) as nat);
        scan_laws::lemma_table_split(
            disk,
            s.next_block,
            n as nat,
            (s.blocks_left - n) as nat,
            s.block_size,
            s.columns,
            None,
        );
        assert(n as nat == 1 + (n - 1) as nat);
        scan_laws::lemma_table_split(
            disk,
            s.next_block,
            1,
            (n - 1) as nat,
            s.block_size,
            s.columns,
            None,
        );
        scan_laws::lemma_table_one(disk, s.next_block, s.block_size, s.columns, None);
        block::lemma_rows_counted(
            first,
            s.columns,
            None,
            block::block_count(first, s.block_size),
        );
        assert(first.len() == s.block_size);
        let rows = block::block_rows(first, s.block_size, s.columns)->Ok_0;
        assert(rows.len() > 0);
        let mid = scan_laws::table_rows(
            disk,
            s.next_block + 1,
            (n - 1) as nat,
            s.block_size,
            s.columns,
            None,
        )->Ok_0;
        let last = scan_laws::table_rows(
            disk,
            s.next_block + n,
            (s.blocks_left - n) as nat,
            s.block_size,
            s.columns,
            None,
        )->Ok_0;
        if n > 1 {
            lemma_cached_is_stored(u, disk, s.next_block, n, 1, (n - 1) as nat);
            assert forall|i: int| u.head <= i < u.count implies block::block_count(
                #[trigger] block::nth_block(u.data, u.block_size, i),
                u.block_size,
            ) > 0 by {
                cache::lemma_blocks_of_disk(disk, s.next_block, n as nat, i as nat, s.block_size);
                assert(block::nth_block(u.data, u.block_size, i) == disk[s.next_block + i]);
            }
        } else {
            assert(mid =~= Seq::empty());
        }
        assert(s.rows + a + ((rows + mid) + last) =~= seq![rows[0]] + (rows.drop_first() + mid
            + last));
        assert(sort_merge::polled(s).1 == Ok::<Step, Fault>(
            Step::Fetch(s.next_block as u64, n as usize),
        ));
        assert(got.1 == Ok::<Step, Fault>(Step::Row(rows[0])));
        assert(rows_left(u, disk) == Ok::<Seq<Seq<Val>>, Fault>(rows.drop_first() + mid + last));
    }
}

proof fn lemma_cached_same(s: Stream, t: Stream, head: int, n: nat)
    requires
        s.data == t.data,
        s.block_size == t.block_size,
        s.columns == t.columns,
    ensures
        cached_rows(s, head, n) == cached_rows(t, head, n),
    decreases n,
{
    if n > 0 {
        lemma_cached_same(s, t, head + 1, (n - 1) as nat);
    }
}

proof fn lemma_nth_len(data: Seq<u8>, block_size: nat, i: int, n: int)
    requires
        0 <= i < n,
        n * block_size <= data.len(),
    ensures
        block::nth_block(data, block_size, i).len() == block_size,
{
    assert(0 <= i * block_size && i * block_size + block_size <= n * block_size)
        by (nonlinear_arith)
        requires
            0 <= i < n,
            block_size >= 0,
    ;
}

proof fn lemma_cached_is_stored(
    u: Stream,
    disk: Map<int, Seq<u8>>,
    start: int,
    n: int,
    head: int,
    k: nat,
)
    requires
        cache::uniform(disk, u.block_size),
        u.block_size >= 2,
        u.data == cache::disk_blocks(disk, start, n as nat),
        0 <= head,
        head + k == n,
        scan_laws::table_rows(disk, start + head, k, u.block_size, u.columns, None) is Ok,
    ensures
        cached_rows(u, head, k) == scan_laws::table_rows(
            disk,
            start + head,
            k,
            u.block_size,
            u.columns,
            None,
        ),
    decreases k,
{
    if k > 0 {
        cache::lemma_blocks_of_disk(disk, start, n as nat, head as nat, u.block_size);
        assert(block::nth_block(u.data, u.block_size, head) == disk[start + head]);
        assert(disk[start + head].len() == u.block_size);
        assert(k == 1 + (k - 1) as nat);
        scan_laws::lemma_table_split(
            disk,
            start + head,
            1,
            (k - 1) as nat,
            u.block_size,
            u.columns,
            None,
        );
        scan_laws::lemma_table_one(disk, start + head, u.block_size, u.columns, None);
        assert(start + head + 1 == start + (head + 1));
        lemma_cached_is_stored(u, disk, start, n, head + 1, (k - 1) as nat);
    }
}

// ---- merging ----

/// The first rows of runs with these rows.
pub open spec fn heads_of(runs: Seq<Seq<Seq<Val>>>) -> Seq<Option<Seq<Val>>> {
    runs.map_values(
        |r: Seq<Seq<Val>>|
            if r.len() > 0 {
                Some(r[0])
            } else {
                None
            },
    )
}

/// The number of rows of runs.
pub open spec fn rows_in(runs: Seq<Seq<Seq<Val>>>) -> nat
    decreases runs.len(),
{
    if runs.len() == 0 {
        0
    } else {
        rows_in(runs.drop_last()) + runs.last().len()
    }
}

/// Runs of which one has given its first row.
pub open spec fn without_first(runs: Seq<Seq<Seq<Val>>>, i: int) -> Seq<Seq<Seq<Val>>> {
    runs.update(i, runs[i].drop_first())
}

/// A run that has given its first row has one row less.
pub proof fn lemma_rows_in_less(runs: Seq<Seq<Seq<Val>>>, i: int)
    requires
        0 <= i < runs.len(),
        runs[i].len() > 0,
    ensures
        rows_in(without_first(runs, i)) + 1 == rows_in(runs),
    decreases runs.len(),
{
    let after = without_first(runs, i);
    if i == runs.len() - 1 {
        assert(after.drop_last() =~= runs.drop_last());
    } else {
        lemma_rows_in_less(runs.drop_last(), i);
        assert(after.drop_last() =~= without_first(runs.drop_last(), i));
    }
}

/// The rows of runs, merged: the least of the first rows comes first.
pub open spec fn merged(runs: Seq<Seq<Seq<Val>>>, keys: Seq<(int, bool)>) -> Seq<Seq<Val>>
    decreases rows_in(runs),
    via merged_decreases
{
    match sort_merge::least_head(heads_of(runs), keys) {
        None => Seq::empty(),
        Some(i) => seq![runs[i][0]] + merged(without_first(runs, i), keys),
    }
}

#[via_fn]
proof fn merged_decreases(runs: Seq<Seq<Seq<Val>>>, keys: Seq<(int, bool)>) {
    sort_merge::lemma_least_head(heads_of(runs), keys);
    match sort_merge::least_head(heads_of(runs), keys) {
        None => {},
        Some(i) => {
            lemma_rows_in_less(runs, i);
        },
    }
}

/// All rows of runs.
pub open spec fn pooled(runs: Seq<Seq<Seq<Val>>>) -> Multiset<Seq<Val>>
    decreases runs.len(),
{
    if runs.len() == 0 {
        Multiset::empty()
    } else {
        pooled(runs.drop_last()).add(runs.last().to_multiset())
    }
}

proof fn lemma_pooled_first(runs: Seq<Seq<Seq<Val>>>, i: int)
    requires
        0 <= i < runs.len(),
        runs[i].len() > 0,
    ensures
        pooled(runs) == pooled(without_first(runs, i)).insert(runs[i][0]),
    decreases runs.len(),
{
    let after = without_first(runs, i);
    let r = runs[i];
    if i == runs.len() - 1 {
        assert(after.drop_last() =~= runs.drop_last());
        assert(r =~= seq![r[0]] + r.drop_first());
        lemma_front_multiset(r.drop_first(), r[0]);
        assert(pooled(runs) =~= pooled(after).insert(r[0]));
    } else {
        lemma_pooled_first(runs.drop_last(), i);
        assert(after.drop_last() =~= without_first(runs.drop_last(), i));
        assert(pooled(runs) =~= pooled(after).insert(r[0]));
    }
}

proof fn lemma_front_multiset(rest: Seq<Seq<Val>>, x: Seq<Val>)
    ensures
        (seq![x] + rest).to_multiset() == rest.to_multiset().insert(x),
{
    let s = seq![x] + rest;
    vstd::seq_lib::to_multiset_remove(s, 0);
    assert(s.remove(0) =~= rest);
    s.to_multiset_ensures();
    assert(s.contains(s[0]));
    assert(s.to_multiset() =~= s.to_multiset().remove(x).insert(x));
}

/// Merging keeps the rows.
pub proof fn merging_keeps_the_rows(runs: Seq<Seq<Seq<Val>>>, keys: Seq<(int, bool)>)
    ensures
        merged(runs, keys).to_multiset() == pooled(runs),
    decreases rows_in(runs),
{
    sort_merge::lemma_least_head(heads_of(runs), keys);
    match sort_merge::least_head(heads_of(runs), keys) {
        None => {
            assert forall|i: int| 0 <= i < runs.len() implies (#[trigger] runs[i]).len() == 0 by {
                assert(heads_of(runs)[i] is None);
            }
            lemma_nothing_pooled(runs);
            seqs::lemma_empty_multiset::<Seq<Val>>();
        },
        Some(i) => {
            assert(heads_of(runs)[i] is Some);
            lemma_rows_in_less(runs, i);
            merging_keeps_the_rows(without_first(runs, i), keys);
            lemma_pooled_first(runs, i);
            lemma_front_multiset(merged(without_first(runs, i), keys), runs[i][0]);
        },
    }
}

proof fn lemma_nothing_pooled(runs: Seq<Seq<Seq<Val>>>)
    requires
        forall|i: int| 0 <= i < runs.len() ==> (#[trigger] runs[i]).len() == 0,
    ensures
        pooled(runs) == Multiset::<Seq<Val>>::empty(),
    decreases runs.len(),
{
    if runs.len() > 0 {
        assert forall|i: int| 0 <= i < runs.drop_last().len() implies (
        #[trigger] runs.drop_last()[i]).len() == 0 by {
            assert(runs.drop_last()[i] == runs[i]);
        }
        lemma_nothing_pooled(runs.drop_last());
        assert(runs[runs.len() - 1].len() == 0);
        assert(runs.last() =~= Seq::empty());
        seqs::lemma_empty_multiset::<Seq<Val>>();
        assert(Multiset::<Seq<Val>>::empty().add(Multiset::empty()) =~= Multiset::empty());
    }
}

/// The least first row is not above any other.
proof fn lemma_least_is_least(
    heads: Seq<Option<Seq<Val>>>,
    keys: Seq<(int, bool)>,
    j: int,
)
    requires
        forall|i: int|
            0 <= i < heads.len() && (#[trigger] heads[i]) is Some ==> sort::has_keys(
                heads[i]->Some_0,
                keys,
            ),
        0 <= j < heads.len(),
        heads[j] is Some,
    ensures
        sort_merge::least_head(heads, keys) matches Some(i) && sort::rows_order(
            heads[i]->Some_0,
            heads[j]->Some_0,
            keys,
        ) != Order::Greater,
    decreases heads.len(),
{
    let before = heads.drop_last();
    sort_merge::lemma_least_head(before, keys);
    sort_merge::lemma_least_head(heads, keys);
    let last = heads.len() - 1;
    assert forall|i: int| 0 <= i < before.len() && (#[trigger] before[i]) is Some implies sort::has_keys(
        before[i]->Some_0,
        keys,
    ) by {
        assert(before[i] == heads[i]);
    }
    let y = heads[j]->Some_0;
    if j < last {
        assert(before[j] == heads[j]);
        lemma_least_is_least(before, keys, j);
        let i = sort_merge::least_head(before, keys)->Some_0;
        assert(before[i] == heads[i]);
        let x = heads[i]->Some_0;
        if heads[last] is Some {
            let z = heads[last]->Some_0;
            assert(heads[last] is Some);
            if sort::rows_order(z, x, keys) == Order::Less {
                assert(sort::has_keys(z, keys) && sort::has_keys(x, keys) && sort::has_keys(y, keys));
                sort::rows_order_is_transitive(z, x, y, keys);
            }
        }
    } else {
        lemma_order_reflexive(y, keys);
        match sort_merge::least_head(before, keys) {
            Some(i) => {
                assert(before[i] == heads[i]);
                sort::rows_order_is_antisymmetric(y, heads[i]->Some_0, keys);
            },
            None => {},
        }
    }
}

proof fn lemma_order_reflexive(a: Seq<Val>, keys: Seq<(int, bool)>)
    ensures
        sort::rows_order(a, a, keys) == Order::Equal,
{
    sort::rows_order_is_antisymmetric(a, a, keys);
}

/// Whether no key of any row of the runs is a NaN.
pub open spec fn runs_have_keys(runs: Seq<Seq<Seq<Val>>>, keys: Seq<(int, bool)>) -> bool {
    forall|i: int| 0 <= i < runs.len() ==> sort::all_have_keys(#[trigger] runs[i], keys)
}

/// Whether every run is sorted.
pub open spec fn runs_sorted(runs: Seq<Seq<Seq<Val>>>, keys: Seq<(int, bool)>) -> bool {
    forall|i: int| 0 <= i < runs.len() ==> sorted(#[trigger] runs[i], keys)
}

proof fn lemma_shorter(runs: Seq<Seq<Seq<Val>>>, keys: Seq<(int, bool)>, i: int)
    requires
        runs_have_keys(runs, keys),
        runs_sorted(runs, keys),
        0 <= i < runs.len(),
        runs[i].len() > 0,
    ensures
        runs_have_keys(without_first(runs, i), keys),
        runs_sorted(without_first(runs, i), keys),
{
    let after = without_first(runs, i);
    assert forall|j: int| 0 <= j < after.len() implies sort::all_have_keys(
        #[trigger] after[j],
        keys,
    ) && sorted(after[j], keys) by {
        let r = runs[j];
        assert(sort::all_have_keys(runs[j], keys) && sorted(runs[j], keys));
        if j == i {
            let d = r.drop_first();
            assert forall|k: int| 0 <= k < d.len() implies sort::has_keys(
                #[trigger] d[k],
                keys,
            ) by {
                assert(d[k] == r[k + 1]);
            }
            assert forall|a: int, b: int| 0 <= a < b < d.len() implies sort::rows_order(
                #[trigger] d[a],
                #[trigger] d[b],
                keys,
            ) != Order::Greater by {
                assert(d[a] == r[a + 1] && d[b] == r[b + 1]);
            }
        }
    }
}

/// What is merged comes from the runs.
proof fn lemma_merged_from(runs: Seq<Seq<Seq<Val>>>, keys: Seq<(int, bool)>, n: int) -> (res: (
    int,
    int,
))
    requires
        0 <= n < merged(runs, keys).len(),
    ensures
        0 <= res.0 < runs.len(),
        0 <= res.1 < runs[res.0].len(),
        merged(runs, keys)[n] == runs[res.0][res.1],
    decreases rows_in(runs),
{
    sort_merge::lemma_least_head(heads_of(runs), keys);
    let i = sort_merge::least_head(heads_of(runs), keys)->Some_0;
    assert(heads_of(runs)[i] is Some);
    if n == 0 {
        (i, 0)
    } else {
        lemma_rows_in_less(runs, i);
        let after = without_first(runs, i);
        let (a, b) = lemma_merged_from(after, keys, n - 1);
        assert(merged(runs, keys)[n] == merged(after, keys)[n - 1]);
        if a == i {
            (a, b + 1)
        } else {
            (a, b)
        }
    }
}

/// Merging sorted runs gives sorted rows.
pub proof fn merging_sorts(runs: Seq<Seq<Seq<Val>>>, keys: Seq<(int, bool)>)
    requires
        runs_have_keys(runs, keys),
        runs_sorted(runs, keys),
    ensures
        sorted(merged(runs, keys), keys),
    decreases rows_in(runs),
{
    sort_merge::lemma_least_head(heads_of(runs), keys);
    match sort_merge::least_head(heads_of(runs), keys) {
        None => {},
        Some(i) => {
            let heads = heads_of(runs);
            assert(heads[i] is Some);
            lemma_rows_in_less(runs, i);
            lemma_shorter(runs, keys, i);
            let after = without_first(runs, i);
            merging_sorts(after, keys);
            let out = merged(runs, keys);
            let rest = merged(after, keys);
            let x = runs[i][0];
            assert forall|a: int, b: int| 0 <= a < b < out.len() implies sort::rows_order(
                #[trigger] out[a],
                #[trigger] out[b],
                keys,
            ) != Order::Greater by {
                if a > 0 {
                    assert(out[a] == rest[a - 1] && out[b] == rest[b - 1]);
                } else {
                    assert(out[b] == rest[b - 1]);
                    let (j, k) = lemma_merged_from(after, keys, b - 1);
                    let kk = if j == i {
                        k + 1
                    } else {
                        k
                    };
                    assert(out[b] == runs[j][kk]);
                    assert(sort::all_have_keys(runs[j], keys) && sorted(runs[j], keys));
                    assert(sort::all_have_keys(runs[i], keys));
                    assert(heads[j] is Some);
                    assert forall|m: int|
                        0 <= m < heads.len() && (#[trigger] heads[m]) is Some implies sort::has_keys(
                        heads[m]->Some_0,
                        keys,
                    ) by {
                        assert(sort::all_have_keys(runs[m], keys));
                        assert(sort::has_keys(runs[m][0], keys));
                    }
                    lemma_least_is_least(heads, keys, j);
                    let y = runs[j][0];
                    if kk > 0 {
                        assert(sort::rows_order(runs[j][0], runs[j][kk], keys) != Order::Greater);
                        assert(sort::has_keys(runs[i][0], keys));
                        assert(sort::has_keys(runs[j][0], keys));
                        assert(sort::has_keys(runs[j][kk], keys));
                        sort::rows_order_is_transitive(x, y, runs[j][kk], keys);
                    }
                }
            }
        },
    }
}

// ---- a run, row by row ----

/// The next row of a run, with the blocks that are read for it, and the state of the run then.
pub open spec fn next_row(s: Stream, disk: Map<int, Seq<u8>>) -> (
    Stream,
    Result<Option<Seq<Val>>, Fault>,
) {
    let (t, step) = sort_merge::polled(s);
    let (u, last) = match step {
        Ok(Step::Fetch(b, n)) => sort_merge::supplied(
            t,
            cache::disk_blocks(disk, b as int, n as nat),
            n as int,
        ),
        _ => (t, step),
    };
    (
        u,
        match last {
            Ok(Step::Row(r)) => Ok(Some(r)),
            Ok(_) => Ok(None),
            Err(e) => Err(e),
        },
    )
}

/// The state of a run that was asked for so many rows.
pub open spec fn asked(s: Stream, disk: Map<int, Seq<u8>>, times: nat) -> Stream
    decreases times,
{
    if times == 0 {
        s
    } else {
        next_row(asked(s, disk, (times - 1) as nat), disk).0
    }
}

/// Asking a run for a row gives the first of the rows it still has, and leaves it the others.
proof fn lemma_next_row(s: Stream, disk: Map<int, Seq<u8>>)
    requires
        steady(s),
        cache::uniform(disk, s.block_size),
        rows_left(s, disk) is Ok,
        no_empty_block(s, disk),
    ensures
        ({
            let rows = rows_left(s, disk)->Ok_0;
            let (t, got) = next_row(s, disk);
            &&& steady(t)
            &&& t.block_size == s.block_size
            &&& no_empty_block(t, disk)
            &&& rows_left(t, disk) is Ok
            &&& if rows.len() > 0 {
                &&& got == Ok::<Option<Seq<Val>>, Fault>(Some(rows[0]))
                &&& rows_left(t, disk)->Ok_0 == rows.drop_first()
            } else {
                &&& got == Ok::<Option<Seq<Val>>, Fault>(None)
                &&& rows_left(t, disk)->Ok_0 == rows
            }
        }),
{
    a_run_gives_its_rows_in_order(s, disk);
    let rows = rows_left(s, disk)->Ok_0;
    let (t, got) = next_row(s, disk);
    let rest = rows_left(t, disk)->Ok_0;
    if rows.len() > 0 {
        assert(rest =~= rows.drop_first());
    } else {
        assert(rest =~= rows);
    }
}

/// The rows behind the first `i`.
pub open spec fn rows_behind(rows: Seq<Seq<Val>>, i: nat) -> Seq<Seq<Val>> {
    if i < rows.len() {
        rows.skip(i as int)
    } else {
        Seq::empty()
    }
}

proof fn lemma_asked(s: Stream, disk: Map<int, Seq<u8>>, i: nat)
    requires
        steady(s),
        cache::uniform(disk, s.block_size),
        rows_left(s, disk) is Ok,
        no_empty_block(s, disk),
    ensures
        ({
            let t = asked(s, disk, i);
            &&& steady(t)
            &&& t.block_size == s.block_size
            &&& no_empty_block(t, disk)
            &&& rows_left(t, disk) == Ok::<Seq<Seq<Val>>, Fault>(
                rows_behind(rows_left(s, disk)->Ok_0, i),
            )
        }),
    decreases i,
{
    let rows = rows_left(s, disk)->Ok_0;
    if i == 0 {
        assert(rows_behind(rows, 0) =~= rows);
    } else {
        let j = (i - 1) as nat;
        lemma_asked(s, disk, j);
        lemma_next_row(asked(s, disk, j), disk);
        let had = rows_behind(rows, j);
        assert(rows_behind(rows, i) =~= if had.len() > 0 {
            had.drop_first()
        } else {
            had
        });
    }
}

/// A run that is asked again and again gives its rows, one by one in the order in which they
/// are stored, and then no more, however many blocks are read at once.
pub proof fn a_run_gives_each_of_its_rows(s: Stream, disk: Map<int, Seq<u8>>, i: nat)
    requires
        steady(s),
        cache::uniform(disk, s.block_size),
        rows_left(s, disk) is Ok,
        no_empty_block(s, disk),
    ensures
        ({
            let rows = rows_left(s, disk)->Ok_0;
            next_row(asked(s, disk, i), disk).1 == Ok::<Option<Seq<Val>>, Fault>(
                if i < rows.len() {
                    Some(rows[i as int])
                } else {
                    None
                },
            )
        }),
{
    lemma_asked(s, disk, i);
    lemma_next_row(asked(s, disk, i), disk);
}

} // verus!
