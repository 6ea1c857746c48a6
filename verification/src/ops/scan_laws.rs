//! What a scan gives: the rows that pass, whatever was skipped.

use vstd::prelude::*;

use crate::block;
use crate::cache;
use crate::error::Fault;
use crate::ops::scan::{Check, PredicateResult};
use crate::ops::scan;
use crate::ops::scanner::{Phase, Scan, ScanEnd};
use crate::ops::scanner;
use crate::query::{Stat, Table, TableColumn, Test};
use crate::query;
use crate::row;
use crate::schema::Column;
use crate::schema;
use crate::seqs;
use crate::value::{Order, Val};
use crate::value;

verus! {

/// Whether a row meets a check.
pub open spec fn meets(r: Seq<Val>, c: Check) -> bool {
    row::vals_compare(r[c.left], c.operator, scan::rhs_val(r, c.right))
}

/// Whether a row meets all checks.
pub open spec fn meets_all(r: Seq<Val>, checks: Seq<Check>) -> bool {
    forall|i: int| 0 <= i < checks.len() ==> meets(r, #[trigger] checks[i])
}

/// The rows that meet all checks.
pub open spec fn passing(rows: Seq<Seq<Val>>, checks: Seq<Check>) -> Seq<Seq<Val>> {
    rows.filter(|r: Seq<Val>| meets_all(r, checks))
}

/// The rows of a block, as far as its columns are wanted.
pub open spec fn seen(
    b: Seq<u8>,
    block_size: nat,
    columns: Seq<Column>,
    wanted: Option<Seq<bool>>,
) -> Result<(Seq<Seq<Val>>, int), Fault> {
    block::rows_from(b, 0, columns, wanted, block::block_count(b, block_size))
}

/// The rows of `num` blocks of a disk from `start` on.
pub open spec fn table_rows(
    disk: Map<int, Seq<u8>>,
    start: int,
    num: nat,
    block_size: nat,
    columns: Seq<Column>,
    wanted: Option<Seq<bool>>,
) -> Result<Seq<Seq<Val>>, Fault>
    decreases num,
{
    if num == 0 {
        Ok(Seq::empty())
    } else {
        match table_rows(disk, start, (num - 1) as nat, block_size, columns, wanted) {
            Err(e) => Err(e),
            Ok(before) => match seen(disk[start + num - 1], block_size, columns, wanted) {
                Err(e) => Err(e),
                Ok((rows, _)) => Ok(before + rows),
            },
        }
    }
}

/// A bound on the steps that a scan still takes.
pub open spec fn steps_left(s: Scan) -> nat {
    match s.phase {
        Phase::Search { low, high, .. } => (high - low + s.num + 1) as nat,
        Phase::Read { remaining, .. } => remaining as nat,
    }
}

proof fn lemma_step(s: Scan, data: Seq<u8>)
    requires
        s.wf(),
        scanner::scan_request(s) is Some,
    ensures
        scanner::scan_accept(s, data).0.wf(),
        steps_left(scanner::scan_accept(s, data).0) < steps_left(s),
{
}

/// All rows that a scan gives, and what went wrong, where the disk holds `disk`.
pub open spec fn scan_run(s: Scan, disk: Map<int, Seq<u8>>) -> (Seq<Seq<Val>>, Option<Fault>)
    decreases steps_left(s),
    when s.wf()
    via scan_run_decreases
{
    match scanner::scan_request(s) {
        None => (Seq::empty(), None),
        Some((b, n)) => {
            let got = scanner::scan_accept(s, cache::disk_blocks(disk, b, n as nat));
            match got.2 {
                Some(e) => (got.1, Some(e)),
                None => {
                    let rest = scan_run(got.0, disk);
                    (got.1 + rest.0, rest.1)
                },
            }
        },
    }
}

#[via_fn]
proof fn scan_run_decreases(s: Scan, disk: Map<int, Seq<u8>>) {
    match scanner::scan_request(s) {
        None => {},
        Some((b, n)) => {
            lemma_step(s, cache::disk_blocks(disk, b, n as nat));
        },
    }
}

// ---- the rows up to the end of a scan ----

/// The rows that pass up to the first that ends the scan, and whether one does.
pub open spec fn sieved(rows: Seq<Seq<Val>>, checks: Seq<Check>) -> (Seq<Seq<Val>>, bool)
    decreases rows.len(),
{
    if rows.len() == 0 {
        (Seq::empty(), false)
    } else {
        let rest = sieved(rows.drop_first(), checks);
        match scan::verdict(rows[0], checks) {
            PredicateResult::FailAndAbort => (Seq::empty(), true),
            PredicateResult::Fail => rest,
            PredicateResult::Pass => (seq![rows[0]] + rest.0, rest.1),
        }
    }
}

proof fn lemma_verdict_passes(r: Seq<Val>, checks: Seq<Check>)
    ensures
        scan::verdict(r, checks) == PredicateResult::Pass <==> meets_all(r, checks),
    decreases checks.len(),
{
    if checks.len() > 0 {
        let before = checks.drop_last();
        lemma_verdict_passes(r, before);
        if meets_all(r, checks) {
            assert forall|i: int| 0 <= i < before.len() implies meets(r, #[trigger] before[i]) by {
                assert(before[i] == checks[i]);
            }
            assert(meets(r, checks[checks.len() - 1]));
        }
        if scan::verdict(r, checks) == PredicateResult::Pass {
            assert forall|i: int| 0 <= i < checks.len() implies meets(r, #[trigger] checks[i]) by {
                if i < before.len() {
                    assert(meets(r, before[i]));
                }
            }
        }
    }
}

proof fn lemma_sieved_append(a: Seq<Seq<Val>>, b: Seq<Seq<Val>>, checks: Seq<Check>)
    ensures
        sieved(a + b, checks) == if sieved(a, checks).1 {
            sieved(a, checks)
        } else {
            (sieved(a, checks).0 + sieved(b, checks).0, sieved(b, checks).1)
        },
    decreases a.len(),
{
    if a.len() == 0 {
        assert(a + b =~= b);
        assert(sieved(a, checks).0 + sieved(b, checks).0 =~= sieved(b, checks).0);
    } else {
        assert((a + b).drop_first() =~= a.drop_first() + b);
        lemma_sieved_append(a.drop_first(), b, checks);
        let r = sieved(a.drop_first(), checks);
        assert(seq![a[0]] + (r.0 + sieved(b, checks).0) =~= (seq![a[0]] + r.0) + sieved(
            b,
            checks,
        ).0);
    }
}

/// Rows that are read in turn start with the first.
proof fn lemma_rows_first(
    data: Seq<u8>,
    offset: int,
    columns: Seq<Column>,
    wanted: Option<Seq<bool>>,
    n: nat,
)
    requires
        n > 0,
        block::rows_from(data, offset, columns, wanted, n) is Ok,
    ensures
        row::decode_some(data, offset, columns, wanted) matches Ok((r, end)) && (
        block::rows_from(data, end, columns, wanted, (n - 1) as nat) matches Ok((rest, last))
            && block::rows_from(data, offset, columns, wanted, n) == Ok::<
            (Seq<Seq<Val>>, int),
            Fault,
        >((seq![r] + rest, last))),
    decreases n,
{
    reveal_with_fuel(block::rows_from, 2);
    if n == 1 {
        let (r, end) = row::decode_some(data, offset, columns, wanted)->Ok_0;
        assert(Seq::<Seq<Val>>::empty().push(r) =~= seq![r] + Seq::empty());
    } else {
        lemma_rows_first(data, offset, columns, wanted, (n - 1) as nat);
        let (r, end) = row::decode_some(data, offset, columns, wanted)->Ok_0;
        let (rest, at) = block::rows_from(data, end, columns, wanted, (n - 2) as nat)->Ok_0;
        let (last, fin) = row::decode_some(data, at, columns, wanted)->Ok_0;
        assert((seq![r] + rest).push(last) =~= seq![r] + rest.push(last));
    }
}

proof fn lemma_block_sieved(
    data: Seq<u8>,
    offset: int,
    n: nat,
    columns: Seq<Column>,
    wanted: Option<Seq<bool>>,
    checks: Seq<Check>,
)
    requires
        block::rows_from(data, offset, columns, wanted, n) is Ok,
    ensures
        ({
            let rows = block::rows_from(data, offset, columns, wanted, n)->Ok_0.0;
            scanner::scan_block(data, offset, n, columns, wanted, checks) == (
                sieved(rows, checks).0,
                if sieved(rows, checks).1 {
                    ScanEnd::Aborted
                } else {
                    ScanEnd::More
                },
            )
        }),
    decreases n,
{
    if n > 0 {
        lemma_rows_first(data, offset, columns, wanted, n);
        let (r, end) = row::decode_some(data, offset, columns, wanted)->Ok_0;
        let rows = block::rows_from(data, offset, columns, wanted, n)->Ok_0.0;
        let rest = block::rows_from(data, end, columns, wanted, (n - 1) as nat)->Ok_0.0;
        assert(rows.drop_first() =~= rest);
        lemma_block_sieved(data, end, (n - 1) as nat, columns, wanted, checks);
    }
}

/// The rows of blocks are those of the first and then those of the others.
pub proof fn lemma_table_split(
    disk: Map<int, Seq<u8>>,
    start: int,
    a: nat,
    b: nat,
    block_size: nat,
    columns: Seq<Column>,
    wanted: Option<Seq<bool>>,
)
    requires
        table_rows(disk, start, a + b, block_size, columns, wanted) is Ok,
    ensures
        table_rows(disk, start, a, block_size, columns, wanted) is Ok,
        table_rows(disk, start + a, b, block_size, columns, wanted) is Ok,
        table_rows(disk, start, a + b, block_size, columns, wanted)->Ok_0 == table_rows(
            disk,
            start,
            a,
            block_size,
            columns,
            wanted,
        )->Ok_0 + table_rows(disk, start + a, b, block_size, columns, wanted)->Ok_0,
    decreases b,
{
    let whole = table_rows(disk, start, a + b, block_size, columns, wanted);
    if b == 0 {
        assert(whole->Ok_0 =~= whole->Ok_0 + Seq::empty());
    } else {
        lemma_table_split(disk, start, a, (b - 1) as nat, block_size, columns, wanted);
        assert((start + a) + b - 1 == start + (a + b) - 1);
        assert((a + b - 1) as nat == a + (b - 1) as nat);
        let first = table_rows(disk, start, a, block_size, columns, wanted)->Ok_0;
        let mid = table_rows(
            disk,
            start + a,
            (b - 1) as nat,
            block_size,
            columns,
            wanted,
        )->Ok_0;
        let last = seen(disk[start + (a + b) - 1], block_size, columns, wanted)->Ok_0.0;
        assert((first + mid) + last =~= first + (mid + last));
    }
}

/// The rows of blocks one behind the other.
pub proof fn lemma_table_join(
    disk: Map<int, Seq<u8>>,
    start: int,
    a: nat,
    b: nat,
    block_size: nat,
    columns: Seq<Column>,
    wanted: Option<Seq<bool>>,
)
    requires
        table_rows(disk, start, a, block_size, columns, wanted) is Ok,
        table_rows(disk, start + a, b, block_size, columns, wanted) is Ok,
    ensures
        table_rows(disk, start, a + b, block_size, columns, wanted) == Ok::<Seq<Seq<Val>>, Fault>(
            table_rows(disk, start, a, block_size, columns, wanted)->Ok_0 + table_rows(
                disk,
                start + a,
                b,
                block_size,
                columns,
                wanted,
            )->Ok_0,
        ),
    decreases b,
{
    let first = table_rows(disk, start, a, block_size, columns, wanted)->Ok_0;
    if b == 0 {
        assert(first + Seq::empty() =~= first);
    } else {
        lemma_table_join(disk, start, a, (b - 1) as nat, block_size, columns, wanted);
        assert((start + a) + b - 1 == start + (a + b) - 1);
        assert((a + b - 1) as nat == a + (b - 1) as nat);
        let mid = table_rows(
            disk,
            start + a,
            (b - 1) as nat,
            block_size,
            columns,
            wanted,
        )->Ok_0;
        let last = seen(disk[start + (a + b) - 1], block_size, columns, wanted)->Ok_0.0;
        assert((first + mid) + last =~= first + (mid + last));
    }
}

/// The rows of one block.
pub proof fn lemma_table_one(
    disk: Map<int, Seq<u8>>,
    start: int,
    block_size: nat,
    columns: Seq<Column>,
    wanted: Option<Seq<bool>>,
)
    ensures
        table_rows(disk, start, 1, block_size, columns, wanted) == match seen(
            disk[start],
            block_size,
            columns,
            wanted,
        ) {
            Ok((rows, _)) => Ok::<Seq<Seq<Val>>, Fault>(rows),
            Err(e) => Err(e),
        },
{
    assert(table_rows(disk, start, 0, block_size, columns, wanted) == Ok::<
        Seq<Seq<Val>>,
        Fault,
    >(Seq::empty()));
    match seen(disk[start], block_size, columns, wanted) {
        Ok((rows, _)) => {
            assert(Seq::<Seq<Val>>::empty() + rows =~= rows);
        },
        Err(_) => {},
    }
}

pub proof fn lemma_nth_of_disk(disk: Map<int, Seq<u8>>, start: int, n: nat, i: int, block_size: nat)
    requires
        cache::uniform(disk, block_size),
        0 <= i < n,
    ensures
        block::nth_block(cache::disk_blocks(disk, start, n), block_size, i) == disk[start + i],
{
    cache::lemma_blocks_of_disk(disk, start, n, i as nat, block_size);
}

/// Blocks that are the same hold the same rows.
pub proof fn lemma_same_rows(
    disk: Map<int, Seq<u8>>,
    other: Map<int, Seq<u8>>,
    end: int,
    start: int,
    num: nat,
    block_size: nat,
    columns: Seq<Column>,
)
    requires
        cache::same_before(disk, other, end),
        start + num <= end,
    ensures
        table_rows(other, start, num, block_size, columns, None)
            == table_rows(disk, start, num, block_size, columns, None),
    decreases num,
{
    if num > 0 {
        lemma_same_rows(disk, other, end, start, (num - 1) as nat, block_size, columns);
        assert(other[start + num - 1] == disk[start + num - 1]);
    }
}

/// The rows of blocks of a disk are the rows of the blocks once they have been read.
pub proof fn lemma_table_is_blocks(
    disk: Map<int, Seq<u8>>,
    start: int,
    n: nat,
    k: nat,
    block_size: nat,
    columns: Seq<Column>,
)
    requires
        block_size >= 2,
        cache::uniform(disk, block_size),
        k <= n,
    ensures
        table_rows(disk, start, k, block_size, columns, None) == block::blocks_rows(
            cache::disk_blocks(disk, start, n),
            block_size,
            columns,
            k,
        ),
    decreases k,
{
    if k > 0 {
        lemma_table_is_blocks(disk, start, n, (k - 1) as nat, block_size, columns);
        lemma_nth_of_disk(disk, start, n, k - 1, block_size);
        assert(disk[start + k - 1].len() == block_size);
    }
}

proof fn lemma_chunk_sieved(
    disk: Map<int, Seq<u8>>,
    start: int,
    from: nat,
    n: nat,
    block_size: nat,
    columns: Seq<Column>,
    wanted: Option<Seq<bool>>,
    checks: Seq<Check>,
)
    requires
        from <= n,
        cache::uniform(disk, block_size),
        table_rows(disk, start + from, (n - from) as nat, block_size, columns, wanted) is Ok,
    ensures
        ({
            let rows = table_rows(
                disk,
                start + from,
                (n - from) as nat,
                block_size,
                columns,
                wanted,
            )->Ok_0;
            scanner::scan_chunk(
                cache::disk_blocks(disk, start, n),
                block_size,
                from,
                n,
                columns,
                wanted,
                checks,
            ) == (
                sieved(rows, checks).0,
                if sieved(rows, checks).1 {
                    ScanEnd::Aborted
                } else {
                    ScanEnd::More
                },
            )
        }),
    decreases n - from,
{
    if from < n {
        let data = cache::disk_blocks(disk, start, n);
        lemma_nth_of_disk(disk, start, n, from as int, block_size);
        let b = disk[start + from];
        let left = (n - from) as nat;
        assert(left == 1 + (left - 1) as nat);
        lemma_table_split(
            disk,
            start + from,
            1,
            (left - 1) as nat,
            block_size,
            columns,
            wanted,
        );
        lemma_table_one(disk, start + from, block_size, columns, wanted);
        let here = seen(b, block_size, columns, wanted)->Ok_0.0;
        lemma_block_sieved(
            b,
            0,
            block::block_count(b, block_size),
            columns,
            wanted,
            checks,
        );
        assert(start + from + 1 == start + (from + 1));
        lemma_chunk_sieved(disk, start, from + 1, n, block_size, columns, wanted, checks);
        let rest = table_rows(
            disk,
            start + from + 1,
            (left - 1) as nat,
            block_size,
            columns,
            wanted,
        )->Ok_0;
        lemma_sieved_append(here, rest, checks);
    }
}

/// A scan that reads gives the rows that pass, up to one that ends it.
proof fn lemma_read_sieved(s: Scan, disk: Map<int, Seq<u8>>)
    requires
        s.wf(),
        s.phase is Read,
        cache::uniform(disk, s.block_size),
        ({
            let (next, remaining) = (s.phase->next, s.phase->remaining);
            table_rows(disk, next, remaining as nat, s.block_size, s.columns, s.wanted) is Ok
        }),
    ensures
        ({
            let (next, remaining) = (s.phase->next, s.phase->remaining);
            let rows = table_rows(
                disk,
                next,
                remaining as nat,
                s.block_size,
                s.columns,
                s.wanted,
            )->Ok_0;
            scan_run(s, disk) == (sieved(rows, s.checks).0, None::<Fault>)
        }),
    decreases steps_left(s),
{
    let (next, remaining) = (s.phase->next, s.phase->remaining);
    let rows = table_rows(
        disk,
        next,
        remaining as nat,
        s.block_size,
        s.columns,
        s.wanted,
    )->Ok_0;
    if remaining > 0 {
        let n = if remaining < s.chunk {
            remaining
        } else {
            s.chunk
        };
        let data = cache::disk_blocks(disk, next, n as nat);
        lemma_step(s, data);
        assert(remaining as nat == n as nat + (remaining - n) as nat);
        lemma_table_split(
            disk,
            next,
            n as nat,
            (remaining - n) as nat,
            s.block_size,
            s.columns,
            s.wanted,
        );
        let here = table_rows(disk, next, n as nat, s.block_size, s.columns, s.wanted)->Ok_0;
        let rest = table_rows(
            disk,
            next + n,
            (remaining - n) as nat,
            s.block_size,
            s.columns,
            s.wanted,
        )->Ok_0;
        assert(next + 0 == next);
        lemma_chunk_sieved(
            disk,
            next,
            0,
            n as nat,
            s.block_size,
            s.columns,
            s.wanted,
            s.checks,
        );
        lemma_sieved_append(here, rest, s.checks);
        let after = scanner::scan_accept(s, data).0;
        if sieved(here, s.checks).1 {
            assert(scanner::scan_request(after) is None);
            assert(scan_run(after, disk) == (Seq::<Seq<Val>>::empty(), None::<Fault>));
            assert(sieved(here, s.checks).0 + Seq::empty() =~= sieved(here, s.checks).0);
        } else {
            lemma_read_sieved(after, disk);
        }
    }
}

/// The block `k` of a scan has a first row, and that row lies below the target.
spec fn starts_below(
    disk: Map<int, Seq<u8>>,
    s: Scan,
    k: int,
    col: int,
    target: Val,
) -> bool {
    let b = disk[s.start + k];
    &&& block::block_count(b, s.block_size) > 0
    &&& row::decode_some(b, 0, s.columns, s.wanted) matches Ok((r, _)) && !scanner::at_least(
        value::val_order(r[col], target),
    )
}

/// A scan that searches goes on to read from some block on, and that block is the
/// best one so far, or starts below the target.
proof fn lemma_search_reads(s: Scan, disk: Map<int, Seq<u8>>) -> (k: int)
    requires
        s.wf(),
        s.phase is Search,
        cache::uniform(disk, s.block_size),
        table_rows(disk, s.start, s.num as nat, s.block_size, s.columns, s.wanted) is Ok,
    ensures
        0 <= k <= s.num,
        k == s.phase->best || (k < s.num && starts_below(
            disk,
            s,
            k,
            s.phase->col,
            s.phase->target,
        )),
        ({
            let rows = table_rows(
                disk,
                s.start + k,
                (s.num - k) as nat,
                s.block_size,
                s.columns,
                s.wanted,
            );
            rows is Ok && scan_run(s, disk) == (sieved(rows->Ok_0, s.checks).0, None::<Fault>)
        }),
    decreases steps_left(s),
{
    let (low, high, best) = (s.phase->low, s.phase->high, s.phase->best);
    let (col, target) = (s.phase->col, s.phase->target);
    let mid = low + (high - low) / 2;
    let b = s.start + mid;
    let data = cache::disk_blocks(disk, b, 1);
    assert(cache::disk_blocks(disk, b, 0) =~= Seq::empty());
    assert(data =~= disk[b]);
    lemma_step(s, data);
    // The block that is looked at can be decoded.
    assert(s.num as nat == mid as nat + (s.num - mid) as nat);
    lemma_table_split(
        disk,
        s.start,
        mid as nat,
        (s.num - mid) as nat,
        s.block_size,
        s.columns,
        s.wanted,
    );
    assert((s.num - mid) as nat == 1 + (s.num - mid - 1) as nat);
    lemma_table_split(
        disk,
        b,
        1,
        (s.num - mid - 1) as nat,
        s.block_size,
        s.columns,
        s.wanted,
    );
    lemma_table_one(disk, b, s.block_size, s.columns, s.wanted);
    if block::block_count(data, s.block_size) > 0 {
        lemma_rows_first(
            data,
            0,
            s.columns,
            s.wanted,
            block::block_count(data, s.block_size),
        );
    }
    let got = scanner::scan_accept(s, data);
    let after = got.0;
    assert(got.2 is None);
    assert(got.1 =~= Seq::empty());
    assert(scan_run(s, disk).0 =~= scan_run(after, disk).0);
    if after.phase is Search {
        let k = lemma_search_reads(after, disk);
        k
    } else {
        let k = after.phase->next - s.start;
        assert(s.num as nat == k as nat + (s.num - k) as nat);
        lemma_table_split(
            disk,
            s.start,
            k as nat,
            (s.num - k) as nat,
            s.block_size,
            s.columns,
            s.wanted,
        );
        lemma_read_sieved(after, disk);
        k
    }
}

// ---- nothing that passes is skipped ----

/// Whether rows ascend in a column.
pub open spec fn ascend(rows: Seq<Seq<Val>>, col: int) -> bool {
    forall|i: int, j: int|
        0 <= i <= j < rows.len() ==> value::at_most(
            value::val_order(#[trigger] rows[i][col], #[trigger] rows[j][col]),
        )
}

/// Whether the rows are in the order that the table claims of the columns of the tests.
pub open spec fn order_is_true(t: Table, tests: Seq<Test>, rows: Seq<Seq<Val>>) -> bool {
    forall|i: int|
        #![trigger tests[i]]
        0 <= i < tests.len() && scan::test_ordered(t, tests[i]) ==> (schema::column_index(
            schema::table_columns(t),
            tests[i].column,
        ) matches Some(c) ==> ascend(rows, c))
}

/// Whether a statistic of a column is true of the rows.
pub open spec fn stat_is_true(stat: Stat, rows: Seq<Seq<Val>>, col: int) -> bool {
    match stat {
        Stat::Range(r) => forall|i: int|
            0 <= i < rows.len() ==> scan::in_range(r, #[trigger] rows[i][col]),
        Stat::Histogram(h) => forall|i: int|
            0 <= i < rows.len() ==> scan::in_some_range(h, #[trigger] rows[i][col]),
        _ => true,
    }
}

/// Whether the ranges and histograms of the columns of the tests are true of the rows.
pub open spec fn stats_are_true(t: Table, tests: Seq<Test>, rows: Seq<Seq<Val>>) -> bool {
    forall|i: int, k: int|
        #![trigger tests[i], column_stats(t, tests[i].column)[k]]
        0 <= i < tests.len() && 0 <= k < column_stats(t, tests[i].column).len() ==> stat_is_true(
            column_stats(t, tests[i].column)[k],
            rows,
            query::spec_index(t.columns, tests[i].column)->Some_0,
        )
}

/// The statistics of a column of a table.
pub open spec fn column_stats(t: Table, name: Seq<char>) -> Seq<Stat> {
    match query::spec_index(t.columns, name) {
        Some(c) => match t.columns[c].stats {
            Some(stats) => stats,
            None => Seq::empty(),
        },
        None => Seq::empty(),
    }
}

pub proof fn lemma_column_is_spec(columns: Seq<TableColumn>, name: Seq<char>)
    ensures
        schema::column_index(
            columns.map_values(
                |c: TableColumn| Column { name: c.name, data_type: c.data_type },
            ),
            name,
        ) == query::spec_index(columns, name),
    decreases columns.len(),
{
    let mapped = columns.map_values(
        |c: TableColumn| Column { name: c.name, data_type: c.data_type },
    );
    let p = |c: Column| c.name == name;
    let q = |c: TableColumn| c.name == name;
    seqs::lemma_first_where(columns, q);
    match seqs::first_where(columns, q) {
        Some(i) => {
            assert forall|j: int| 0 <= j < i implies !p(#[trigger] mapped[j]) by {
                assert(!q(columns[j]));
            }
            seqs::lemma_first_where_is(mapped, p, i);
        },
        None => {
            assert forall|j: int| 0 <= j < mapped.len() implies !p(#[trigger] mapped[j]) by {
                assert(!q(columns[j]));
            }
            seqs::lemma_first_where_none(mapped, p);
        },
    }
}

/// A test that has a compiled form is among the checks.
proof fn lemma_check_present(columns: Seq<Column>, tests: Seq<Test>, ordered: Seq<bool>, i: int)
    requires
        0 <= i < tests.len(),
        scan::check_of(columns, tests[i], ordered[i]) is Some,
    ensures
        scan::checks_of(columns, tests, ordered).contains(
            scan::check_of(columns, tests[i], ordered[i])->Some_0,
        ),
    decreases tests.len(),
{
    let before = scan::checks_of(columns, tests.drop_last(), ordered);
    let all = scan::checks_of(columns, tests, ordered);
    let c = scan::check_of(columns, tests[i], ordered[i])->Some_0;
    if i == tests.len() - 1 {
        assert(all == before.push(c));
        assert(all[before.len() as int] == c);
    } else {
        assert(tests.drop_last()[i] == tests[i]);
        lemma_check_present(columns, tests.drop_last(), ordered, i);
        let k = choose|k: int| 0 <= k < before.len() && before[k] == c;
        assert(all[k] == c);
    }
}

/// A check is the compiled form of a test.
proof fn lemma_check_origin(columns: Seq<Column>, tests: Seq<Test>, ordered: Seq<bool>, k: int) -> (i:
    int)
    requires
        0 <= k < scan::checks_of(columns, tests, ordered).len(),
    ensures
        0 <= i < tests.len(),
        scan::check_of(columns, tests[i], ordered[i]) == Some(
            scan::checks_of(columns, tests, ordered)[k],
        ),
    decreases tests.len(),
{
    let before = scan::checks_of(columns, tests.drop_last(), ordered);
    if k < before.len() {
        let i = lemma_check_origin(columns, tests.drop_last(), ordered, k);
        assert(tests.drop_last()[i] == tests[i]);
        i
    } else {
        tests.len() - 1
    }
}

/// The check that ended the scan.
proof fn lemma_abort_check(r: Seq<Val>, checks: Seq<Check>) -> (k: int)
    requires
        scan::verdict(r, checks) == PredicateResult::FailAndAbort,
    ensures
        0 <= k < checks.len(),
        scan::check_verdict(r, checks[k]) == PredicateResult::FailAndAbort,
    decreases checks.len(),
{
    if scan::verdict(r, checks.drop_last()) == PredicateResult::FailAndAbort {
        lemma_abort_check(r, checks.drop_last())
    } else {
        checks.len() - 1
    }
}

/// Behind a row that ended the scan no row passes.
proof fn lemma_abort_is_final(
    t: Table,
    tests: Seq<Test>,
    rows: Seq<Seq<Val>>,
    i: int,
    j: int,
)
    requires
        order_is_true(t, tests, rows),
        0 <= i <= j < rows.len(),
        scan::verdict(
            rows[i],
            scan::checks_of(schema::table_columns(t), tests, scan::tests_ordered(t, tests)),
        ) == PredicateResult::FailAndAbort,
    ensures
        !meets_all(
            rows[j],
            scan::checks_of(schema::table_columns(t), tests, scan::tests_ordered(t, tests)),
        ),
{
    let columns = schema::table_columns(t);
    let ordered = scan::tests_ordered(t, tests);
    let checks = scan::checks_of(columns, tests, ordered);
    let k = lemma_abort_check(rows[i], checks);
    let c = checks[k];
    let n = lemma_check_origin(columns, tests, ordered, k);
    assert(ordered[n] == scan::test_ordered(t, tests[n]));
    let v = c.right->Literal_0;
    let (a, b) = (rows[i][c.left], rows[j][c.left]);
    assert(value::at_most(value::val_order(a, b)));
    value::order_is_antisymmetric(a, v);
    value::order_is_antisymmetric(b, v);
    value::order_is_transitive(v, a, b);
    assert(!meets(rows[j], checks[k]));
}

/// Where a row that ends the scan is followed by none that passes, the rows up to it
/// are all that pass.
proof fn lemma_sieved_passing(rows: Seq<Seq<Val>>, checks: Seq<Check>)
    requires
        forall|i: int, j: int|
            0 <= i <= j < rows.len() && scan::verdict(#[trigger] rows[i], checks)
                == PredicateResult::FailAndAbort ==> !meets_all(#[trigger] rows[j], checks),
    ensures
        sieved(rows, checks).0 == passing(rows, checks),
    decreases rows.len(),
{
    let p = |r: Seq<Val>| meets_all(r, checks);
    if rows.len() == 0 {
        reveal(Seq::filter);
        assert(passing(rows, checks) =~= Seq::empty());
    } else {
        let rest = rows.drop_first();
        assert(rows =~= seq![rows[0]] + rest);
        rest.lemma_filter_prepend(rows[0], p);
        lemma_verdict_passes(rows[0], checks);
        if scan::verdict(rows[0], checks) == PredicateResult::FailAndAbort {
            assert forall|j: int| 0 <= j < rows.len() implies !p(#[trigger] rows[j]) by {
                assert(rows[0] == rows[0]);
            }
            lemma_none_pass(rows, checks);
        } else {
            assert forall|i: int, j: int|
                0 <= i <= j < rest.len() && scan::verdict(#[trigger] rest[i], checks)
                    == PredicateResult::FailAndAbort implies !meets_all(
                #[trigger] rest[j],
                checks,
            ) by {
                assert(rest[i] == rows[i + 1] && rest[j] == rows[j + 1]);
            }
            lemma_sieved_passing(rest, checks);
        }
    }
}

proof fn lemma_none_pass(rows: Seq<Seq<Val>>, checks: Seq<Check>)
    requires
        forall|j: int| 0 <= j < rows.len() ==> !meets_all(#[trigger] rows[j], checks),
    ensures
        passing(rows, checks) == Seq::<Seq<Val>>::empty(),
    decreases rows.len(),
{
    reveal(Seq::filter);
    if rows.len() > 0 {
        assert forall|j: int| 0 <= j < rows.drop_last().len() implies !meets_all(
            #[trigger] rows.drop_last()[j],
            checks,
        ) by {
            assert(rows.drop_last()[j] == rows[j]);
        }
        lemma_none_pass(rows.drop_last(), checks);
        assert(!meets_all(rows[rows.len() - 1], checks));
    }
}

/// Where the statistics are true and show that no row passes, none does.
proof fn lemma_excluded(t: Table, tests: Seq<Test>, rows: Seq<Seq<Val>>)
    requires
        stats_are_true(t, tests, rows),
        scan::table_excluded(t, tests),
    ensures
        passing(
            rows,
            scan::checks_of(schema::table_columns(t), tests, scan::tests_ordered(t, tests)),
        ) == Seq::<Seq<Val>>::empty(),
{
    let columns = schema::table_columns(t);
    let ordered = scan::tests_ordered(t, tests);
    let checks = scan::checks_of(columns, tests, ordered);
    let i = choose|i: int|
        0 <= i < tests.len() && scan::test_excluded(t, #[trigger] tests[i]);
    let test = tests[i];
    lemma_column_is_spec(t.columns, test.column);
    seqs::lemma_first_where(t.columns, |c: TableColumn| c.name == test.column);
    let col = query::spec_index(t.columns, test.column)->Some_0;
    let stats = t.columns[col].stats->Some_0;
    let v = row::coerced(test.value, t.columns[col].data_type)->Some_0;
    let k = choose|k: int|
        0 <= k < stats.len() && scan::excludes(#[trigger] stats[k], test.operator, v);
    assert(columns[col].data_type == t.columns[col].data_type);
    let check = scan::check_of(columns, test, ordered[i])->Some_0;
    lemma_check_present(columns, tests, ordered, i);
    let n = choose|n: int| 0 <= n < checks.len() && checks[n] == check;
    assert(stat_is_true(column_stats(t, tests[i].column)[k], rows, col));
    assert forall|j: int| 0 <= j < rows.len() implies !meets_all(#[trigger] rows[j], checks) by {
        let x = rows[j][col];
        if meets(rows[j], checks[n]) {
            match stats[k] {
                Stat::Range(r) => {
                    assert(scan::in_range(r, rows[j][col]));
                    lemma_in_range_moves(r, x, v);
                },
                Stat::Histogram(h) => {
                    assert(scan::in_some_range(h, rows[j][col]));
                    let b = choose|b: int|
                        0 <= b < h.len() && scan::in_range((#[trigger] h[b]).0, x);
                    lemma_in_range_moves(h[b].0, x, v);
                    assert(scan::in_range(h[b].0, v));
                },
                _ => {},
            }
        }
    }
    lemma_none_pass(rows, checks);
}

/// What a range says of a value, it says of the values that compare with it.
proof fn lemma_in_range_moves(r: query::Range, x: Val, v: Val)
    requires
        scan::in_range(r, x),
    ensures
        value::val_order(x, v) == Some(Order::Equal) ==> scan::in_range(r, v),
        value::val_order(x, v) == Some(Order::Less) ==> value::val_order(r.lower, v) == Some(
            Order::Less,
        ),
        value::at_most(value::val_order(x, v)) ==> value::at_most(value::val_order(r.lower, v)),
        value::val_order(x, v) == Some(Order::Greater) ==> value::val_order(r.upper, v) == Some(
            Order::Greater,
        ),
        value::at_most(value::flipped(value::val_order(x, v))) ==> value::at_most(
            value::flipped(value::val_order(r.upper, v)),
        ),
{
    value::order_is_antisymmetric(r.upper, x);
    value::order_is_antisymmetric(r.upper, v);
    value::order_is_antisymmetric(x, v);
    if value::at_most(value::val_order(x, v)) {
        value::order_is_transitive(r.lower, x, v);
    }
    if value::at_most(value::val_order(v, x)) {
        value::order_is_transitive(v, x, r.upper);
    }
}

/// The search of a scan comes from a test that is among the checks.
proof fn lemma_search_origin(t: Table, columns: Seq<Column>, tests: Seq<Test>, from: int) -> (i: int)
    requires
        0 <= from,
        scanner::search_of(t, columns, tests, from) is Some,
    ensures
        from <= i < tests.len(),
        scan::test_ordered(t, tests[i]),
        scanner::bounded_below(tests[i].operator),
        ({
            let (c, v) = scanner::search_of(t, columns, tests, from)->Some_0;
            &&& schema::column_index(columns, tests[i].column) == Some(c)
            &&& row::coerced(tests[i].value, columns[c].data_type) == Some(v)
        }),
    decreases tests.len() - from,
{
    let found = match schema::column_index(columns, tests[from].column) {
        Some(c) => match row::coerced(tests[from].value, columns[c].data_type) {
            Some(v) => Some((c, v)),
            None => None,
        },
        None => None,
    };
    if scan::test_ordered(t, tests[from]) && scanner::bounded_below(tests[from].operator)
        && found is Some {
        from
    } else {
        lemma_search_origin(t, columns, tests, from + 1)
    }
}

/// A scan gives the rows of its table that meet the checks, in their order, whatever
/// blocks it skips, provided that what the table claims of its columns is true.
#[verifier::rlimit(40)]
pub proof fn scan_gives_the_rows_that_pass(
    t: Table,
    tests: Seq<Test>,
    wanted: Option<Seq<bool>>,
    start: int,
    num: int,
    block_size: nat,
    memory_limit_mb: int,
    disk: Map<int, Seq<u8>>,
    rows: Seq<Seq<Val>>,
)
    requires
        block_size >= 2,
        0 <= start,
        0 <= num,
        start + num <= u64::MAX,
        wanted matches Some(w) ==> w.len() >= t.columns.len(),
        cache::uniform(disk, block_size),
        table_rows(disk, start, num as nat, block_size, schema::table_columns(t), wanted) == Ok::<
            Seq<Seq<Val>>,
            Fault,
        >(rows),
        order_is_true(t, tests, rows),
        stats_are_true(t, tests, rows),
    ensures
        scan_run(
            scanner::scan_start(t, tests, wanted, start, num, block_size, memory_limit_mb),
            disk,
        ) == (
            passing(
                rows,
                scan::checks_of(schema::table_columns(t), tests, scan::tests_ordered(t, tests)),
            ),
            None::<Fault>,
        ),
{
    let s = scanner::scan_start(t, tests, wanted, start, num, block_size, memory_limit_mb);
    let columns = schema::table_columns(t);
    let ordered = scan::tests_ordered(t, tests);
    let checks = scan::checks_of(columns, tests, ordered);
    scanner::lemma_checks_within(columns, tests, ordered);
    if scanner::search_of(t, columns, tests, 0) is Some {
        let i = lemma_search_origin(t, columns, tests, 0);
        seqs::lemma_first_where(columns, |c: Column| c.name == tests[i].column);
    }
    assert(s.wf());
    assert forall|i: int, j: int|
        0 <= i <= j < rows.len() && scan::verdict(#[trigger] rows[i], checks)
            == PredicateResult::FailAndAbort implies !meets_all(#[trigger] rows[j], checks) by {
        lemma_abort_is_final(t, tests, rows, i, j);
    }
    lemma_sieved_passing(rows, checks);
    if scan::table_excluded(t, tests) {
        lemma_excluded(t, tests, rows);
        assert(scanner::scan_request(s) is None);
    } else if s.phase is Read {
        lemma_read_sieved(s, disk);
    } else {
        let k = lemma_search_reads(s, disk);
        assert(num as nat == k as nat + (num - k) as nat);
        lemma_table_split(
            disk,
            start,
            k as nat,
            (num - k) as nat,
            block_size,
            columns,
            wanted,
        );
        let a = table_rows(disk, start, k as nat, block_size, columns, wanted)->Ok_0;
        let b = table_rows(
            disk,
            start + k,
            (num - k) as nat,
            block_size,
            columns,
            wanted,
        )->Ok_0;
        assert forall|i: int, j: int|
            0 <= i <= j < b.len() && scan::verdict(#[trigger] b[i], checks)
                == PredicateResult::FailAndAbort implies !meets_all(#[trigger] b[j], checks) by {
            assert(b[i] == rows[a.len() + i] && b[j] == rows[a.len() + j]);
        }
        lemma_sieved_passing(b, checks);
        let p = |r: Seq<Val>| meets_all(r, checks);
        Seq::filter_distributes_over_add(a, b, p);
        if k == 0 {
            assert(a =~= Seq::empty());
        } else {
            lemma_skipped_fail(t, tests, wanted, start, num, block_size, disk, rows, k, s);
        }
        lemma_none_pass(a, checks);
        assert(passing(a, checks) + passing(b, checks) =~= passing(b, checks));
    }
}

/// A value up to one that is not at least a third value is below the third, or does not
/// compare with it.
proof fn lemma_not_beyond(a: Val, b: Val, v: Val)
    requires
        value::at_most(value::val_order(a, b)),
        value::at_most(value::val_order(b, b)),
        !scanner::at_least(value::val_order(b, v)),
    ensures
        !scanner::at_least(value::val_order(a, v)),
{
    if value::at_most(value::val_order(b, v)) {
        value::order_is_transitive(a, b, v);
    }
}

/// The rows before the block at which a search ends do not pass.
proof fn lemma_skipped_fail(
    t: Table,
    tests: Seq<Test>,
    wanted: Option<Seq<bool>>,
    start: int,
    num: int,
    block_size: nat,
    disk: Map<int, Seq<u8>>,
    rows: Seq<Seq<Val>>,
    k: int,
    s: Scan,
)
    requires
        s.columns == schema::table_columns(t),
        s.wanted == wanted,
        s.start == start,
        s.block_size == block_size,
        0 < k < num,
        table_rows(disk, start, num as nat, block_size, s.columns, wanted) == Ok::<
            Seq<Seq<Val>>,
            Fault,
        >(rows),
        order_is_true(t, tests, rows),
        scanner::search_of(t, s.columns, tests, 0) matches Some((c, v)) && starts_below(
            disk,
            s,
            k,
            c,
            v,
        ),
    ensures
        table_rows(disk, start, k as nat, block_size, s.columns, wanted) matches Ok(a) && forall|j: int|

            0 <= j < a.len() ==> !meets_all(
                #[trigger] a[j],
                scan::checks_of(s.columns, tests, scan::tests_ordered(t, tests)),
            ),
{
    let columns = s.columns;
    let ordered = scan::tests_ordered(t, tests);
    let checks = scan::checks_of(columns, tests, ordered);
    let (c, v) = scanner::search_of(t, columns, tests, 0)->Some_0;
    assert(num as nat == k as nat + (num - k) as nat);
    lemma_table_split(disk, start, k as nat, (num - k) as nat, block_size, columns, wanted);
    assert((num - k) as nat == 1 + (num - k - 1) as nat);
    lemma_table_split(disk, start + k, 1, (num - k - 1) as nat, block_size, columns, wanted);
    lemma_table_one(disk, start + k, block_size, columns, wanted);
    let a = table_rows(disk, start, k as nat, block_size, columns, wanted)->Ok_0;
    let b = disk[start + k];
    lemma_rows_first(b, 0, columns, wanted, block::block_count(b, block_size));
    let first = row::decode_some(b, 0, columns, wanted)->Ok_0.0;
    assert(rows[a.len() as int] == first);
    let i = lemma_search_origin(t, columns, tests, 0);
    assert(ordered[i] == scan::test_ordered(t, tests[i]));
    let check = scan::check_of(columns, tests[i], ordered[i])->Some_0;
    lemma_check_present(columns, tests, ordered, i);
    let n = choose|n: int| 0 <= n < checks.len() && checks[n] == check;
    assert forall|j: int| 0 <= j < a.len() implies !meets_all(#[trigger] a[j], checks) by {
        assert(a[j] == rows[j]);
        assert(value::at_most(value::val_order(rows[j][c], rows[a.len() as int][c])));
        assert(value::at_most(value::val_order(rows[a.len() as int][c], rows[a.len() as int][c])));
        lemma_not_beyond(rows[j][c], rows[a.len() as int][c], v);
        assert(!meets(a[j], checks[n]));
    }
}

} // verus!
