//! Laws of faults: what cannot be read or tested is told, and nothing that follows it is given.

use vstd::prelude::*;

use crate::block;
use crate::block_laws;
use crate::error::Fault;
use crate::ops::cross;
use crate::ops::join_laws;
use crate::ops::joiner;
use crate::ops::merge::Merging;
use crate::ops::merge;
use crate::ops::scan::{Check, PredicateResult};
use crate::ops::scan;
use crate::ops::scanner::{Phase, Scan, ScanEnd};
use crate::ops::scanner;
use crate::query::Test;
use crate::row;
use crate::schema::Column;
use crate::value::{DataType, Val};

verus! {

// ---- rows ----

/// A row that is read has a value of its type for each column, and stands there as it is stored:
/// storing it gives the same bytes again.
pub proof fn a_row_that_is_read_is_stored_there(data: Seq<u8>, offset: int, columns: Seq<Column>)
    requires
        0 <= offset <= data.len(),
    ensures
        row::decode_vals(data, offset, columns) matches Ok((r, end)) ==> {
            &&& row::row_fits(r, columns)
            &&& offset <= end <= data.len()
            &&& data.subrange(offset, end) == row::encode_vals(r)
        },
    decreases columns.len(),
{
    if columns.len() == 0 {
        assert(data.subrange(offset, offset) =~= Seq::empty());
    } else {
        let before = columns.drop_last();
        a_row_that_is_read_is_stored_there(data, offset, before);
        if row::decode_vals(data, offset, columns) is Ok {
            let (r, end) = row::decode_vals(data, offset, columns)->Ok_0;
            let (some, at) = row::decode_vals(data, offset, before)->Ok_0;
            let t = columns.last().data_type;
            block_laws::what_is_read_is_stored_there(data, at, t);
            assert(r.drop_last() =~= some);
            assert(data.subrange(offset, end) =~= data.subrange(offset, at) + data.subrange(at, end));
            assert forall|i: int| 0 <= i < r.len() implies row::val_type(#[trigger] r[i])
                == columns[i].data_type by {
                if i < some.len() {
                    assert(row::val_type(some[i]) == before[i].data_type);
                }
            }
        }
    }
}

/// What cannot be read in front makes the whole row fail in the same way, and a row that is read
/// has in front what is read of the columns in front.
pub proof fn a_row_fails_at_its_first_column_that_does(
    data: Seq<u8>,
    offset: int,
    columns: Seq<Column>,
    wanted: Option<Seq<bool>>,
    k: int,
)
    requires
        0 <= k <= columns.len(),
    ensures
        match row::decode_some(data, offset, columns.take(k), wanted) {
            Err(e) => row::decode_some(data, offset, columns, wanted) == Err::<(Seq<Val>, int), Fault>(
                e,
            ),
            Ok((some, _)) => row::decode_some(data, offset, columns, wanted) matches Ok((r, _))
                ==> some.len() == k && r.len() == columns.len() && r.take(k) == some,
        },
    decreases columns.len(),
{
    if k == columns.len() {
        assert(columns.take(k) =~= columns);
        lemma_as_wide(data, offset, columns, wanted);
        if row::decode_some(data, offset, columns, wanted) is Ok {
            let r = row::decode_some(data, offset, columns, wanted)->Ok_0.0;
            assert(r.take(k) =~= r);
        }
    } else {
        let before = columns.drop_last();
        a_row_fails_at_its_first_column_that_does(data, offset, before, wanted, k);
        assert(before.take(k) =~= columns.take(k));
        if row::decode_some(data, offset, columns, wanted) is Ok {
            let r = row::decode_some(data, offset, columns, wanted)->Ok_0.0;
            let s = row::decode_some(data, offset, before, wanted)->Ok_0.0;
            assert(r.take(k) =~= s.take(k));
        }
    }
}

proof fn lemma_as_wide(
    data: Seq<u8>,
    offset: int,
    columns: Seq<Column>,
    wanted: Option<Seq<bool>>,
)
    ensures
        row::decode_some(data, offset, columns, wanted) matches Ok((r, _)) ==> r.len()
            == columns.len(),
    decreases columns.len(),
{
    if columns.len() > 0 {
        lemma_as_wide(data, offset, columns.drop_last(), wanted);
    }
}

/// Rows that are read are as many as were asked for. Where one cannot be read, the first such one
/// says why, and it stands behind those before it.
pub proof fn rows_fail_at_the_first_that_does(
    data: Seq<u8>,
    offset: int,
    columns: Seq<Column>,
    wanted: Option<Seq<bool>>,
    n: nat,
)
    ensures
        match block::rows_from(data, offset, columns, wanted, n) {
            Ok((rows, _)) => rows.len() == n,
            Err(e) => exists|i: nat|
                {
                    &&& i < n
                    &&& #[trigger] block::rows_from(data, offset, columns, wanted, i) matches Ok((_, at))
                        && row::decode_some(data, at, columns, wanted) == Err::<(Seq<Val>, int), Fault>(e)
                },
        },
    decreases n,
{
    if n > 0 {
        let m = (n - 1) as nat;
        rows_fail_at_the_first_that_does(data, offset, columns, wanted, m);
        match block::rows_from(data, offset, columns, wanted, m) {
            Ok(_) => {},
            Err(e) => {
                let i = choose|i: nat|
                    {
                        &&& i < m
                        &&& #[trigger] block::rows_from(data, offset, columns, wanted, i) matches Ok((
                            _,
                            at,
                        )) && row::decode_some(data, at, columns, wanted) == Err::<
                            (Seq<Val>, int),
                            Fault,
                        >(e)
                    };
                assert(block::rows_from(data, offset, columns, wanted, i) is Ok);
            },
        }
    }
}

/// The rows of a block are as many as it says, from its beginning on; a block too short to say a
/// number holds none.
pub proof fn a_block_gives_as_many_rows_as_it_says(
    b: Seq<u8>,
    block_size: nat,
    columns: Seq<Column>,
)
    ensures
        b.len() < 2 ==> block::block_rows(b, block_size, columns) == Ok::<Seq<Seq<Val>>, Fault>(
            Seq::empty(),
        ),
        b.len() >= 2 ==> match block::rows_from(
            b,
            0,
            columns,
            None,
            block::block_count(b, block_size),
        ) {
            Ok((rows, _)) => block::block_rows(b, block_size, columns) == Ok::<Seq<Seq<Val>>, Fault>(
                rows,
            ) && rows.len() == block::block_count(b, block_size),
            Err(e) => block::block_rows(b, block_size, columns) == Err::<Seq<Seq<Val>>, Fault>(e),
        },
{
    rows_fail_at_the_first_that_does(b, 0, columns, None, block::block_count(b, block_size));
}

/// Blocks give the rows of each in turn. Where one cannot be read, the first such one says why.
pub proof fn blocks_fail_at_the_first_that_does(
    data: Seq<u8>,
    block_size: nat,
    columns: Seq<Column>,
    n: nat,
)
    ensures
        match block::blocks_rows(data, block_size, columns, n) {
            Ok(_) => forall|i: int|
                0 <= i < n ==> block::block_rows(
                    #[trigger] block::nth_block(data, block_size, i),
                    block_size,
                    columns,
                ) is Ok,
            Err(e) => exists|i: int|
                {
                    &&& 0 <= i < n
                    &&& block::block_rows(
                        #[trigger] block::nth_block(data, block_size, i),
                        block_size,
                        columns,
                    ) == Err::<Seq<Seq<Val>>, Fault>(e)
                    &&& forall|j: int|
                        0 <= j < i ==> block::block_rows(
                            #[trigger] block::nth_block(data, block_size, j),
                            block_size,
                            columns,
                        ) is Ok
                },
        },
    decreases n,
{
    if n > 0 {
        blocks_fail_at_the_first_that_does(data, block_size, columns, (n - 1) as nat);
        let last = block::nth_block(data, block_size, n - 1);
        assert(block::block_rows(last, block_size, columns) is Ok || block::block_rows(
            last,
            block_size,
            columns,
        ) is Err);
    }
}

// ---- scans ----

/// Rows from a place on are the one there and those behind it.
proof fn lemma_rows_in_front(
    data: Seq<u8>,
    offset: int,
    columns: Seq<Column>,
    wanted: Option<Seq<bool>>,
    n: nat,
)
    requires
        n > 0,
    ensures
        match row::decode_some(data, offset, columns, wanted) {
            Err(e) => block::rows_from(data, offset, columns, wanted, n) == Err::<
                (Seq<Seq<Val>>, int),
                Fault,
            >(e),
            Ok((r, end)) => match block::rows_from(data, end, columns, wanted, (n - 1) as nat) {
                Err(e) => block::rows_from(data, offset, columns, wanted, n) == Err::<
                    (Seq<Seq<Val>>, int),
                    Fault,
                >(e),
                Ok((rows, last)) => block::rows_from(data, offset, columns, wanted, n) == Ok::<
                    (Seq<Seq<Val>>, int),
                    Fault,
                >((seq![r] + rows, last)),
            },
        },
    decreases n,
{
    reveal_with_fuel(block::rows_from, 2);
    if n == 1 {
        if row::decode_some(data, offset, columns, wanted) is Ok {
            let (r, end) = row::decode_some(data, offset, columns, wanted)->Ok_0;
            assert(Seq::<Seq<Val>>::empty().push(r) =~= seq![r] + Seq::<Seq<Val>>::empty());
        }
    } else {
        lemma_rows_in_front(data, offset, columns, wanted, (n - 1) as nat);
        if row::decode_some(data, offset, columns, wanted) is Ok {
            let (r, end) = row::decode_some(data, offset, columns, wanted)->Ok_0;
            match block::rows_from(data, end, columns, wanted, (n - 2) as nat) {
                Err(_) => {},
                Ok((rows, at)) => {
                    match row::decode_some(data, at, columns, wanted) {
                        Err(_) => {},
                        Ok((x, _)) => {
                            assert((seq![r] + rows).push(x) =~= seq![r] + rows.push(x));
                        },
                    }
                },
            }
        }
    }
}

/// A scan of a block tells of a row that cannot be read, unless it has ended before that row, and
/// of nothing else. Where it reads to the end, it gives the rows that pass, in their order.
pub proof fn a_scan_tells_of_rows_that_cannot_be_read(
    data: Seq<u8>,
    offset: int,
    n: nat,
    columns: Seq<Column>,
    wanted: Option<Seq<bool>>,
    checks: Seq<Check>,
)
    ensures
        ({
            let (given, end) = scanner::scan_block(data, offset, n, columns, wanted, checks);
            match block::rows_from(data, offset, columns, wanted, n) {
                Err(e) => end == ScanEnd::Failed(e) || end == ScanEnd::Aborted,
                Ok((rows, _)) => {
                    &&& end == ScanEnd::More || end == ScanEnd::Aborted
                    &&& end == ScanEnd::More ==> given == rows.filter(
                        |r: Seq<Val>| scan::verdict(r, checks) == PredicateResult::Pass,
                    )
                },
            }
        }),
    decreases n,
{
    let p = |r: Seq<Val>| scan::verdict(r, checks) == PredicateResult::Pass;
    reveal(Seq::filter);
    if n > 0 {
        lemma_rows_in_front(data, offset, columns, wanted, n);
        match row::decode_some(data, offset, columns, wanted) {
            Err(_) => {},
            Ok((r, end)) => {
                let m = (n - 1) as nat;
                a_scan_tells_of_rows_that_cannot_be_read(data, end, m, columns, wanted, checks);
                match block::rows_from(data, end, columns, wanted, m) {
                    Ok((rows, _)) => {
                        lemma_filter_in_front(r, rows, p);
                    },
                    Err(_) => {},
                }
            },
        }
    }
}

proof fn lemma_filter_in_front(r: Seq<Val>, rows: Seq<Seq<Val>>, p: spec_fn(Seq<Val>) -> bool)
    ensures
        (seq![r] + rows).filter(p) == if p(r) {
            seq![r] + rows.filter(p)
        } else {
            rows.filter(p)
        },
    decreases rows.len(),
{
    reveal(Seq::filter);
    let all = seq![r] + rows;
    if rows.len() == 0 {
        assert(rows =~= Seq::empty());
        assert(all.drop_last() =~= Seq::empty());
        assert(all.last() == r);
        assert(Seq::<Seq<Val>>::empty().filter(p) =~= Seq::empty());
        assert(Seq::<Seq<Val>>::empty().push(r) =~= seq![r] + Seq::<Seq<Val>>::empty());
    } else {
        lemma_filter_in_front(r, rows.drop_last(), p);
        assert(all.drop_last() =~= seq![r] + rows.drop_last());
        assert(all.last() == rows.last());
        let some = rows.drop_last().filter(p);
        assert((seq![r] + some).push(rows.last()) =~= seq![r] + some.push(rows.last()));
    }
}

/// A scan of several blocks goes on to the next one only where the one before was read to its
/// end, and otherwise ends as it did.
pub proof fn a_scan_ends_with_the_first_block_that_ends_it(
    data: Seq<u8>,
    block_size: nat,
    from: nat,
    n: nat,
    columns: Seq<Column>,
    wanted: Option<Seq<bool>>,
    checks: Seq<Check>,
)
    requires
        from < n,
    ensures
        ({
            let b = block::nth_block(data, block_size, from as int);
            let here = scanner::scan_block(
                b,
                0,
                block::block_count(b, block_size),
                columns,
                wanted,
                checks,
            );
            let all = scanner::scan_chunk(data, block_size, from, n, columns, wanted, checks);
            let rest = scanner::scan_chunk(data, block_size, from + 1, n, columns, wanted, checks);
            &&& here.1 != ScanEnd::More ==> all == here
            &&& here.1 == ScanEnd::More ==> all.1 == rest.1 && all.0 == here.0 + rest.0
        }),
{
}

/// A scan that meets what it cannot read tells why, and asks for nothing more. It fails for no
/// other reason.
pub proof fn a_scan_that_fails_reads_no_more(s: Scan, data: Seq<u8>)
    ensures
        ({
            let (after, _, fault) = scanner::scan_accept(s, data);
            &&& fault is Some ==> scanner::scan_request(after) is None
            &&& s.phase matches Phase::Read { next, remaining } ==> {
                let n = if remaining < s.chunk {
                    remaining
                } else {
                    s.chunk
                };
                let end = scanner::scan_chunk(
                    data,
                    s.block_size,
                    0,
                    n as nat,
                    s.columns,
                    s.wanted,
                    s.checks,
                ).1;
                &&& fault == match end {
                    ScanEnd::Failed(e) => Some(e),
                    _ => None,
                }
                &&& end == ScanEnd::Aborted ==> scanner::scan_request(after) is None
            }
            &&& s.phase is Search ==> (fault is Some <==> block::block_count(data, s.block_size) > 0
                && row::decode_some(data, 0, s.columns, s.wanted) is Err)
        }),
{
}

// ---- joins ----

/// A row that meets others fails at the first pair that cannot be tested, and gives the pairs
/// before it that pass.
pub proof fn pairs_fail_at_the_first_that_cannot_be_tested(
    left: Seq<Val>,
    right: Seq<Seq<Val>>,
    columns: Seq<Column>,
    tests: Option<Seq<Test>>,
)
    ensures
        ({
            let (given, fault) = cross::with_each(left, right, columns, tests);
            match fault {
                None => forall|j: int|
                    0 <= j < right.len() ==> cross::pair_outcome(
                        left + #[trigger] right[j],
                        columns,
                        tests,
                    ) is Ok,
                Some(e) => exists|j: int|
                    {
                        &&& 0 <= j < right.len()
                        &&& cross::pair_outcome(left + #[trigger] right[j], columns, tests) == Err::<
                            bool,
                            Fault,
                        >(e)
                        &&& forall|k: int|
                            0 <= k < j ==> cross::pair_outcome(
                                left + #[trigger] right[k],
                                columns,
                                tests,
                            ) is Ok
                        &&& given == cross::with_each(left, right.take(j), columns, tests).0
                    },
            }
        }),
        tests is None ==> cross::with_each(left, right, columns, tests).1 is None,
    decreases right.len(),
{
    if right.len() > 0 {
        let before = right.drop_last();
        let n = right.len() - 1;
        pairs_fail_at_the_first_that_cannot_be_tested(left, before, columns, tests);
        assert forall|j: int| 0 <= j < n implies #[trigger] before[j] == right[j] by {}
        assert(right.last() == right[n]);
        match cross::with_each(left, before, columns, tests).1 {
            None => {
                assert forall|j: int| 0 <= j < n implies cross::pair_outcome(
                    left + #[trigger] right[j],
                    columns,
                    tests,
                ) is Ok by {
                    assert(before[j] == right[j]);
                }
                assert(right.take(n) =~= before);
            },
            Some(e) => {
                let j = choose|j: int|
                    {
                        &&& 0 <= j < before.len()
                        &&& cross::pair_outcome(left + #[trigger] before[j], columns, tests) == Err::<
                            bool,
                            Fault,
                        >(e)
                        &&& forall|k: int|
                            0 <= k < j ==> cross::pair_outcome(
                                left + #[trigger] before[k],
                                columns,
                                tests,
                            ) is Ok
                        &&& cross::with_each(left, before, columns, tests).0 == cross::with_each(
                            left,
                            before.take(j),
                            columns,
                            tests,
                        ).0
                    };
                assert(before[j] == right[j]);
                assert(before.take(j) =~= right.take(j));
                assert forall|k: int| 0 <= k < j implies cross::pair_outcome(
                    left + #[trigger] right[k],
                    columns,
                    tests,
                ) is Ok by {
                    assert(before[k] == right[k]);
                }
            },
        }
    }
}

/// Rows that meet others fail with the first of them that does, and then no further row meets
/// them.
pub proof fn rows_meet_others_until_one_fails(
    left: Seq<Seq<Val>>,
    next: Seq<Val>,
    right: Seq<Seq<Val>>,
    columns: Seq<Column>,
    tests: Option<Seq<Test>>,
)
    ensures
        cross::all_pairs(Seq::empty(), right, columns, tests) == (
            Seq::<Seq<Val>>::empty(),
            None::<Fault>,
        ),
        cross::all_pairs(left, right, columns, tests).1 is Some ==> cross::all_pairs(
            left.push(next),
            right,
            columns,
            tests,
        ) == cross::all_pairs(left, right, columns, tests),
        cross::all_pairs(left, right, columns, tests).1 is None ==> {
            let here = cross::with_each(next, right, columns, tests);
            &&& cross::all_pairs(left.push(next), right, columns, tests).1 == here.1
            &&& cross::all_pairs(left.push(next), right, columns, tests).0 == cross::all_pairs(
                left,
                right,
                columns,
                tests,
            ).0 + here.0
        },
{
    assert(left.push(next).drop_last() =~= left);
    assert(left.push(next).last() == next);
}

/// Rows that meet those of blocks fail where the blocks cannot be read; where these can be, a
/// hash join gives all pairs of their rows, and a cross join without tests fails at nothing.
pub proof fn joins_tell_of_blocks_that_cannot_be_read(
    held: Seq<Seq<Val>>,
    held_key: int,
    data: Seq<u8>,
    block_size: nat,
    n: nat,
    right_columns: Seq<Column>,
    key: int,
    left_is_build: bool,
    columns: Seq<Column>,
    tests: Option<Seq<Test>>,
)
    ensures
        ({
            let probed = joiner::blocks_probed(
                held,
                held_key,
                data,
                block_size,
                n,
                right_columns,
                key,
                left_is_build,
            );
            let crossed = cross::block_pairs(
                held,
                data,
                block_size,
                n,
                right_columns,
                columns,
                tests,
            );
            match block::blocks_rows(data, block_size, right_columns, n) {
                Err(e) => probed.1 == Some(e) && crossed.1 is Some && (tests is None ==> crossed.1
                    == Some(e)),
                Ok(rows) => probed == (
                    joiner::probed(held, held_key, rows, key, left_is_build),
                    None::<Fault>,
                ) && (tests is None ==> crossed.1 is None),
            }
        }),
    decreases n,
{
    if n > 0 {
        let m = (n - 1) as nat;
        joins_tell_of_blocks_that_cannot_be_read(
            held,
            held_key,
            data,
            block_size,
            m,
            right_columns,
            key,
            left_is_build,
            columns,
            tests,
        );
        let b = block::nth_block(data, block_size, n - 1);
        match (
            block::blocks_rows(data, block_size, right_columns, m),
            block::block_rows(b, block_size, right_columns),
        ) {
            (Ok(rows), Ok(more)) => {
                join_laws::matching_in_parts_agrees(held, held_key, rows, more, key, left_is_build);
                lemma_untested(held, more, columns);
            },
            _ => {},
        }
    }
}

proof fn lemma_untested(left: Seq<Seq<Val>>, right: Seq<Seq<Val>>, columns: Seq<Column>)
    ensures
        cross::all_pairs(left, right, columns, None).1 is None,
    decreases left.len(),
{
    if left.len() > 0 {
        lemma_untested(left.drop_last(), right, columns);
        pairs_fail_at_the_first_that_cannot_be_tested(left.last(), right, columns, None);
    }
}

// ---- merges ----

/// A merge tells of a block of a run that cannot be read, and fails for no other reason.
pub proof fn a_merge_tells_of_blocks_that_cannot_be_read(m: Merging, data: Seq<u8>, n: int)
    requires
        0 <= m.turn < m.streams.len(),
    ensures
        ({
            let s = m.streams[m.turn];
            match block::block_rows(
                block::nth_block(data, s.block_size, 0),
                s.block_size,
                s.columns,
            ) {
                Err(e) => merge::merge_supplied(m, data, n).1 == Some(e),
                Ok(_) => merge::merge_supplied(m, data, n).1 is None,
            }
        }),
        ({
            let s = m.streams[m.turn];
            let failed = s.rows.len() == 0 && s.head < s.count && block::block_rows(
                block::nth_block(s.data, s.block_size, s.head),
                s.block_size,
                s.columns,
            ) is Err;
            merge::merge_step(m).1 is Err <==> failed
        }),
{
}

// ---- columns that are not wanted ----

/// A value that is not wanted is passed over: what follows stands where it does if the value is
/// read, and zero, or an empty text, of its type stands for it.
pub proof fn a_value_that_is_not_wanted_is_passed_over(data: Seq<u8>, offset: int, t: DataType)
    ensures
        row::decode_val(data, offset, t) matches Ok((_, end)) ==> (row::decode_wanted(
            data,
            offset,
            t,
            false,
        ) matches Ok((v, e)) && e == end && row::val_type(v) == t && match v {
            Val::Int32(x) => x == 0,
            Val::Int64(x) => x == 0,
            Val::Float32(x) => x == 0,
            Val::Float64(x) => x == 0,
            Val::Text(s) => s.len() == 0,
        }),
        row::decode_wanted(data, offset, t, true) == row::decode_val(data, offset, t),
        row::decode_wanted(data, offset, t, false) matches Err(e) ==> row::decode_val(data, offset, t)
            == Err::<(Val, int), Fault>(e),
{
}

/// Rows weigh together what each of them weighs.
pub proof fn rows_weigh_what_each_of_them_weighs(rows: Seq<Seq<Val>>, r: Seq<Val>)
    ensures
        joiner::rows_weight(Seq::empty()) == 0,
        joiner::rows_weight(rows.push(r)) == joiner::rows_weight(rows) + row::row_weight(r),
{
    assert(rows.push(r).drop_last() =~= rows);
    assert(rows.push(r).last() == r);
}

} // verus!
