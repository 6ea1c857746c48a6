//! Laws of the operators and the plans that they carry out: what an operator gives is what its
//! plan means.

use vstd::multiset::Multiset;
use vstd::prelude::*;

use crate::answer::Database;
use crate::answer;
use crate::block;
use crate::cache;
use crate::disk::Disk;
use crate::error::Fault;
use crate::ops::cross;
use crate::ops::cross_laws;
use crate::ops::cross_output::Crossing;
use crate::ops::filter::FilterWay;
use crate::ops::filter;
use crate::ops::join_input_laws::{Course, Others};
use crate::ops::join_input_laws;
use crate::ops::join_output_laws;
use crate::ops::project::ScanColumns;
use crate::ops::project;
use crate::ops::rows;
use crate::ops::scan;
use crate::ops::scan_laws;
use crate::ops::scanner;
use crate::ops::sort_chunk::Run;
use crate::ops::sort_chunk;
use crate::ops::sort_input_laws::Intake;
use crate::ops::sort_input_laws;
use crate::ops::sort_laws;
use crate::ops::sort_merge::MAX_MERGE_WIDTH;
use crate::ops::sort_output::{Sorting, Stage};
use crate::ops::sort_output;
use crate::ops::sort_output_laws::Contents;
use crate::ops::sort_output_laws;
use crate::query::{Operand, Plan, SortKey, Stat, Table, Test};
use crate::query;
use crate::row;
use crate::schema::Column;
use crate::schema;
use crate::value::Val;
use crate::value;

verus! {

// ---- sequences ----

/// Conditions that agree on the members keep the same members.
proof fn lemma_filter_agrees<A>(s: Seq<A>, p: spec_fn(A) -> bool, q: spec_fn(A) -> bool)
    requires
        forall|i: int| 0 <= i < s.len() ==> p(#[trigger] s[i]) == q(s[i]),
    ensures
        s.filter(p) == s.filter(q),
    decreases s.len(),
{
    reveal(Seq::filter);
    if s.len() > 0 {
        let before = s.drop_last();
        assert forall|i: int| 0 <= i < before.len() implies p(#[trigger] before[i]) == q(
            before[i],
        ) by {
            assert(before[i] == s[i]);
        }
        lemma_filter_agrees(before, p, q);
        assert(p(s[s.len() - 1]) == q(s[s.len() - 1]));
    }
}

/// A condition that holds of all members keeps them all.
proof fn lemma_filter_keeps<A>(s: Seq<A>, p: spec_fn(A) -> bool)
    requires
        forall|i: int| 0 <= i < s.len() ==> p(#[trigger] s[i]),
    ensures
        s.filter(p) == s,
    decreases s.len(),
{
    reveal(Seq::filter);
    if s.len() > 0 {
        let before = s.drop_last();
        assert forall|i: int| 0 <= i < before.len() implies p(#[trigger] before[i]) by {
            assert(before[i] == s[i]);
        }
        lemma_filter_keeps(before, p);
        assert(p(s[s.len() - 1]));
        assert(before.push(s.last()) =~= s);
    }
}

/// Keeping members and changing them, member by member as others are changed and kept.
proof fn lemma_filter_maps<A, B, C>(
    s: Seq<A>,
    t: Seq<B>,
    p: spec_fn(A) -> bool,
    f: spec_fn(A) -> C,
    q: spec_fn(C) -> bool,
    g: spec_fn(B) -> C,
)
    requires
        s.len() == t.len(),
        forall|i: int|
            #![trigger s[i]]
            #![trigger t[i]]
            0 <= i < s.len() ==> p(s[i]) == q(g(t[i])) && f(s[i]) == g(t[i]),
    ensures
        s.filter(p).map_values(f) == t.map_values(g).filter(q),
    decreases s.len(),
{
    reveal(Seq::filter);
    if s.len() == 0 {
        assert(s.filter(p).map_values(f) =~= t.map_values(g).filter(q));
    } else {
        let (a, b) = (s.drop_last(), t.drop_last());
        assert forall|i: int|
            #![trigger a[i]]
            #![trigger b[i]]
            0 <= i < a.len() implies p(a[i]) == q(g(b[i])) && f(a[i]) == g(b[i]) by {
            assert(a[i] == s[i] && b[i] == t[i]);
        }
        lemma_filter_maps(a, b, p, f, q, g);
        assert(t.map_values(g).drop_last() =~= b.map_values(g));
        let n = s.len() - 1;
        assert(p(s[n]) == q(g(t[n])) && f(s[n]) == g(t[n]));
        if p(s[n]) {
            assert(a.filter(p).push(s[n]).map_values(f) =~= a.filter(p).map_values(f).push(f(s[n])));
        }
    }
}

// ---- scans ----

/// Where the blocks of a table lie, and how they are read.
pub struct Lying {
    pub start: int,
    pub num: int,
    pub block_size: nat,
    pub memory_limit_mb: int,
    pub disk: Map<int, Seq<u8>>,
}

/// The description of a table.
pub open spec fn table_of(db: Database, id: Seq<char>) -> Table {
    db.tables[query::table_index(db.tables, id)->Some_0]
}

/// Whether the blocks hold the rows of a table.
pub open spec fn lies(db: Database, id: Seq<char>, at: Lying) -> bool {
    &&& query::table_index(db.tables, id) is Some
    &&& at.block_size >= 2
    &&& 0 <= at.start
    &&& 0 <= at.num
    &&& at.start + at.num <= u64::MAX
    &&& cache::uniform(at.disk, at.block_size)
    &&& scan_laws::table_rows(
        at.disk,
        at.start,
        at.num as nat,
        at.block_size,
        schema::table_columns(table_of(db, id)),
        None,
    ) == Ok::<Seq<Seq<Val>>, Fault>((db.rows)(id))
}

/// Whether what a table claims of the columns of tests is true of its rows.
pub open spec fn claims_hold(db: Database, id: Seq<char>, tests: Seq<Test>) -> bool {
    &&& scan_laws::order_is_true(table_of(db, id), tests, (db.rows)(id))
    &&& scan_laws::stats_are_true(table_of(db, id), tests, (db.rows)(id))
}

/// The rows that a scan gives, and what went wrong.
pub open spec fn scanned(
    db: Database,
    id: Seq<char>,
    tests: Seq<Test>,
    wanted: Option<Seq<bool>>,
    at: Lying,
) -> (Seq<Seq<Val>>, Option<Fault>) {
    scan_laws::scan_run(
        scanner::scan_start(
            table_of(db, id),
            tests,
            wanted,
            at.start,
            at.num,
            at.block_size,
            at.memory_limit_mb,
        ),
        at.disk,
    )
}

/// The checks of a scan are its tests.
proof fn lemma_compiled(r: Seq<Val>, columns: Seq<Column>, tests: Seq<Test>, ordered: Seq<bool>)
    requires
        filter::can_be_compiled(tests, columns),
    ensures
        row::tests_outcome(r, columns, tests) == Ok::<bool, Fault>(
            scan_laws::meets_all(r, scan::checks_of(columns, tests, ordered)),
        ),
    decreases tests.len(),
{
    let checks = scan::checks_of(columns, tests, ordered);
    if tests.len() > 0 {
        let before = tests.drop_last();
        assert forall|i: int| 0 <= i < before.len() implies scan::check_of(
            columns,
            #[trigger] before[i],
            false,
        ) is Some by {
            assert(before[i] == tests[i]);
        }
        lemma_compiled(r, columns, before, ordered);
        let n = tests.len() - 1;
        assert(scan::check_of(columns, tests[n], false) is Some);
        let c = scan::check_of(columns, tests[n], ordered[n])->Some_0;
        let some = scan::checks_of(columns, before, ordered);
        assert(checks == some.push(c));
        assert(row::test_outcome(r, columns, tests[n]) == Ok::<bool, Fault>(
            scan_laws::meets(r, c),
        ));
        if scan_laws::meets_all(r, some) && scan_laws::meets(r, c) {
            assert forall|i: int| 0 <= i < checks.len() implies scan_laws::meets(
                r,
                #[trigger] checks[i],
            ) by {
                if i < some.len() {
                    assert(checks[i] == some[i]);
                }
            }
        }
        if scan_laws::meets_all(r, checks) {
            assert forall|i: int| 0 <= i < some.len() implies scan_laws::meets(
                r,
                #[trigger] some[i],
            ) by {
                assert(checks[i] == some[i]);
            }
            assert(checks[some.len() as int] == c);
        }
    }
}

/// A scan that makes the tests of a filter gives the rows of the filter, in their order, and
/// one without tests those of the table.
pub proof fn a_scan_gives_the_rows_of_its_plan(
    db: Database,
    id: Seq<char>,
    tests: Seq<Test>,
    at: Lying,
)
    requires
        lies(db, id, at),
        filter::can_be_compiled(tests, schema::table_columns(table_of(db, id))),
        claims_hold(db, id, tests),
    ensures
        scanned(db, id, tests, None, at) == (
            answer::rows_of(Plan::Filter(tests, Box::new(Plan::Scan(id))), db),
            None::<Fault>,
        ),
        tests.len() == 0 ==> scanned(db, id, tests, None, at) == (
            answer::rows_of(Plan::Scan(id), db),
            None::<Fault>,
        ),
{
    let t = table_of(db, id);
    let columns = schema::table_columns(t);
    let all = (db.rows)(id);
    let checks = scan::checks_of(columns, tests, scan::tests_ordered(t, tests));
    scan_laws::scan_gives_the_rows_that_pass(
        t,
        tests,
        None,
        at.start,
        at.num,
        at.block_size,
        at.memory_limit_mb,
        at.disk,
        all,
    );
    let p = |r: Seq<Val>| scan_laws::meets_all(r, checks);
    let q = |r: Seq<Val>| row::tests_outcome(r, columns, tests) == Ok::<bool, Fault>(true);
    assert forall|i: int| 0 <= i < all.len() implies p(#[trigger] all[i]) == q(all[i]) by {
        lemma_compiled(all[i], columns, tests, scan::tests_ordered(t, tests));
    }
    lemma_filter_agrees(all, p, q);
    assert(answer::columns_of(Plan::Scan(id), db.tables) == columns);
    assert(answer::rows_of(Plan::Scan(id), db) == all);
    if tests.len() == 0 {
        lemma_filter_keeps(all, q);
    }
}

// ---- narrowed scans ----

/// Whether a row has the values of another in the wanted columns.
pub open spec fn narrowed(some: Seq<Val>, whole: Seq<Val>, wanted: Seq<bool>, width: nat) -> bool {
    &&& some.len() == width
    &&& whole.len() == width
    &&& forall|c: int| 0 <= c < width && wanted[c] ==> (#[trigger] some[c]) == whole[c]
}

/// Whether rows have the values of others in the wanted columns.
pub open spec fn all_narrowed(
    some: Seq<Seq<Val>>,
    whole: Seq<Seq<Val>>,
    wanted: Seq<bool>,
    width: nat,
) -> bool {
    &&& some.len() == whole.len()
    &&& forall|i: int|
        #![trigger some[i]]
        #![trigger whole[i]]
        0 <= i < some.len() ==> narrowed(some[i], whole[i], wanted, width)
}

proof fn lemma_rows_narrowed(
    data: Seq<u8>,
    columns: Seq<Column>,
    wanted: Seq<bool>,
    n: nat,
)
    requires
        block::rows_from(data, 0, columns, None, n) is Ok,
    ensures
        block::rows_from(data, 0, columns, Some(wanted), n) matches Ok((some, end))
            && end == block::rows_from(data, 0, columns, None, n)->Ok_0.1 && all_narrowed(
            some,
            block::rows_from(data, 0, columns, None, n)->Ok_0.0,
            wanted,
            columns.len(),
        ),
    decreases n,
{
    if n > 0 {
        lemma_rows_narrowed(data, columns, wanted, (n - 1) as nat);
        let at = block::rows_from(data, 0, columns, None, (n - 1) as nat)->Ok_0.1;
        row::wanted_columns_are_decoded(data, at, columns, wanted);
    }
}

/// A narrowed scan sees the rows of the table, with the wanted columns as they are.
pub proof fn lemma_table_narrowed(
    disk: Map<int, Seq<u8>>,
    start: int,
    num: nat,
    block_size: nat,
    columns: Seq<Column>,
    wanted: Seq<bool>,
)
    requires
        scan_laws::table_rows(disk, start, num, block_size, columns, None) is Ok,
    ensures
        scan_laws::table_rows(disk, start, num, block_size, columns, Some(wanted)) matches Ok(some)
            && all_narrowed(
            some,
            scan_laws::table_rows(disk, start, num, block_size, columns, None)->Ok_0,
            wanted,
            columns.len(),
        ),
    decreases num,
{
    if num > 0 {
        lemma_table_narrowed(disk, start, (num - 1) as nat, block_size, columns, wanted);
        let b = disk[start + num - 1];
        lemma_rows_narrowed(b, columns, wanted, block::block_count(b, block_size));
        let a = scan_laws::table_rows(
            disk,
            start,
            (num - 1) as nat,
            block_size,
            columns,
            None,
        )->Ok_0;
        let x = scan_laws::table_rows(
            disk,
            start,
            (num - 1) as nat,
            block_size,
            columns,
            Some(wanted),
        )->Ok_0;
        let c = scan_laws::seen(b, block_size, columns, None)->Ok_0.0;
        let y = scan_laws::seen(b, block_size, columns, Some(wanted))->Ok_0.0;
        assert(all_narrowed(x + y, a + c, wanted, columns.len())) by {
            assert forall|i: int|
                #![trigger (x + y)[i]]
                #![trigger (a + c)[i]]
                0 <= i < (x + y).len() implies narrowed(
                (x + y)[i],
                (a + c)[i],
                wanted,
                columns.len(),
            ) by {
                if i < x.len() {
                    assert((x + y)[i] == x[i] && (a + c)[i] == a[i]);
                } else {
                    assert((x + y)[i] == y[i - x.len()] && (a + c)[i] == c[i - x.len()]);
                }
            }
        }
    }
}

/// A column that a test on a projection names in the table is wanted.
proof fn lemma_test_is_wanted(
    name: Seq<char>,
    columns: Seq<Column>,
    map: Seq<(Seq<char>, Seq<char>)>,
    indices: Seq<usize>,
    picks: ScanColumns,
) -> (c: int)
    requires
        project::sources(columns, map) == Ok::<Seq<int>, Seq<char>>(rows::positions(indices)),
        rows::all_below(indices, columns.len() as int),
        picks.serves(indices, columns.len() as int),
        schema::column_index(
            project::renamed(columns, rows::positions(indices), map),
            name,
        ) is Some,
    ensures
        0 <= c < columns.len(),
        picks.wanted@[c],
        schema::column_index(
            columns,
            filter::table_name(
                name,
                project::renamed(columns, rows::positions(indices), map),
                rows::positions(indices),
                columns,
            ),
        ) == Some(c),
{
    let at = rows::positions(indices);
    let given = project::renamed(columns, at, map);
    filter::lemma_table_index(columns, map, name);
    let k = schema::column_index(given, name)->Some_0;
    assert(at[k] == indices[k]);
    let p = picks.order@[k] as int;
    assert(picks.keep@[p] == indices[k]);
    assert(picks.keep@.contains(indices[k]));
    assert(picks.wanted@[indices[k] as int] == picks.keep@.contains(indices[k]));
    at[k]
}

/// What a table claims of the columns of tests is true of its narrowed rows.
pub proof fn lemma_claims_narrowed(
    db: Database,
    id: Seq<char>,
    tests: Seq<Test>,
    map: Seq<(Seq<char>, Seq<char>)>,
    indices: Seq<usize>,
    picks: ScanColumns,
    some: Seq<Seq<Val>>,
)
    requires
        ({
            let columns = schema::table_columns(table_of(db, id));
            let at = rows::positions(indices);
            let given = project::renamed(columns, at, map);
            &&& project::sources(columns, map) == Ok::<Seq<int>, Seq<char>>(at)
            &&& rows::all_below(indices, columns.len() as int)
            &&& picks.serves(indices, columns.len() as int)
            &&& filter::tests_within(tests, given)
            &&& claims_hold(db, id, filter::table_tests(tests, given, at, columns))
            &&& all_narrowed(some, (db.rows)(id), picks.wanted@, columns.len())
        }),
    ensures
        ({
            let t = table_of(db, id);
            let columns = schema::table_columns(t);
            let at = rows::positions(indices);
            let below = filter::table_tests(
                tests,
                project::renamed(columns, at, map),
                at,
                columns,
            );
            &&& scan_laws::order_is_true(t, below, some)
            &&& scan_laws::stats_are_true(t, below, some)
        }),
{
    let t = table_of(db, id);
    let columns = schema::table_columns(t);
    let at = rows::positions(indices);
    let given = project::renamed(columns, at, map);
    let below = filter::table_tests(tests, given, at, columns);
    let all = (db.rows)(id);
    assert forall|i: int|
        #![trigger below[i]]
        0 <= i < below.len() && scan::test_ordered(t, below[i]) implies (schema::column_index(
        columns,
        below[i].column,
    ) matches Some(c) ==> scan_laws::ascend(some, c)) by {
        assert(filter::test_within(tests[i], given));
        let c = lemma_test_is_wanted(tests[i].column, columns, map, indices, picks);
        assert(below[i].column == filter::table_name(tests[i].column, given, at, columns));
        assert(scan_laws::ascend(all, c));
        assert forall|m: int, n: int| 0 <= m <= n < some.len() implies value::at_most(
            value::val_order(#[trigger] some[m][c], #[trigger] some[n][c]),
        ) by {
            assert(narrowed(some[m], all[m], picks.wanted@, columns.len()));
            assert(narrowed(some[n], all[n], picks.wanted@, columns.len()));
            assert(some[m][c] == all[m][c] && some[n][c] == all[n][c]);
        }
    }
    assert forall|i: int, k: int|
        #![trigger below[i], scan_laws::column_stats(t, below[i].column)[k]]
        0 <= i < below.len() && 0 <= k < scan_laws::column_stats(t, below[i].column).len()
            implies scan_laws::stat_is_true(
        scan_laws::column_stats(t, below[i].column)[k],
        some,
        query::spec_index(t.columns, below[i].column)->Some_0,
    ) by {
        assert(filter::test_within(tests[i], given));
        let c = lemma_test_is_wanted(tests[i].column, columns, map, indices, picks);
        assert(below[i].column == filter::table_name(tests[i].column, given, at, columns));
        scan_laws::lemma_column_is_spec(t.columns, below[i].column);
        assert(query::spec_index(t.columns, below[i].column) == Some(c));
        let stat = scan_laws::column_stats(t, below[i].column)[k];
        assert(scan_laws::stat_is_true(stat, all, c));
        assert forall|m: int| 0 <= m < some.len() implies (#[trigger] some[m])[c] == all[m][c] by {
            assert(narrowed(some[m], all[m], picks.wanted@, columns.len()));
        }
        match stat {
            Stat::Range(r) => {
                assert forall|m: int| 0 <= m < some.len() implies scan::in_range(
                    r,
                    #[trigger] some[m][c],
                ) by {
                    assert(scan::in_range(r, all[m][c]));
                }
            },
            Stat::Histogram(h) => {
                assert forall|m: int| 0 <= m < some.len() implies scan::in_some_range(
                    h,
                    #[trigger] some[m][c],
                ) by {
                    assert(scan::in_some_range(h, all[m][c]));
                }
            },
            _ => {},
        }
    }
}

/// A row of a narrowed scan, as a row of the projection.
pub open spec fn picked_twice(picks: ScanColumns) -> spec_fn(Seq<Val>) -> Seq<Val> {
    |r: Seq<Val>|
        rows::picked(
            rows::picked(r, rows::positions(picks.keep@)),
            rows::positions(picks.order@),
        )
}

/// A scan that decodes only the columns of a projection, and makes the tests of the filter
/// over it, gives the rows of the filter, in their order.
pub proof fn a_narrowed_scan_gives_the_rows_of_its_plan(
    db: Database,
    id: Seq<char>,
    map: Seq<(Seq<char>, Seq<char>)>,
    tests: Seq<Test>,
    indices: Seq<usize>,
    picks: ScanColumns,
    at: Lying,
)
    requires
        lies(db, id, at),
        ({
            let columns = schema::table_columns(table_of(db, id));
            let given = project::renamed(columns, rows::positions(indices), map);
            let below = filter::table_tests(tests, given, rows::positions(indices), columns);
            &&& project::sources(columns, map) == Ok::<Seq<int>, Seq<char>>(
                rows::positions(indices),
            )
            &&& rows::all_below(indices, columns.len() as int)
            &&& picks.serves(indices, columns.len() as int)
            &&& filter::tests_within(tests, given)
            &&& filter::can_be_compiled(below, columns)
            &&& claims_hold(db, id, below)
        }),
    ensures
        ({
            let columns = schema::table_columns(table_of(db, id));
            let given = project::renamed(columns, rows::positions(indices), map);
            let below = filter::table_tests(tests, given, rows::positions(indices), columns);
            let got = scanned(db, id, below, Some(picks.wanted@), at);
            let narrow = Plan::Project(map, Box::new(Plan::Scan(id)));
            &&& got.1 is None
            &&& got.0.map_values(picked_twice(picks)) == answer::rows_of(
                Plan::Filter(tests, Box::new(narrow)),
                db,
            )
            &&& tests.len() == 0 ==> got.0.map_values(picked_twice(picks)) == answer::rows_of(
                narrow,
                db,
            )
        }),
{
    let t = table_of(db, id);
    let columns = schema::table_columns(t);
    let places = rows::positions(indices);
    let given = project::renamed(columns, places, map);
    let below = filter::table_tests(tests, given, places, columns);
    let ordered = scan::tests_ordered(t, below);
    let checks = scan::checks_of(columns, below, ordered);
    let all = (db.rows)(id);
    let wanted = picks.wanted@;
    lemma_table_narrowed(
        at.disk,
        at.start,
        at.num as nat,
        at.block_size,
        columns,
        wanted,
    );
    let some = scan_laws::table_rows(
        at.disk,
        at.start,
        at.num as nat,
        at.block_size,
        columns,
        Some(wanted),
    )->Ok_0;
    lemma_claims_narrowed(db, id, tests, map, indices, picks, some);
    scan_laws::scan_gives_the_rows_that_pass(
        t,
        below,
        Some(wanted),
        at.start,
        at.num,
        at.block_size,
        at.memory_limit_mb,
        at.disk,
        some,
    );
    let p = |r: Seq<Val>| scan_laws::meets_all(r, checks);
    let q = |r: Seq<Val>| row::tests_outcome(r, given, tests) == Ok::<bool, Fault>(true);
    let f = picked_twice(picks);
    let g = |r: Seq<Val>| rows::picked(r, places);
    assert forall|i: int|
        #![trigger some[i]]
        #![trigger all[i]]
        0 <= i < some.len() implies p(some[i]) == q(g(all[i])) && f(some[i]) == g(all[i]) by {
        let (x, y) = (some[i], all[i]);
        assert(narrowed(x, y, wanted, columns.len()));
        project::projecting_while_scanning_agrees(y, x, picks, indices);
        filter::filtering_below_a_projection_agrees(tests, map, columns, x, ordered);
        assert(rows::picked(x, places) =~= rows::picked(y, places)) by {
            assert forall|k: int| 0 <= k < places.len() implies x[#[trigger] places[k]]
                == y[places[k]] by {
                assert(places[k] == indices[k]);
                assert(indices[k] < columns.len());
                let o = picks.order@[k] as int;
                assert(picks.keep@[o] == indices[k]);
                assert(picks.keep@.contains(indices[k]));
                assert(wanted[indices[k] as int] == picks.keep@.contains(indices[k]));
            }
        }
    }
    lemma_filter_maps(some, all, p, f, q, g);
    let scan = Plan::Scan(id);
    let narrow = Plan::Project(map, Box::new(scan));
    assert(answer::columns_of(scan, db.tables) == columns);
    assert(answer::rows_of(scan, db) == all);
    assert(answer::rows_of(narrow, db) == all.map_values(g));
    project::lemma_projected_is_renamed(columns, map);
    assert(answer::columns_of(narrow, db.tables) == given);
    if tests.len() == 0 {
        lemma_filter_keeps(all.map_values(g), q);
    }
}

// ---- joins ----

/// Where tests fit the columns of pairs, all pairs can be tested, and those that pass are
/// given.
pub proof fn lemma_pairs_filtered(
    left: Seq<Seq<Val>>,
    right: Seq<Seq<Val>>,
    columns: Seq<Column>,
    tests: Seq<Test>,
)
    requires
        row::tests_fit(tests, columns),
    ensures
        cross::all_pairs(left, right, columns, None).1 is None,
        cross::all_pairs(left, right, columns, Some(tests)) == (
            cross::all_pairs(left, right, columns, None).0.filter(
                |r: Seq<Val>| row::tests_outcome(r, columns, tests) == Ok::<bool, Fault>(true),
            ),
            None::<Fault>,
        ),
    decreases left.len(),
{
    let q = |r: Seq<Val>| row::tests_outcome(r, columns, tests) == Ok::<bool, Fault>(true);
    if left.len() == 0 {
        reveal(Seq::filter);
        assert(cross::all_pairs(left, right, columns, None).0.filter(q) =~= Seq::empty());
    } else {
        lemma_pairs_filtered(left.drop_last(), right, columns, tests);
        lemma_each_filtered(left.last(), right, columns, tests);
        Seq::filter_distributes_over_add(
            cross::all_pairs(left.drop_last(), right, columns, None).0,
            cross::with_each(left.last(), right, columns, None).0,
            q,
        );
    }
}

proof fn lemma_each_filtered(
    left: Seq<Val>,
    right: Seq<Seq<Val>>,
    columns: Seq<Column>,
    tests: Seq<Test>,
)
    requires
        row::tests_fit(tests, columns),
    ensures
        cross::with_each(left, right, columns, None).1 is None,
        cross::with_each(left, right, columns, Some(tests)) == (
            cross::with_each(left, right, columns, None).0.filter(
                |r: Seq<Val>| row::tests_outcome(r, columns, tests) == Ok::<bool, Fault>(true),
            ),
            None::<Fault>,
        ),
    decreases right.len(),
{
    let q = |r: Seq<Val>| row::tests_outcome(r, columns, tests) == Ok::<bool, Fault>(true);
    reveal(Seq::filter);
    if right.len() == 0 {
        assert(cross::with_each(left, right, columns, None).0.filter(q) =~= Seq::empty());
    } else {
        lemma_each_filtered(left, right.drop_last(), columns, tests);
        let pair = left + right.last();
        row::tests_of_pairs_agree(pair, columns, tests);
        let before = cross::with_each(left, right.drop_last(), columns, None).0;
        assert(before.push(pair).drop_last() =~= before);
    }
}

/// A cross join that is handed the rows of its inputs gives the rows of its plan; one that
/// makes the tests of a filter over it gives those of the filter, where the literals of the
/// tests have the types of their columns.
pub proof fn a_cross_join_gives_the_rows_of_its_plan(
    l: Plan,
    r: Plan,
    tests: Option<Seq<Test>>,
    db: Database,
    c: Crossing,
    disk: Map<int, Seq<u8>>,
)
    requires
        ({
            let columns = answer::columns_of(
                Plan::Cross(Box::new(l), Box::new(r)),
                db.tables,
            );
            &&& c.cross.columns == columns
            &&& c.cross.tests == tests
            &&& tests matches Some(t) ==> row::tests_fit(t, columns)
        }),
        c.cross.left_chunk.len() == 0,
        cross_laws::right_complete(c, answer::rows_of(r, db), disk),
    ensures
        ({
            let plan = Plan::Cross(Box::new(l), Box::new(r));
            let (e, pairs) = cross_laws::left_came(c, answer::rows_of(l, db), disk);
            let waiting = if c.cross.right_blocks == 0 {
                Multiset::empty()
            } else {
                cross_laws::to_come(e, disk)
            };
            &&& c.cross.right_blocks > 0 ==> cross_laws::goes_right(e, disk)
            &&& pairs.add(waiting) == match tests {
                None => answer::rows_of(plan, db),
                Some(t) => answer::rows_of(Plan::Filter(t, Box::new(plan)), db),
            }.to_multiset()
        }),
{
    let plan = Plan::Cross(Box::new(l), Box::new(r));
    let columns = answer::columns_of(plan, db.tables);
    let (a, b) = (answer::rows_of(l, db), answer::rows_of(r, db));
    match tests {
        None => {
            lemma_pairs_filtered(a, b, columns, Seq::empty());
        },
        Some(t) => {
            lemma_pairs_filtered(a, b, columns, t);
        },
    }
    cross_laws::a_cross_join_gives_the_pairs_of_its_inputs(c, a, b, disk);
    assert(answer::rows_of(plan, db) == cross::all_pairs(a, b, columns, None).0);
    match tests {
        None => {},
        Some(t) => {
            let over = Plan::Filter(t, Box::new(plan));
            assert(answer::rows_of(over, db) == cross::all_pairs(a, b, columns, Some(t)).0);
        },
    }
}

/// A hash join that is handed the rows of its inputs gives the rows of its plan: those that it
/// gave while its left input came, and those that are to come in its last phase.
pub proof fn a_hash_join_gives_the_rows_of_its_plan(
    l: Plan,
    r: Plan,
    x: Seq<char>,
    y: Seq<char>,
    db: Database,
    c: Course,
    o: Others,
)
    requires
        ({
            let (lc, rc) = (
                answer::columns_of(l, db.tables),
                answer::columns_of(r, db.tables),
            );
            let (left, right) = (answer::rows_of(l, db), answer::rows_of(r, db));
            &&& schema::column_index(lc, x) == Some(c.join.left_key)
            &&& schema::column_index(rc, y) == Some(c.join.right_key)
            &&& join_input_laws::can_take(c, right, left, o, lc, rc)
        }),
    ensures
        ({
            let e = join_input_laws::inputs_taken(
                c,
                answer::rows_of(r, db),
                answer::rows_of(l, db),
                o,
            );
            let m = join_input_laws::last_phase(
                e,
                answer::columns_of(l, db.tables),
                answer::columns_of(r, db.tables),
            );
            &&& join_output_laws::goes_right(m, e.blocks)
            &&& e.pairs.to_multiset().add(join_output_laws::to_come(m, e.blocks))
                == answer::rows_of(
                Plan::HashJoin(Box::new(l), Box::new(r), x, y),
                db,
            ).to_multiset()
        }),
{
    join_input_laws::a_hash_join_gives_all_pairs(
        c,
        answer::rows_of(r, db),
        answer::rows_of(l, db),
        o,
        answer::columns_of(l, db.tables),
        answer::columns_of(r, db.tables),
    );
}

// ---- filters ----

/// What a filter gives, whichever way it is carried out: `below` are the rows of the plan
/// below it.
pub open spec fn filter_gives(
    way: FilterWay,
    tests: Seq<Test>,
    below: Plan,
    db: Database,
    indices: Seq<usize>,
    picks: ScanColumns,
    at: Lying,
) -> (Seq<Seq<Val>>, Option<Fault>) {
    match (way, below) {
        (FilterWay::Scan, Plan::Scan(id)) => scanned(db, id, tests, None, at),
        (FilterWay::ProjectedScan(_, in_table), Plan::Project(_, inner)) => match *inner {
            Plan::Scan(id) => {
                let got = scanned(db, id, in_table, Some(picks.wanted@), at);
                (got.0.map_values(picked_twice(picks)), got.1)
            },
            _ => (Seq::empty(), None),
        },
        (FilterWay::Cross, Plan::Cross(l, r)) => cross::all_pairs(
            answer::rows_of(*l, db),
            answer::rows_of(*r, db),
            answer::columns_of(below, db.tables),
            Some(tests),
        ),
        (FilterWay::Stream(columns), _) => streamed(answer::rows_of(below, db), columns, tests),
        _ => (Seq::empty(), None),
    }
}

/// The rows that pass tests, up to the first test that cannot be made.
pub open spec fn streamed(rows: Seq<Seq<Val>>, columns: Seq<Column>, tests: Seq<Test>) -> (
    Seq<Seq<Val>>,
    Option<Fault>,
)
    decreases rows.len(),
{
    if rows.len() == 0 {
        (Seq::empty(), None)
    } else {
        let before = streamed(rows.drop_last(), columns, tests);
        if before.1 is Some {
            before
        } else {
            match row::tests_outcome(rows.last(), columns, tests) {
                Err(e) => (before.0, Some(e)),
                Ok(true) => (before.0.push(rows.last()), None),
                Ok(false) => before,
            }
        }
    }
}

/// Where tests fit the columns, the rows that pass are given.
proof fn lemma_streamed(rows: Seq<Seq<Val>>, columns: Seq<Column>, tests: Seq<Test>)
    requires
        row::tests_fit(tests, columns),
    ensures
        streamed(rows, columns, tests) == (
            rows.filter(
                |r: Seq<Val>| row::tests_outcome(r, columns, tests) == Ok::<bool, Fault>(true),
            ),
            None::<Fault>,
        ),
    decreases rows.len(),
{
    reveal(Seq::filter);
    if rows.len() == 0 {
        assert(streamed(rows, columns, tests).0 =~= rows);
    } else {
        lemma_streamed(rows.drop_last(), columns, tests);
        row::tests_of_pairs_agree(rows.last(), columns, tests);
    }
}

/// Where all tests can be made, the rows that pass are given.
pub proof fn lemma_streamed_without_fault(
    rows: Seq<Seq<Val>>,
    columns: Seq<Column>,
    tests: Seq<Test>,
)
    requires
        streamed(rows, columns, tests).1 is None,
    ensures
        streamed(rows, columns, tests).0 == rows.filter(
            |r: Seq<Val>| row::tests_outcome(r, columns, tests) == Ok::<bool, Fault>(true),
        ),
    decreases rows.len(),
{
    reveal(Seq::filter);
    if rows.len() == 0 {
        assert(streamed(rows, columns, tests).0 =~= rows);
    } else {
        lemma_streamed_without_fault(rows.drop_last(), columns, tests);
    }
}

/// Whether a filter over a scan, or over a projection of one, can be carried out by the scan:
/// the blocks hold the table, and what it claims of the columns of the tests is true.
pub open spec fn scan_is_right(
    tests: Seq<Test>,
    below: Plan,
    db: Database,
    indices: Seq<usize>,
    picks: ScanColumns,
    at: Lying,
) -> bool {
    match below {
        Plan::Scan(id) => lies(db, id, at) && claims_hold(db, id, tests),
        Plan::Project(map, inner) => match *inner {
            Plan::Scan(id) => {
                let columns = schema::table_columns(table_of(db, id));
                let given = project::renamed(columns, rows::positions(indices), map);
                &&& lies(db, id, at)
                &&& project::sources(columns, map) == Ok::<Seq<int>, Seq<char>>(
                    rows::positions(indices),
                )
                &&& rows::all_below(indices, columns.len() as int)
                &&& picks.serves(indices, columns.len() as int)
                &&& claims_hold(
                    db,
                    id,
                    filter::table_tests(tests, given, rows::positions(indices), columns),
                )
            },
            _ => true,
        },
        _ => true,
    }
}

/// A filter gives exactly the rows below it that pass all tests, once each and in their order,
/// whether the scan, the cross join or the filter itself makes the tests. Each test names
/// columns that there are, and a literal has the type of its column.
pub proof fn a_filter_gives_the_rows_that_pass(
    tests: Seq<Test>,
    below: Plan,
    db: Database,
    indices: Seq<usize>,
    picks: ScanColumns,
    at: Lying,
)
    requires
        schema::plan_schema(below, db.tables) is Ok,
        row::tests_fit(tests, answer::columns_of(below, db.tables)),
        scan_is_right(tests, below, db, indices, picks, at),
    ensures
        filter::filter_way(tests, below, db.tables) matches Ok(way) && filter_gives(
            way,
            tests,
            below,
            db,
            indices,
            picks,
            at,
        ) == (
            answer::rows_of(below, db).filter(
                |r: Seq<Val>|
                    row::tests_outcome(r, answer::columns_of(below, db.tables), tests) == Ok::<
                        bool,
                        Fault,
                    >(true),
            ),
            None::<Fault>,
        ),
        answer::rows_of(Plan::Filter(tests, Box::new(below)), db) == answer::rows_of(
            below,
            db,
        ).filter(
            |r: Seq<Val>|
                row::tests_outcome(r, answer::columns_of(below, db.tables), tests) == Ok::<
                    bool,
                    Fault,
                >(true),
        ),
{
    let columns = answer::columns_of(below, db.tables);
    let plan = Plan::Filter(tests, Box::new(below));
    let q = |r: Seq<Val>| row::tests_outcome(r, columns, tests) == Ok::<bool, Fault>(true);
    assert(answer::rows_of(plan, db) == answer::rows_of(below, db).filter(q));
    match below {
        Plan::Scan(id) => {
            lemma_fit_compiles(tests, columns);
            a_scan_gives_the_rows_of_its_plan(db, id, tests, at);
        },
        Plan::Cross(l, r) => {
            lemma_pairs_filtered(
                answer::rows_of(*l, db),
                answer::rows_of(*r, db),
                columns,
                tests,
            );
        },
        Plan::Project(map, inner) => {
            match *inner {
                Plan::Scan(id) => {
                    let whole = schema::table_columns(table_of(db, id));
                    let places = rows::positions(indices);
                    let given = project::renamed(whole, places, map);
                    project::lemma_projected_is_renamed(whole, map);
                    assert(columns == given);
                    assert forall|i: int| 0 <= i < tests.len() implies filter::test_within(
                        #[trigger] tests[i],
                        given,
                    ) by {
                        assert(row::test_fits(tests[i], given));
                    }
                    lemma_fit_compiles(tests, given);
                    lemma_compiles_below(tests, map, whole, places);
                    a_narrowed_scan_gives_the_rows_of_its_plan(
                        db,
                        id,
                        map,
                        tests,
                        indices,
                        picks,
                        at,
                    );
                },
                _ => {
                    lemma_streamed(answer::rows_of(below, db), columns, tests);
                },
            }
        },
        _ => {
            lemma_streamed(answer::rows_of(below, db), columns, tests);
        },
    }
}

/// Tests whose literals have the types of their columns can be made by a scan.
proof fn lemma_fit_compiles(tests: Seq<Test>, columns: Seq<Column>)
    requires
        row::tests_fit(tests, columns),
    ensures
        filter::can_be_compiled(tests, columns),
{
    assert forall|i: int| 0 <= i < tests.len() implies scan::check_of(
        columns,
        #[trigger] tests[i],
        false,
    ) is Some by {
        assert(row::test_fits(tests[i], columns));
    }
}

/// Tests on a projection that can be made can be made by a scan below it.
pub proof fn lemma_compiles_below(
    tests: Seq<Test>,
    map: Seq<(Seq<char>, Seq<char>)>,
    columns: Seq<Column>,
    places: Seq<int>,
)
    requires
        project::sources(columns, map) == Ok::<Seq<int>, Seq<char>>(places),
        filter::can_be_compiled(tests, project::renamed(columns, places, map)),
    ensures
        filter::can_be_compiled(
            filter::table_tests(
                tests,
                project::renamed(columns, places, map),
                places,
                columns,
            ),
            columns,
        ),
{
    let given = project::renamed(columns, places, map);
    let below = filter::table_tests(tests, given, places, columns);
    assert forall|i: int| 0 <= i < below.len() implies scan::check_of(
        columns,
        #[trigger] below[i],
        false,
    ) is Some by {
        assert(scan::check_of(given, tests[i], false) is Some);
        filter::lemma_table_index(columns, map, tests[i].column);
        match tests[i].value {
            Operand::Column(other) => {
                filter::lemma_table_index(columns, map, other);
            },
            _ => {},
        }
    }
}

// ---- sorts ----

/// A sort that was handed the rows of its input, and has put them into runs, begins its output
/// with the rows of its plan to come, in order where no key is a NaN.
pub proof fn a_sort_gives_the_rows_of_its_plan(
    sort_keys: Seq<SortKey>,
    child: Plan,
    db: Database,
    s: Sorting,
    runs: Seq<Run>,
    t: Intake,
    d: Disk,
    disk: Map<int, Seq<u8>>,
) -> (c: Contents)
    requires
        sort_input_laws::rows_in(t) == answer::rows_of(child, db).to_multiset(),
        sort_input_laws::input_holds(
            runs,
            sort_chunk::empty_chunk(),
            t,
            s.columns,
            s.keys,
            s.block_size as nat,
            d.next as int,
            disk,
        ),
        t.chunk.len() == 0,
        s.block_size >= 0,
        runs.len() > MAX_MERGE_WIDTH ==> {
            &&& sort_input_laws::rows_in(t).len() < usize::MAX
            &&& d.next + sort_input_laws::rows_in(t).len() * runs.len() < u64::MAX
        },
    ensures
        ({
            let (stage, after) = sort_output::round_begun(s, runs, d);
            let u = Sorting { stage, ..s };
            let rows = answer::rows_of(Plan::Sort(sort_keys, Box::new(child)), db);
            &&& sort_output_laws::goes_right(u, after.next as int, disk, c)
            &&& sort_output_laws::rows_to_come(u, disk, c) == rows.to_multiset()
            &&& c.keyed == sort_output_laws::keyed(rows.to_multiset(), s.keys)
        }),
{
    sort_input_laws::the_output_begins_with_the_rows_of_the_runs(s, runs, t, d, disk)
}

/// A sort that holds the rows of its input in memory begins its output with the rows of its
/// plan to come, in order where no key is a NaN.
pub proof fn a_sort_in_memory_gives_the_rows_of_its_plan(
    sort_keys: Seq<SortKey>,
    child: Plan,
    db: Database,
    s: Sorting,
    p: Seq<usize>,
    next: int,
    disk: Map<int, Seq<u8>>,
) -> (c: Contents)
    requires
        sort_laws::all_stored(answer::rows_of(child, db), s.columns),
        block::joined(block::rows_bytes(answer::rows_of(child, db))).len() <= usize::MAX,
        sort_chunk::sorts(p, answer::rows_of(child, db), s.keys),
    ensures
        ({
            let came = answer::rows_of(child, db);
            let u = Sorting { stage: Stage::Memory(sort_chunk::arranged(came, p)), ..s };
            let rows = answer::rows_of(Plan::Sort(sort_keys, Box::new(child)), db);
            &&& sort_output_laws::goes_right(u, next, disk, c)
            &&& sort_output_laws::rows_to_come(u, disk, c) == rows.to_multiset()
            &&& c.keyed == sort_output_laws::keyed(rows.to_multiset(), s.keys)
        }),
{
    sort_input_laws::the_output_begins_with_the_rows_of_the_chunk(
        s,
        answer::rows_of(child, db),
        p,
        next,
        disk,
    )
}

} // verus!
