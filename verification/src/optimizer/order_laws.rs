//! Laws of the order of rows: an optimized plan gives its rows in the order that the plan asks
//! for.

use vstd::prelude::*;

use crate::answer::Database;
use crate::answer;
use crate::error::Fault;
use crate::ops::execution_laws::{Execution, Work};
use crate::ops::execution_laws;
use crate::ops::filter::FilterWay;
use crate::ops::filter;
use crate::ops::plan_laws::Lying;
use crate::ops::plan_laws;
use crate::ops::project::ScanColumns;
use crate::ops::project;
use crate::ops::rows;
use crate::ops::scan;
use crate::ops::scan_laws;
use crate::ops::sort;
use crate::ops::sort_key_laws;
use crate::ops::sort_laws;
use crate::ops::sort_output_laws;
use crate::optimizer::laws;
use crate::optimizer::pushdown;
use crate::optimizer::reorder;
use crate::optimizer::rewrite;
use crate::optimizer::rewrite_laws;
use crate::optimizer::swap;
use crate::optimizer;
use crate::query::{Plan, SortKey, Stat, Table, Test};
use crate::query;
use crate::row;
use crate::schema::Column;
use crate::schema;
use crate::seqs;
use crate::value::{Order, Val};
use crate::value;

verus! {

// ---- plans that ask for an order ----

/// Whether a projection gives a column for each key.
pub open spec fn gives_keys(map: Seq<(Seq<char>, Seq<char>)>, keys: Seq<SortKey>) -> bool {
    forall|i: int|
        0 <= i < keys.len() ==> rewrite::output_index(map, (#[trigger] keys[i]).column) is Some
}

/// The keys below a projection: the columns from which it takes those of the keys.
pub open spec fn keys_below(map: Seq<(Seq<char>, Seq<char>)>, keys: Seq<SortKey>) -> Seq<SortKey> {
    keys.map_values(
        |k: SortKey|
            SortKey {
                column: map[rewrite::output_index(map, k.column)->Some_0].0,
                ascending: k.ascending,
            },
    )
}

/// Whether a table is stored in the order of keys: there is one, it ascends, and the
/// statistics of its column say so.
pub open spec fn stored_by(id: Seq<char>, keys: Seq<SortKey>, tables: Seq<Table>) -> bool {
    &&& keys.len() == 1
    &&& keys[0].ascending
    &&& query::table_index(tables, id) matches Some(t) && query::spec_index(
        tables[t].columns,
        keys[0].column,
    ) matches Some(k) && tables[t].columns[k].stats matches Some(stats) && stats.contains(
        Stat::PhysicallyOrdered,
    )
}

/// Whether the rows of a plan come in the order of keys: it is a sort by them, or a table
/// that is stored in their order, under nothing but filters and projections that keep the
/// columns of the keys.
pub open spec fn comes_by(plan: Plan, keys: Seq<SortKey>, tables: Seq<Table>) -> bool
    decreases plan,
{
    match plan {
        Plan::Scan(id) => stored_by(id, keys, tables),
        Plan::Sort(own, _) => own == keys,
        Plan::Filter(_, child) => comes_by(*child, keys, tables),
        Plan::Project(map, child) => gives_keys(map, keys) && comes_by(
            *child,
            keys_below(map, keys),
            tables,
        ),
        _ => false,
    }
}

/// Whether no key of the sort that gives an execution its order is a NaN.
pub open spec fn keys_compare(plan: Plan, e: Execution, db: Database) -> bool
    decreases plan,
{
    match (plan, e.work) {
        (Plan::Filter(_, below), Work::Stream(inner)) => keys_compare(*below, *inner, db),
        (Plan::Project(_, below), Work::Stream(inner)) => keys_compare(*below, *inner, db),
        (Plan::Sort(specs, below), _) => sort::key_positions(
            answer::columns_of(*below, db.tables),
            specs,
        ) matches Ok(at) ==> sort::all_have_keys(e.rows, at),
        _ => true,
    }
}

// ---- executions in order ----

/// Where a plan without joins and sorts comes in the order of keys, a sort by them would be
/// left out.
pub proof fn lemma_unjoined_is_stored(plan: Plan, keys: Seq<SortKey>, tables: Seq<Table>)
    requires
        execution_laws::is_unjoined(plan),
        comes_by(plan, keys, tables),
    ensures
        rewrite::already_sorted(plan, keys, tables),
    decreases plan,
{
    match plan {
        Plan::Filter(_, child) => {
            lemma_unjoined_is_stored(*child, keys, tables);
        },
        Plan::Project(map, child) => {
            lemma_unjoined_is_stored(*child, keys_below(map, keys), tables);
            assert(keys_below(map, keys).len() == keys.len());
            assert(keys_below(map, keys)[0].ascending == keys[0].ascending);
        },
        _ => {},
    }
}

proof fn lemma_stored_comes_by(plan: Plan, keys: Seq<SortKey>, tables: Seq<Table>)
    requires
        rewrite::already_sorted(plan, keys, tables),
    ensures
        comes_by(plan, keys, tables),
        execution_laws::is_unjoined(plan),
    decreases plan,
{
    match plan {
        Plan::Filter(_, child) => {
            lemma_stored_comes_by(*child, keys, tables);
        },
        Plan::Project(map, child) => {
            lemma_stored_comes_by(*child, keys_below(map, keys), tables);
        },
        _ => {},
    }
}

/// Rows that ascend still do so where some are left out.
proof fn lemma_filter_sorted(
    all: Seq<Seq<Val>>,
    p: spec_fn(Seq<Val>) -> bool,
    keys: Seq<(int, bool)>,
)
    requires
        sort_laws::sorted(all, keys),
    ensures
        sort_laws::sorted(all.filter(p), keys),
        forall|x: Seq<Val>| #[trigger] all.filter(p).contains(x) ==> all.contains(x),
    decreases all.len(),
{
    reveal(Seq::filter);
    if all.len() > 0 {
        let before = all.drop_last();
        assert forall|i: int, j: int| 0 <= i < j < before.len() implies sort::rows_order(
            #[trigger] before[i],
            #[trigger] before[j],
            keys,
        ) != Order::Greater by {
            assert(before[i] == all[i] && before[j] == all[j]);
        }
        lemma_filter_sorted(before, p, keys);
        let (now, then) = (all.filter(p), before.filter(p));
        assert forall|y: Seq<Val>| #[trigger] now.contains(y) implies all.contains(y) by {
            let i = choose|i: int| 0 <= i < now.len() && now[i] == y;
            if i < then.len() {
                assert(then[i] == y);
                assert(then.contains(y));
                assert(before.contains(y));
                let k = choose|k: int| 0 <= k < before.len() && before[k] == y;
                assert(all[k] == y);
            } else {
                assert(all[all.len() - 1] == y);
            }
        }
        assert forall|i: int, j: int| 0 <= i < j < now.len() implies sort::rows_order(
            #[trigger] now[i],
            #[trigger] now[j],
            keys,
        ) != Order::Greater by {
            if j < then.len() {
                assert(now[i] == then[i] && now[j] == then[j]);
            } else {
                assert(now[i] == then[i]);
                assert(then.contains(then[i]));
                assert(before.contains(then[i]));
                let k = choose|k: int| 0 <= k < before.len() && before[k] == then[i];
                assert(all[k] == now[i]);
                assert(all[all.len() - 1] == now[j]);
            }
        }
    }
}

/// Rows with the same values under keys compare alike.
proof fn lemma_same_values_compare_alike(
    a: Seq<Val>,
    b: Seq<Val>,
    keys: Seq<(int, bool)>,
    c: Seq<Val>,
    d: Seq<Val>,
    others: Seq<(int, bool)>,
)
    requires
        keys.len() == others.len(),
        forall|i: int|
            0 <= i < keys.len() ==> {
                &&& (#[trigger] keys[i]).1 == others[i].1
                &&& a[keys[i].0] == c[others[i].0]
                &&& b[keys[i].0] == d[others[i].0]
            },
    ensures
        sort::rows_order(a, b, keys) == sort::rows_order(c, d, others),
    decreases keys.len(),
{
    if keys.len() > 0 {
        let (k, o) = (keys.drop_last(), others.drop_last());
        assert forall|i: int| 0 <= i < k.len() implies {
            &&& (#[trigger] k[i]).1 == o[i].1
            &&& a[k[i].0] == c[o[i].0]
            &&& b[k[i].0] == d[o[i].0]
        } by {
            assert(k[i] == keys[i] && o[i] == others[i]);
        }
        lemma_same_values_compare_alike(a, b, k, c, d, o);
        assert(keys[keys.len() - 1].1 == others[keys.len() - 1].1);
    }
}

/// The rows of a projection ascend by keys where the rows below ascend by what these are
/// there.
proof fn lemma_projected_sorted(
    map: Seq<(Seq<char>, Seq<char>)>,
    keys: Seq<SortKey>,
    columns: Seq<Column>,
    all: Seq<Seq<Val>>,
)
    requires
        schema::projected_columns(columns, map) is Ok,
        gives_keys(map, keys),
        sort::key_positions(columns, keys_below(map, keys)) matches Ok(at) && sort_laws::sorted(
            all,
            at,
        ),
    ensures
        sort::key_positions(schema::projected_columns(columns, map)->Ok_0, keys) matches Ok(at)
            && sort_laws::sorted(
            all.map_values(|r: Seq<Val>| rows::picked(r, project::sources(columns, map)->Ok_0)),
            at,
        ),
{
    let given = schema::projected_columns(columns, map)->Ok_0;
    let below = keys_below(map, keys);
    let from = project::sources(columns, map)->Ok_0;
    let out = all.map_values(|r: Seq<Val>| rows::picked(r, from));
    answer::lemma_projected(columns, map);
    answer::lemma_sources(columns, map);
    assert forall|i: int| 0 <= i < keys.len() implies schema::column_index(
        given,
        (#[trigger] keys[i]).column,
    ) is Some by {
        assert(schema::column_index(given, keys[i].column) == rewrite::output_index(
            map,
            keys[i].column,
        ));
    }
    sort_key_laws::keys_need_their_columns(given, keys);
    let at = sort::key_positions(given, keys)->Ok_0;
    let was = sort::key_positions(columns, below)->Ok_0;
    lemma_positions(given, keys);
    lemma_positions(columns, below);
    assert forall|x: int, y: int| 0 <= x < y < out.len() implies sort::rows_order(
        #[trigger] out[x],
        #[trigger] out[y],
        at,
    ) != Order::Greater by {
        assert forall|i: int| 0 <= i < at.len() implies {
            &&& (#[trigger] at[i]).1 == was[i].1
            &&& out[x][at[i].0] == all[x][was[i].0]
            &&& out[y][at[i].0] == all[y][was[i].0]
        } by {
            let name = keys[i].column;
            assert(rewrite::output_index(map, name) is Some);
            let j = rewrite::output_index(map, name)->Some_0;
            rewrite_laws::lemma_output(map, name);
            assert(below[i].column == map[j].0);
            assert(schema::column_index(columns, map[j].0) == Some(from[j]));
            assert(was[i].0 == from[j]);
            assert(at[i].0 == j);
        }
        lemma_same_values_compare_alike(out[x], out[y], at, all[x], all[y], was);
        assert(sort::rows_order(all[x], all[y], was) != Order::Greater);
    }
}

/// Where keys are found.
proof fn lemma_positions(columns: Seq<Column>, keys: Seq<SortKey>)
    requires
        sort::key_positions(columns, keys) is Ok,
    ensures
        sort::key_positions(columns, keys)->Ok_0.len() == keys.len(),
        forall|i: int|
            0 <= i < keys.len() ==> (#[trigger] sort::key_positions(columns, keys)->Ok_0[i]).1
                == keys[i].ascending && schema::column_index(columns, keys[i].column) == Some(
                sort::key_positions(columns, keys)->Ok_0[i].0,
            ),
    decreases keys.len(),
{
    if keys.len() > 0 {
        let before = keys.drop_last();
        lemma_positions(columns, before);
        let (at, was) = (
            sort::key_positions(columns, keys)->Ok_0,
            sort::key_positions(columns, before)->Ok_0,
        );
        assert forall|i: int| 0 <= i < keys.len() implies (#[trigger] at[i]).1 == keys[i].ascending
            && schema::column_index(columns, keys[i].column) == Some(at[i].0) by {
            if i < before.len() {
                assert(at[i] == was[i]);
                assert(before[i] == keys[i]);
            }
        }
    }
}

/// A scan of a table gives rows that ascend where those of the table do, whatever tests it makes.
proof fn lemma_scan_ascends(id: Seq<char>, tests: Seq<Test>, at: Lying, i: int, db: Database)
    requires
        plan_laws::lies(db, id, at),
        plan_laws::claims_hold(db, id, tests),
        scan_laws::ascend((db.rows)(id), i),
    ensures
        scan_laws::ascend(plan_laws::scanned(db, id, tests, None, at).0, i),
{
    let t = plan_laws::table_of(db, id);
    scan_laws::scan_gives_the_rows_that_pass(
        t,
        tests,
        None,
        at.start,
        at.num,
        at.block_size,
        at.memory_limit_mb,
        at.disk,
        (db.rows)(id),
    );
    let checks = scan::checks_of(schema::table_columns(t), tests, scan::tests_ordered(t, tests));
    rewrite_laws::lemma_filter_ascends(
        (db.rows)(id),
        |r: Seq<Val>| scan_laws::meets_all(r, checks),
        i,
    );
}

/// A narrowed scan gives rows that ascend in a column where those of the table do in the column
/// from which it is taken.
proof fn lemma_narrowed_scan_ascends(
    id: Seq<char>,
    map: Seq<(Seq<char>, Seq<char>)>,
    tests: Seq<Test>,
    indices: Seq<usize>,
    picks: ScanColumns,
    at: Lying,
    i: int,
    db: Database,
)
    requires
        0 <= i < indices.len(),
        scan_laws::ascend((db.rows)(id), indices[i] as int),
        plan_laws::scan_is_right(
            tests,
            Plan::Project(map, Box::new(Plan::Scan(id))),
            db,
            indices,
            picks,
            at,
        ),
        filter::tests_within(
            tests,
            project::renamed(
                schema::table_columns(plan_laws::table_of(db, id)),
                rows::positions(indices),
                map,
            ),
        ),
    ensures
        ({
            let columns = schema::table_columns(plan_laws::table_of(db, id));
            let given = project::renamed(columns, rows::positions(indices), map);
            let below = filter::table_tests(tests, given, rows::positions(indices), columns);
            scan_laws::ascend(
                plan_laws::scanned(db, id, below, Some(picks.wanted@), at).0.map_values(
                    plan_laws::picked_twice(picks),
                ),
                i,
            )
        }),
{
    let t = plan_laws::table_of(db, id);
    let columns = schema::table_columns(t);
    let places = rows::positions(indices);
    let given = project::renamed(columns, places, map);
    let below = filter::table_tests(tests, given, places, columns);
    let checks = scan::checks_of(columns, below, scan::tests_ordered(t, below));
    let all = (db.rows)(id);
    let wanted = picks.wanted@;
    plan_laws::lemma_table_narrowed(
        at.disk,
        at.start,
        at.num as nat,
        at.block_size,
        columns,
        wanted,
    );
    let some = scan_laws::table_rows(
        at.disk,
        at.start,
        at.num as nat,
        at.block_size,
        columns,
        Some(wanted),
    )->Ok_0;
    plan_laws::lemma_claims_narrowed(db, id, tests, map, indices, picks, some);
    scan_laws::scan_gives_the_rows_that_pass(
        t,
        below,
        Some(wanted),
        at.start,
        at.num,
        at.block_size,
        at.memory_limit_mb,
        at.disk,
        some,
    );
    let p = |r: Seq<Val>| scan_laws::meets_all(r, checks);
    let kept = some.filter(p);
    let out = kept.map_values(plan_laws::picked_twice(picks));
    let c = indices[i] as int;
    let k = picks.order@[i] as int;
    assert(picks.keep@[k] == indices[i]);
    assert(picks.keep@.contains(indices[i]));
    assert(wanted[c]);
    assert forall|x: int, y: int| 0 <= x <= y < some.len() implies value::at_most(
        value::val_order(#[trigger] some[x][c], #[trigger] some[y][c]),
    ) by {
        assert(plan_laws::narrowed(some[x], all[x], wanted, columns.len()));
        assert(plan_laws::narrowed(some[y], all[y], wanted, columns.len()));
        assert(some[x][c] == all[x][c] && some[y][c] == all[y][c]);
    }
    rewrite_laws::lemma_filter_ascends(some, p, c);
    assert forall|x: int, y: int| 0 <= x <= y < out.len() implies value::at_most(
        value::val_order(#[trigger] out[x][i], #[trigger] out[y][i]),
    ) by {
        assert(out[x][i] == kept[x][c]);
        assert(out[y][i] == kept[y][c]);
    }
}

/// A plan without joins and sorts gives rows that ascend in a column that comes from one in
/// which a table is stored in order.
proof fn lemma_unjoined_ascends(plan: Plan, name: Seq<char>, e: Execution, db: Database)
    requires
        answer::sound(plan, db.tables),
        answer::rows_fit(db),
        rewrite_laws::order_holds(db),
        execution_laws::carried_out(plan, e, db),
        rewrite::column_ordered(plan, name, db.tables),
    ensures
        schema::column_index(answer::columns_of(plan, db.tables), name) matches Some(i)
            && scan_laws::ascend(e.rows, i),
    decreases plan,
{
    let columns = answer::columns_of(plan, db.tables);
    rewrite_laws::lemma_ordered_ascends(plan, name, db);
    let i = schema::column_index(columns, name)->Some_0;
    reveal_with_fuel(rewrite::column_ordered, 3);
    match (plan, e.work) {
        (Plan::Scan(id), Work::Scan(at)) => {
            assert(scan_laws::ascend((db.rows)(id), i));
            assert(plan_laws::claims_hold(db, id, Seq::empty()));
            lemma_scan_ascends(id, Seq::empty(), at, i, db);
        },
        (Plan::Filter(tests, below), work) => {
            match (filter::filter_way(tests, *below, db.tables), *below, work) {
                (Ok(FilterWay::Scan), Plan::Scan(id), Work::Scan(at)) => {
                    rewrite_laws::lemma_ordered_ascends(*below, name, db);
                    lemma_scan_ascends(id, tests, at, i, db);
                },
                (
                    Ok(FilterWay::ProjectedScan(_, _)),
                    Plan::Project(map, inner),
                    Work::NarrowedScan(indices, picks, at),
                ) => {
                    match *inner {
                        Plan::Scan(id) => {
                            let c = lemma_source_ascends(id, map, name, indices, db);
                            assert(c == i);
                            lemma_narrowed_scan_ascends(id, map, tests, indices, picks, at, i, db);
                        },
                        _ => {},
                    }
                },
                (Ok(FilterWay::Stream(given)), _, Work::Stream(inner)) => {
                    lemma_unjoined_ascends(*below, name, *inner, db);
                    execution_laws::lemma_stream_columns(tests, *below, db.tables);
                    plan_laws::lemma_streamed_without_fault(inner.rows, given, tests);
                    rewrite_laws::lemma_filter_ascends(
                        inner.rows,
                        |r: Seq<Val>| row::tests_outcome(r, given, tests) == Ok::<bool, Fault>(true),
                        i,
                    );
                },
                _ => {},
            }
        },
        (Plan::Project(map, below), Work::NarrowedScan(indices, picks, at)) => {
            match *below {
                Plan::Scan(id) => {
                    let whole = schema::table_columns(plan_laws::table_of(db, id));
                    let places = rows::positions(indices);
                    let none = Seq::<Test>::empty();
                    assert(filter::table_tests(
                        none,
                        project::renamed(whole, places, map),
                        places,
                        whole,
                    ) =~= none);
                    let c = lemma_source_ascends(id, map, name, indices, db);
                    assert(c == i);
                    lemma_narrowed_scan_ascends(id, map, none, indices, picks, at, i, db);
                },
                _ => {},
            }
        },
        (Plan::Project(map, below), Work::Stream(inner)) => {
            let under = answer::columns_of(*below, db.tables);
            rewrite_laws::lemma_output(map, name);
            let k = rewrite::output_index(map, name)->Some_0;
            lemma_unjoined_ascends(*below, map[k].0, *inner, db);
            answer::lemma_projected(under, map);
            answer::lemma_sources(under, map);
            let from = project::sources(under, map)->Ok_0;
            assert(schema::column_index(under, map[k].0) == Some(from[k]));
            assert(k == i);
            assert forall|x: int, y: int| 0 <= x <= y < e.rows.len() implies value::at_most(
                value::val_order(#[trigger] e.rows[x][i], #[trigger] e.rows[y][i]),
            ) by {
                assert(e.rows[x][i] == inner.rows[x][from[i]]);
                assert(e.rows[y][i] == inner.rows[y][from[i]]);
            }
        },
        _ => {},
    }
}

/// Where a column of a projection of a table comes from, the table ascends.
proof fn lemma_source_ascends(
    id: Seq<char>,
    map: Seq<(Seq<char>, Seq<char>)>,
    name: Seq<char>,
    indices: Seq<usize>,
    db: Database,
) -> (i: int)
    requires
        answer::sound(Plan::Project(map, Box::new(Plan::Scan(id))), db.tables),
        answer::rows_fit(db),
        rewrite_laws::order_holds(db),
        rewrite::column_ordered(Plan::Project(map, Box::new(Plan::Scan(id))), name, db.tables),
        project::sources(
            schema::table_columns(plan_laws::table_of(db, id)),
            map,
        ) == Ok::<Seq<int>, Seq<char>>(rows::positions(indices)),
    ensures
        schema::column_index(
            answer::columns_of(Plan::Project(map, Box::new(Plan::Scan(id))), db.tables),
            name,
        ) == Some(i),
        0 <= i < indices.len(),
        scan_laws::ascend((db.rows)(id), indices[i] as int),
{
    let scan = Plan::Scan(id);
    reveal_with_fuel(rewrite::column_ordered, 3);
    rewrite_laws::lemma_output(map, name);
    let k = rewrite::output_index(map, name)->Some_0;
    let under = answer::columns_of(scan, db.tables);
    assert(under == schema::table_columns(plan_laws::table_of(db, id)));
    rewrite_laws::lemma_ordered_ascends(scan, map[k].0, db);
    answer::lemma_projected(under, map);
    answer::lemma_sources(under, map);
    let from = project::sources(under, map)->Ok_0;
    assert(schema::column_index(under, map[k].0) == Some(from[k]));
    assert(from[k] == indices[k]);
    k
}

/// A plan without joins and sorts that comes in the order of keys gives its rows in that order.
proof fn lemma_unjoined_sorted(plan: Plan, keys: Seq<SortKey>, e: Execution, db: Database)
    requires
        answer::sound(plan, db.tables),
        answer::rows_fit(db),
        rewrite_laws::order_holds(db),
        execution_laws::carried_out(plan, e, db),
        rewrite::already_sorted(plan, keys, db.tables),
    ensures
        sort::key_positions(answer::columns_of(plan, db.tables), keys) matches Ok(at)
            && sort_laws::sorted(e.rows, at),
{
    let columns = answer::columns_of(plan, db.tables);
    lemma_unjoined_ascends(plan, keys[0].column, e, db);
    let i = schema::column_index(columns, keys[0].column)->Some_0;
    reveal_with_fuel(sort::key_positions, 2);
    assert(keys.drop_last() =~= Seq::empty());
    let at = sort::key_positions(columns, keys)->Ok_0;
    assert(at =~= seq![(i, true)]);
    assert forall|x: int, y: int| 0 <= x < y < e.rows.len() implies sort::rows_order(
        #[trigger] e.rows[x],
        #[trigger] e.rows[y],
        at,
    ) != Order::Greater by {
        assert(value::at_most(value::val_order(e.rows[x][i], e.rows[y][i])));
        reveal_with_fuel(sort::rows_order, 2);
    }
}

/// A plan that asks for its rows in the order of keys gives them in that order when it is
/// carried out, where no key is a NaN and the tables are stored as their statistics say.
pub proof fn an_execution_comes_in_the_order_of_its_plan(
    plan: Plan,
    keys: Seq<SortKey>,
    e: Execution,
    db: Database,
)
    requires
        answer::sound(plan, db.tables),
        answer::rows_fit(db),
        rewrite_laws::order_holds(db),
        execution_laws::carried_out(plan, e, db),
        comes_by(plan, keys, db.tables),
        keys_compare(plan, e, db),
    ensures
        sort::key_positions(answer::columns_of(plan, db.tables), keys) matches Ok(at)
            && sort_laws::sorted(e.rows, at),
    decreases plan,
{
    if execution_laws::is_unjoined(plan) {
        lemma_unjoined_is_stored(plan, keys, db.tables);
        lemma_unjoined_sorted(plan, keys, e, db);
    } else {
        reveal_with_fuel(execution_laws::is_unjoined, 3);
        match (plan, e.work) {
            (Plan::Filter(tests, below), Work::Stream(inner)) => {
                let columns = answer::columns_of(*below, db.tables);
                assert(comes_by(*below, keys, db.tables));
                assert(!(*below is Cross));
                assert(filter::filter_way(tests, *below, db.tables) == Ok::<FilterWay, Fault>(
                    FilterWay::Stream(columns),
                ));
                an_execution_comes_in_the_order_of_its_plan(*below, keys, *inner, db);
                let at = sort::key_positions(columns, keys)->Ok_0;
                plan_laws::lemma_streamed_without_fault(inner.rows, columns, tests);
                lemma_filter_sorted(
                    inner.rows,
                    |r: Seq<Val>| row::tests_outcome(r, columns, tests) == Ok::<bool, Fault>(true),
                    at,
                );
            },
            (Plan::Filter(tests, below), _) => {
                assert(comes_by(*below, keys, db.tables));
                assert(!(*below is Cross));
                assert(false);
            },
            (Plan::Project(map, below), Work::Stream(inner)) => {
                let columns = answer::columns_of(*below, db.tables);
                an_execution_comes_in_the_order_of_its_plan(
                    *below,
                    keys_below(map, keys),
                    *inner,
                    db,
                );
                lemma_projected_sorted(map, keys, columns, inner.rows);
            },
            (Plan::Sort(specs, below), _) => {
                execution_laws::an_executed_sort_gives_its_rows_in_order(specs, *below, e, db);
                let at = sort::key_positions(answer::columns_of(*below, db.tables), specs)->Ok_0;
                assert forall|x: Seq<Val>| #[trigger] e.rows.to_multiset().contains(x) implies
                    sort::has_keys(x, at) by {
                    vstd::seq_lib::to_multiset_contains(e.rows, x);
                    let i = choose|i: int| 0 <= i < e.rows.len() && e.rows[i] == x;
                    assert(sort::has_keys(e.rows[i], at));
                }
                assert(sort_output_laws::keyed(e.rows.to_multiset(), at));
            },
            _ => {},
        }
    }
}

// ---- the passes keep the order ----

/// Putting joins in order keeps the order in which rows come.
pub proof fn putting_joins_in_order_keeps_the_order_of_rows(
    plan: Plan,
    keys: Seq<SortKey>,
    tables: Seq<Table>,
)
    requires
        comes_by(plan, keys, tables),
    ensures
        reorder::reordered(plan, tables) matches Ok(q) ==> comes_by(q, keys, tables),
        reorder::reordered(plan, tables) matches Ok(q) ==> (plan is Sort ==> q is Sort),
    decreases plan,
{
    match plan {
        Plan::Filter(tests, child) => {
            putting_joins_in_order_keeps_the_order_of_rows(*child, keys, tables);
            if reorder::reordered(*child, tables) is Ok {
                let c = reorder::reordered(*child, tables)->Ok_0;
                assert(!(c is Cross));
                assert(reorder::leaves(c) =~= seq![c]);
            }
        },
        Plan::Project(map, child) => {
            putting_joins_in_order_keeps_the_order_of_rows(*child, keys_below(map, keys), tables);
        },
        _ => {},
    }
}

/// Rewriting keeps the order in which rows come.
pub proof fn rewriting_keeps_the_order_of_rows(plan: Plan, keys: Seq<SortKey>, tables: Seq<Table>)
    requires
        comes_by(plan, keys, tables),
    ensures
        rewrite::rewritten(plan, tables) matches Ok(q) ==> comes_by(q, keys, tables),
        rewrite::rewritten(plan, tables) matches Ok(q) ==> (plan is Sort ==> q is Sort
            || execution_laws::is_unjoined(q)),
    decreases plan,
{
    match plan {
        Plan::Filter(tests, child) => {
            rewriting_keeps_the_order_of_rows(*child, keys, tables);
        },
        Plan::Project(map, child) => {
            rewriting_keeps_the_order_of_rows(*child, keys_below(map, keys), tables);
        },
        Plan::Sort(own, child) => {
            if rewrite::rewritten(*child, tables) is Ok {
                let c = rewrite::rewritten(*child, tables)->Ok_0;
                let below = match c {
                    Plan::Sort(_, inner) => *inner,
                    other => other,
                };
                if rewrite::already_sorted(below, keys, tables) {
                    lemma_stored_comes_by(below, keys, tables);
                }
            }
        },
        _ => {},
    }
}

/// Whether the columns of keys are asked for.
pub open spec fn keys_asked(keys: Seq<SortKey>, required: Option<Set<Seq<char>>>) -> bool {
    required matches Some(r) ==> forall|i: int|
        0 <= i < keys.len() ==> r.contains((#[trigger] keys[i]).column)
}

/// The pair that gives a column that is asked for stays.
proof fn lemma_asked_output(
    map: Seq<(Seq<char>, Seq<char>)>,
    r: Set<Seq<char>>,
    name: Seq<char>,
)
    requires
        r.contains(name),
    ensures
        ({
            let pairs = map.filter(|pair: (Seq<char>, Seq<char>)| r.contains(pair.1));
            match (rewrite::output_index(map, name), rewrite::output_index(pairs, name)) {
                (Some(i), Some(j)) => 0 <= i < map.len() && 0 <= j < pairs.len() && pairs[j]
                    == map[i],
                (None, None) => true,
                _ => false,
            }
        }),
    decreases map.len(),
{
    reveal(Seq::filter);
    let asked = |pair: (Seq<char>, Seq<char>)| r.contains(pair.1);
    let pairs = map.filter(asked);
    rewrite_laws::lemma_output(map, name);
    rewrite_laws::lemma_output(pairs, name);
    if map.len() > 0 {
        let before = map.drop_last();
        let some = before.filter(asked);
        lemma_asked_output(before, r, name);
        rewrite_laws::lemma_output(before, name);
        rewrite_laws::lemma_output(some, name);
        let n = before.len() as int;
        assert forall|i: int| 0 <= i < n implies #[trigger] before[i] == map[i] by {}
        if asked(map.last()) {
            assert(pairs == some.push(map.last()));
            assert(pairs[some.len() as int] == map[n]);
        } else {
            assert(pairs == some);
        }
        assert forall|i: int| 0 <= i < some.len() implies #[trigger] some[i] == pairs[i] by {}
        match rewrite::output_index(before, name) {
            Some(i) => {
                let j = rewrite::output_index(some, name)->Some_0;
                assert(before[i] == map[i]);
                assert(some[j] == pairs[j]);
                assert(rewrite::output_index(map, name) == Some(i)) by {
                    let k = rewrite::output_index(map, name);
                    if k is Some && k->Some_0 < i {
                        assert(before[k->Some_0].1 != name);
                    }
                }
                assert(rewrite::output_index(pairs, name) == Some(j)) by {
                    let k = rewrite::output_index(pairs, name);
                    if k is Some && k->Some_0 < j {
                        assert(some[k->Some_0].1 != name);
                    }
                }
            },
            None => {
                match rewrite::output_index(map, name) {
                    Some(i) => {
                        if i < n {
                            assert(before[i].1 != name);
                        }
                        assert(i == n);
                        assert(asked(map[n]));
                        match rewrite::output_index(pairs, name) {
                            Some(j) => {
                                if j < some.len() {
                                    assert(some[j].1 != name);
                                }
                            },
                            None => {
                                assert(pairs[some.len() as int].1 != name);
                            },
                        }
                    },
                    None => {
                        assert(map[n].1 != name);
                        match rewrite::output_index(pairs, name) {
                            Some(j) => {
                                if j < some.len() {
                                    assert(some[j].1 != name);
                                }
                            },
                            None => {},
                        }
                    },
                }
            },
        }
    }
}

/// The keys below a projection are the same below the pairs that are asked for.
proof fn lemma_asked_keys(
    map: Seq<(Seq<char>, Seq<char>)>,
    keys: Seq<SortKey>,
    required: Option<Set<Seq<char>>>,
)
    requires
        gives_keys(map, keys),
        keys_asked(keys, required),
    ensures
        ({
            let pairs = pushdown::asked_pairs(map, required);
            &&& gives_keys(pairs, keys)
            &&& keys_below(pairs, keys) == keys_below(map, keys)
            &&& keys_asked(keys_below(map, keys), Some(pushdown::source_names(pairs)))
        }),
{
    let pairs = pushdown::asked_pairs(map, required);
    let (low, was) = (keys_below(pairs, keys), keys_below(map, keys));
    let names = pushdown::source_names(pairs);
    assert forall|i: int| 0 <= i < keys.len() implies rewrite::output_index(
        pairs,
        (#[trigger] keys[i]).column,
    ) is Some && low[i] == was[i] && names.contains(was[i].column) by {
        let name = keys[i].column;
        assert(rewrite::output_index(map, name) is Some);
        rewrite_laws::lemma_output(map, name);
        match required {
            Some(r) => {
                assert(r.contains(keys[i].column));
                lemma_asked_output(map, r, name);
                let j = rewrite::output_index(pairs, name)->Some_0;
                assert(pairs[j].0 == was[i].column);
            },
            None => {
                let j = rewrite::output_index(pairs, name)->Some_0;
                assert(pairs[j].0 == was[i].column);
            },
        }
    }
    assert forall|i: int| 0 <= i < keys.len() implies rewrite::output_index(
        pairs,
        (#[trigger] keys[i]).column,
    ) is Some by {}
    assert forall|i: int| 0 <= i < was.len() implies names.contains((#[trigger] was[i]).column) by {
        assert(rewrite::output_index(pairs, keys[i].column) is Some);
    }
    assert(low =~= was);
}

/// A narrowed scan of a table that is stored in order keeps the order.
proof fn lemma_narrowed_is_stored(
    id: Seq<char>,
    keys: Seq<SortKey>,
    r: Set<Seq<char>>,
    tables: Seq<Table>,
)
    requires
        stored_by(id, keys, tables),
        r.contains(keys[0].column),
        schema::plan_schema(Plan::Scan(id), tables) is Ok,
    ensures
        comes_by(
            pushdown::narrowed(id, r, answer::columns_of(Plan::Scan(id), tables)),
            keys,
            tables,
        ),
{
    let columns = answer::columns_of(Plan::Scan(id), tables);
    let asked = |c: Column| r.contains(c.name);
    let used = columns.filter(asked);
    if 0 < used.len() < columns.len() {
        let name = keys[0].column;
        let map = pushdown::keeping(used);
        let t = query::table_index(tables, id)->Some_0;
        let given = tables[t].columns;
        let k = query::spec_index(given, name)->Some_0;
        seqs::lemma_first_where(given, |c: query::TableColumn| c.name == name);
        assert(columns[k].name == name);
        assert(used.contains(columns[k])) by {
            broadcast use vstd::seq_lib::group_filter_ensures;

        }
        let j = choose|j: int| 0 <= j < used.len() && used[j] == columns[k];
        assert(map[j].1 == name);
        rewrite_laws::lemma_output(map, name);
        assert(rewrite::output_index(map, name) is Some);
        let i = rewrite::output_index(map, name)->Some_0;
        assert(map[i].0 == used[i].name && map[i].1 == used[i].name);
        let low = keys_below(map, keys);
        assert(low[0].column == map[i].0);
        assert(low =~= keys);
        assert forall|x: int| 0 <= x < keys.len() implies rewrite::output_index(
            map,
            (#[trigger] keys[x]).column,
        ) is Some by {}
        assert(comes_by(Plan::Scan(id), low, tables));
    }
}

/// Narrowing keeps the order in which rows come, where the columns of the keys are asked for.
pub proof fn narrowing_keeps_the_order_of_rows(
    plan: Plan,
    keys: Seq<SortKey>,
    required: Option<Set<Seq<char>>>,
    tables: Seq<Table>,
)
    requires
        comes_by(plan, keys, tables),
        keys_asked(keys, required),
    ensures
        pushdown::pushed(plan, required, tables) matches Ok(q) ==> comes_by(q, keys, tables),
        pushdown::pushed(plan, required, tables) matches Ok(q) ==> (plan is Sort ==> q is Sort),
        pushdown::pushed(plan, required, tables) matches Ok(q) ==> (execution_laws::is_unjoined(plan)
            ==> execution_laws::is_unjoined(q)),
    decreases plan,
{
    match plan {
        Plan::Scan(id) => {
            if required is Some && schema::plan_schema(plan, tables) is Ok {
                assert(required->Some_0.contains(keys[0].column));
                lemma_narrowed_is_stored(id, keys, required->Some_0, tables);
                reveal_with_fuel(execution_laws::is_unjoined, 2);
            }
        },
        Plan::Filter(tests, child) => {
            let more = pushdown::and_names(required, pushdown::test_names(tests));
            assert(keys_asked(keys, more));
            narrowing_keeps_the_order_of_rows(*child, keys, more, tables);
        },
        Plan::Project(map, child) => {
            lemma_asked_keys(map, keys, required);
            let pairs = pushdown::asked_pairs(map, required);
            narrowing_keeps_the_order_of_rows(
                *child,
                keys_below(map, keys),
                Some(pushdown::source_names(pairs)),
                tables,
            );
        },
        _ => {},
    }
}

/// Exchanging the sides of joins keeps the order in which rows come.
pub proof fn exchanging_sides_keeps_the_order_of_rows(
    plan: Plan,
    keys: Seq<SortKey>,
    tables: Seq<Table>,
)
    requires
        comes_by(plan, keys, tables),
    ensures
        swap::swapped(plan, tables) matches Ok(q) ==> comes_by(q, keys, tables),
        swap::swapped(plan, tables) matches Ok(q) ==> (plan is Sort ==> q is Sort),
        swap::swapped(plan, tables) matches Ok(q) ==> (execution_laws::is_unjoined(plan)
            ==> execution_laws::is_unjoined(q)),
    decreases plan,
{
    match plan {
        Plan::Filter(_, child) => {
            exchanging_sides_keeps_the_order_of_rows(*child, keys, tables);
        },
        Plan::Project(map, child) => {
            exchanging_sides_keeps_the_order_of_rows(*child, keys_below(map, keys), tables);
        },
        _ => {},
    }
}

/// Optimizing keeps the order in which rows come: what a sort gives in the order of its keys,
/// under filters and projections or not, the optimized plan gives in that order, by a sort by
/// the same keys or because a table is stored so.
pub proof fn optimizing_keeps_the_order_of_rows(plan: Plan, keys: Seq<SortKey>, tables: Seq<Table>)
    requires
        comes_by(plan, keys, tables),
    ensures
        optimizer::optimized(plan, tables) matches Ok(q) ==> comes_by(q, keys, tables),
        optimizer::optimized(plan, tables) matches Ok(q) ==> (plan is Sort ==> q is Sort
            || execution_laws::is_unjoined(q)),
{
    putting_joins_in_order_keeps_the_order_of_rows(plan, keys, tables);
    if reorder::reordered(plan, tables) is Ok {
        let p1 = reorder::reordered(plan, tables)->Ok_0;
        rewriting_keeps_the_order_of_rows(p1, keys, tables);
        if rewrite::rewritten(p1, tables) is Ok {
            let p2 = rewrite::rewritten(p1, tables)->Ok_0;
            narrowing_keeps_the_order_of_rows(p2, keys, None, tables);
            if pushdown::pushed(p2, None, tables) is Ok {
                exchanging_sides_keeps_the_order_of_rows(
                    pushdown::pushed(p2, None, tables)->Ok_0,
                    keys,
                    tables,
                );
            }
        }
    }
}

proof fn lemma_unjoined_has_no_keys(plan: Plan, e: Execution, db: Database)
    requires
        execution_laws::is_unjoined(plan),
        execution_laws::carried_out(plan, e, db),
    ensures
        keys_compare(plan, e, db),
    decreases plan,
{
    match (plan, e.work) {
        (Plan::Filter(tests, below), Work::Stream(inner)) => {
            assert(execution_laws::carried_out(*below, *inner, db));
            lemma_unjoined_has_no_keys(*below, *inner, db);
        },
        (Plan::Project(_, below), Work::Stream(inner)) => {
            lemma_unjoined_has_no_keys(*below, *inner, db);
        },
        _ => {},
    }
}

/// Where the outermost operation of a plan is a sort, the optimized plan that is carried out
/// gives its rows in the order of the keys of the sort, each key in its own direction. No key is
/// a NaN, and the tables are stored as their statistics say.
pub proof fn an_optimized_sort_gives_its_rows_in_order(
    keys: Seq<SortKey>,
    child: Plan,
    f: Execution,
    db: Database,
)
    requires
        answer::sound(Plan::Sort(keys, Box::new(child)), db.tables),
        answer::rows_fit(db),
        answer::joins_agree(Plan::Sort(keys, Box::new(child)), db),
        rewrite_laws::order_holds(db),
        optimizer::optimized(Plan::Sort(keys, Box::new(child)), db.tables) matches Ok(q) ==> {
            &&& execution_laws::carried_out(q, f, db)
            &&& sort::key_positions(answer::columns_of(q, db.tables), keys) matches Ok(at)
                ==> sort::all_have_keys(f.rows, at)
        },
    ensures
        optimizer::optimized(Plan::Sort(keys, Box::new(child)), db.tables) matches Ok(q)
            && sort::key_positions(answer::columns_of(q, db.tables), keys) matches Ok(at)
            && sort_laws::sorted(f.rows, at),
{
    let plan = Plan::Sort(keys, Box::new(child));
    laws::optimizing_keeps_the_answer(plan, db);
    optimizing_keeps_the_order_of_rows(plan, keys, db.tables);
    let q = optimizer::optimized(plan, db.tables)->Ok_0;
    if execution_laws::is_unjoined(q) {
        lemma_unjoined_has_no_keys(q, f, db);
    } else {
        match q {
            Plan::Sort(own, below) => {
                assert(answer::columns_of(q, db.tables) == answer::columns_of(*below, db.tables));
                assert(own == keys);
            },
            _ => {},
        }
    }
    assert(keys_compare(q, f, db));
    an_execution_comes_in_the_order_of_its_plan(q, keys, f, db);
}

/// A plan that asks for an order, as a projection of a sort does, is optimized to a plan that
/// gives the same records, up to the order of those that the keys do not tell apart, and gives
/// them in the order of the keys when it is carried out.
pub proof fn an_optimized_plan_comes_in_the_order_that_was_asked_for(
    plan: Plan,
    keys: Seq<SortKey>,
    f: Execution,
    db: Database,
)
    requires
        answer::sound(plan, db.tables),
        answer::rows_fit(db),
        answer::joins_agree(plan, db),
        rewrite_laws::order_holds(db),
        comes_by(plan, keys, db.tables),
        optimizer::optimized(plan, db.tables) matches Ok(q) ==> {
            &&& execution_laws::literals_fit(q, db.tables)
            &&& execution_laws::carried_out(q, f, db)
            &&& keys_compare(q, f, db)
        },
    ensures
        optimizer::optimized(plan, db.tables) matches Ok(q) && sort::key_positions(
            answer::columns_of(q, db.tables),
            keys,
        ) matches Ok(at) && sort_laws::sorted(f.rows, at) && seqs::same_bag(
            answer::records(answer::columns_of(q, db.tables), f.rows),
            answer::records(answer::columns_of(plan, db.tables), answer::rows_of(plan, db)),
        ),
{
    laws::optimizing_keeps_the_answer(plan, db);
    optimizing_keeps_the_order_of_rows(plan, keys, db.tables);
    let q = optimizer::optimized(plan, db.tables)->Ok_0;
    an_execution_comes_in_the_order_of_its_plan(q, keys, f, db);
    execution_laws::an_execution_gives_the_rows_of_its_plan(q, f, db);
    let columns = answer::columns_of(q, db.tables);
    seqs::lemma_map_bag(
        f.rows,
        answer::rows_of(q, db),
        |r: Seq<Val>| answer::record(columns, r),
    );
}

} // verus!
