//! What a plan means: the rows that it gives, and these rows as records, in which values
//! stand under the names of their columns.

use vstd::prelude::*;

use crate::error::Fault;
use crate::ops::cross;
use crate::ops::filter;
use crate::ops::hash;
use crate::ops::hash_join;
use crate::ops::join_laws;
use crate::ops::project;
use crate::ops::rows;
use crate::optimizer::rewrite;
use crate::query::{ComparisionOperator, Operand, Plan, Table, Test};
use crate::query;
use crate::row;
use crate::schema::Column;
use crate::schema;
use crate::seqs;
use crate::value::Val;
use crate::value;

verus! {

/// A database: its tables, and the rows of each.
pub struct Database {
    pub tables: Seq<Table>,
    pub rows: spec_fn(Seq<char>) -> Seq<Seq<Val>>,
}

/// The columns of the rows of a plan.
pub open spec fn columns_of(plan: Plan, tables: Seq<Table>) -> Seq<Column> {
    schema::plan_schema(plan, tables)->Ok_0
}

/// Whether no two columns have the same name.
pub open spec fn distinct(columns: Seq<Column>) -> bool {
    forall|i: int, j: int|
        0 <= i < columns.len() && 0 <= j < columns.len() && i != j ==> (#[trigger] columns[i]).name
            != (#[trigger] columns[j]).name
}

/// Whether a plan makes sense: it names only tables and columns that there are, and no two
/// columns of any of its parts have the same name.
pub open spec fn sound(plan: Plan, tables: Seq<Table>) -> bool
    decreases plan,
{
    &&& schema::plan_schema(plan, tables) is Ok
    &&& distinct(columns_of(plan, tables))
    &&& match plan {
        Plan::Scan(_) => true,
        Plan::Filter(tests, child) => sound(*child, tables) && filter::tests_within(
            tests,
            columns_of(*child, tables),
        ),
        Plan::Project(_, child) => sound(*child, tables),
        Plan::Sort(_, child) => sound(*child, tables),
        Plan::Cross(l, r) => sound(*l, tables) && sound(*r, tables),
        Plan::HashJoin(l, r, a, b) => sound(*l, tables) && sound(*r, tables)
            && rewrite::has_column(columns_of(*l, tables), a) && rewrite::has_column(
            columns_of(*r, tables),
            b,
        ),
    }
}

/// Whether the rows of each table have the types of its columns.
pub open spec fn rows_fit(db: Database) -> bool {
    forall|id: Seq<char>, i: int|
        #![trigger (db.rows)(id)[i]]
        0 <= i < (db.rows)(id).len() ==> (query::table_index(db.tables, id) matches Some(t)
            ==> row::row_fits((db.rows)(id)[i], schema::table_columns(db.tables[t])))
}

/// The rows that a plan gives. A sort changes their order alone, and that is not said here.
pub open spec fn rows_of(plan: Plan, db: Database) -> Seq<Seq<Val>>
    decreases plan,
{
    match plan {
        Plan::Scan(id) => (db.rows)(id),
        Plan::Filter(tests, child) => {
            let columns = columns_of(*child, db.tables);
            rows_of(*child, db).filter(
                |r: Seq<Val>| row::tests_outcome(r, columns, tests) == Ok::<bool, Fault>(true),
            )
        },
        Plan::Project(map, child) => {
            let at = project::sources(columns_of(*child, db.tables), map)->Ok_0;
            rows_of(*child, db).map_values(|r: Seq<Val>| rows::picked(r, at))
        },
        Plan::Sort(_, child) => rows_of(*child, db),
        Plan::Cross(l, r) => cross::all_pairs(
            rows_of(*l, db),
            rows_of(*r, db),
            columns_of(plan, db.tables),
            None,
        ).0,
        Plan::HashJoin(l, r, a, b) => join_laws::equi_pairs(
            rows_of(*l, db),
            schema::column_index(columns_of(*l, db.tables), a)->Some_0,
            rows_of(*r, db),
            schema::column_index(columns_of(*r, db.tables), b)->Some_0,
        ),
    }
}

// ---- records ----

/// Values under names.
pub type Record = Map<Seq<char>, Val>;

/// A row as a record: its values under the names of their columns.
pub open spec fn record(columns: Seq<Column>, r: Seq<Val>) -> Record {
    Map::new(
        |n: Seq<char>| rewrite::has_column(columns, n),
        |n: Seq<char>| r[schema::column_index(columns, n)->Some_0],
    )
}

/// The records of rows.
pub open spec fn records(columns: Seq<Column>, all: Seq<Seq<Val>>) -> Seq<Record> {
    all.map_values(|r: Seq<Val>| record(columns, r))
}

/// Whether a record passes a test.
pub open spec fn passes(a: Record, test: Test) -> bool {
    match test.value {
        Operand::Column(other) => row::vals_compare(a[test.column], test.operator, a[other]),
        literal => match row::coerced(literal, row::val_type(a[test.column])) {
            None => false,
            Some(v) => row::vals_compare(a[test.column], test.operator, v),
        },
    }
}

/// Whether a record passes all tests.
pub open spec fn passes_all(a: Record, tests: Seq<Test>) -> bool {
    forall|i: int| 0 <= i < tests.len() ==> passes(a, #[trigger] tests[i])
}

/// Two records as one. The values of the first go before those of the second.
pub open spec fn both(a: Record, b: Record) -> Record {
    b.union_prefer_right(a)
}

/// A record under the names of a projection.
pub open spec fn renamed(a: Record, map: Seq<(Seq<char>, Seq<char>)>) -> Record {
    Map::new(
        |n: Seq<char>| rewrite::output_index(map, n) is Some,
        |n: Seq<char>| a[map[rewrite::output_index(map, n)->Some_0].0],
    )
}

/// The records that pass tests.
pub open spec fn sifted(all: Seq<Record>, tests: Seq<Test>) -> Seq<Record> {
    seqs::flat(all, |a: Record| seqs::one_if(passes_all(a, tests), a))
}

/// The pairs of records that satisfy a condition.
pub open spec fn pairs_if(
    left: Seq<Record>,
    right: Seq<Record>,
    p: spec_fn(Record, Record) -> bool,
) -> Seq<Record> {
    seqs::flat(
        left,
        |a: Record| seqs::flat(right, |b: Record| seqs::one_if(p(a, b), both(a, b))),
    )
}

/// All pairs of records.
pub open spec fn crossed(left: Seq<Record>, right: Seq<Record>) -> Seq<Record> {
    pairs_if(left, right, |a: Record, b: Record| true)
}

/// The pairs of records with the same key.
pub open spec fn matched(
    left: Seq<Record>,
    right: Seq<Record>,
    x: Seq<char>,
    y: Seq<char>,
) -> Seq<Record> {
    pairs_if(left, right, |a: Record, b: Record| hash::same_key(b[y], a[x]))
}

/// The records that a plan gives.
pub open spec fn answer(plan: Plan, db: Database) -> Seq<Record>
    decreases plan,
{
    match plan {
        Plan::Scan(id) => records(columns_of(plan, db.tables), (db.rows)(id)),
        Plan::Filter(tests, child) => sifted(answer(*child, db), tests),
        Plan::Project(map, child) => answer(*child, db).map_values(
            |a: Record| renamed(a, map),
        ),
        Plan::Sort(_, child) => answer(*child, db),
        Plan::Cross(l, r) => crossed(answer(*l, db), answer(*r, db)),
        Plan::HashJoin(l, r, x, y) => matched(answer(*l, db), answer(*r, db), x, y),
    }
}

// ---- columns ----

/// A column of two inputs is one of the first, or else one of the second.
pub proof fn lemma_index_append(a: Seq<Column>, b: Seq<Column>, n: Seq<char>)
    ensures
        schema::column_index(a + b, n) == match schema::column_index(a, n) {
            Some(i) => Some(i),
            None => match schema::column_index(b, n) {
                Some(j) => Some(a.len() + j),
                None => None,
            },
        },
        rewrite::has_column(a + b, n) == (rewrite::has_column(a, n) || rewrite::has_column(b, n)),
{
    let p = |c: Column| c.name == n;
    seqs::lemma_first_where(a, p);
    seqs::lemma_first_where(b, p);
    match schema::column_index(a, n) {
        Some(i) => {
            assert forall|j: int| 0 <= j < i implies !p(#[trigger] (a + b)[j]) by {
                assert((a + b)[j] == a[j]);
            }
            seqs::lemma_first_where_is(a + b, p, i);
        },
        None => {
            match schema::column_index(b, n) {
                Some(k) => {
                    assert forall|j: int| 0 <= j < a.len() + k implies !p(#[trigger] (a + b)[j]) by {
                        if j < a.len() {
                            assert((a + b)[j] == a[j]);
                        } else {
                            assert((a + b)[j] == b[j - a.len()]);
                        }
                    }
                    assert((a + b)[a.len() + k] == b[k]);
                    seqs::lemma_first_where_is(a + b, p, a.len() + k);
                },
                None => {
                    assert forall|j: int| 0 <= j < (a + b).len() implies !p(#[trigger] (a + b)[j]) by {
                        if j < a.len() {
                            assert((a + b)[j] == a[j]);
                        } else {
                            assert((a + b)[j] == b[j - a.len()]);
                        }
                    }
                    seqs::lemma_first_where_none(a + b, p);
                },
            }
        },
    }
}

/// A column is where its name says.
pub proof fn lemma_index(columns: Seq<Column>, n: Seq<char>)
    ensures
        match schema::column_index(columns, n) {
            Some(i) => 0 <= i < columns.len() && columns[i].name == n,
            None => forall|i: int| 0 <= i < columns.len() ==> (#[trigger] columns[i]).name != n,
        },
{
    let p = |c: Column| c.name == n;
    seqs::lemma_first_where(columns, p);
    if schema::column_index(columns, n) is None {
        assert forall|i: int| 0 <= i < columns.len() implies (#[trigger] columns[i]).name != n by {
            assert(!p(columns[i]));
        }
    }
}

/// A column that there is, is found.
pub proof fn lemma_has(columns: Seq<Column>, i: int)
    requires
        0 <= i < columns.len(),
    ensures
        rewrite::has_column(columns, columns[i].name),
        distinct(columns) ==> schema::column_index(columns, columns[i].name) == Some(i),
{
    lemma_index(columns, columns[i].name);
}

/// Where the values of a projection come from.
pub proof fn lemma_sources(columns: Seq<Column>, map: Seq<(Seq<char>, Seq<char>)>)
    ensures
        match project::sources(columns, map) {
            Ok(at) => at.len() == map.len() && forall|i: int|
                0 <= i < map.len() ==> schema::column_index(columns, (#[trigger] map[i]).0) == Some(
                    at[i],
                ),
            Err(_) => exists|i: int|
                0 <= i < map.len() && schema::column_index(columns, (#[trigger] map[i]).0) is None,
        },
    decreases map.len(),
{
    if map.len() > 0 {
        let before = map.drop_last();
        lemma_sources(columns, before);
        match project::sources(columns, before) {
            Ok(at) => {
                if schema::column_index(columns, map.last().0) is Some {
                    let all = project::sources(columns, map)->Ok_0;
                    assert forall|i: int| 0 <= i < map.len() implies schema::column_index(
                        columns,
                        (#[trigger] map[i]).0,
                    ) == Some(all[i]) by {
                        if i < before.len() {
                            assert(before[i] == map[i]);
                        }
                    }
                } else {
                    assert(schema::column_index(columns, map[map.len() - 1].0) is None);
                }
            },
            Err(_) => {
                let i = choose|i: int|
                    0 <= i < before.len() && schema::column_index(
                        columns,
                        (#[trigger] before[i]).0,
                    ) is None;
                assert(map[i] == before[i]);
            },
        }
    }
}

/// The columns of a projection: each pair gives one, of the type of its source.
pub proof fn lemma_projected(columns: Seq<Column>, map: Seq<(Seq<char>, Seq<char>)>)
    requires
        schema::projected_columns(columns, map) is Ok,
    ensures
        project::sources(columns, map) is Ok,
        schema::projected_columns(columns, map)->Ok_0.len() == map.len(),
        forall|i: int|
            0 <= i < map.len() ==> (#[trigger] schema::projected_columns(columns, map)->Ok_0[i])
                == (Column {
                name: map[i].1,
                data_type: columns[schema::column_index(columns, map[i].0)->Some_0].data_type,
            }),
        forall|i: int| 0 <= i < map.len() ==> rewrite::has_column(columns, (#[trigger] map[i]).0),
        forall|n: Seq<char>| #[trigger]
            schema::column_index(schema::projected_columns(columns, map)->Ok_0, n)
                == rewrite::output_index(map, n),
{
    project::lemma_projected_is_renamed(columns, map);
    lemma_sources(columns, map);
    let given = schema::projected_columns(columns, map)->Ok_0;
    assert forall|n: Seq<char>| #[trigger]
        schema::column_index(given, n) == rewrite::output_index(map, n) by {
        let p = |c: Column| c.name == n;
        let q = |pair: (Seq<char>, Seq<char>)| pair.1 == n;
        seqs::lemma_first_where(map, q);
        match rewrite::output_index(map, n) {
            Some(i) => {
                assert forall|j: int| 0 <= j < i implies !p(#[trigger] given[j]) by {
                    assert(!q(map[j]));
                }
                seqs::lemma_first_where_is(given, p, i);
            },
            None => {
                assert forall|j: int| 0 <= j < given.len() implies !p(#[trigger] given[j]) by {
                    assert(!q(map[j]));
                }
                seqs::lemma_first_where_none(given, p);
            },
        }
    }
}

/// Where each source of a projection is there, the projection can be made.
pub proof fn lemma_projects(columns: Seq<Column>, map: Seq<(Seq<char>, Seq<char>)>)
    requires
        forall|i: int| 0 <= i < map.len() ==> rewrite::has_column(columns, (#[trigger] map[i]).0),
    ensures
        schema::projected_columns(columns, map) is Ok,
{
    project::lemma_projected_is_renamed(columns, map);
    lemma_sources(columns, map);
}

// ---- rows and records ----

/// A test of a row is a test of its record.
proof fn lemma_test(r: Seq<Val>, columns: Seq<Column>, test: Test)
    requires
        row::row_fits(r, columns),
        filter::test_within(test, columns),
    ensures
        (row::test_outcome(r, columns, test) == Ok::<bool, Fault>(true)) == passes(
            record(columns, r),
            test,
        ),
{
    lemma_index(columns, test.column);
    match test.value {
        Operand::Column(other) => {
            lemma_index(columns, other);
        },
        _ => {},
    }
}

/// The tests of a row are tests of its record.
proof fn lemma_tests(r: Seq<Val>, columns: Seq<Column>, tests: Seq<Test>)
    requires
        row::row_fits(r, columns),
        filter::tests_within(tests, columns),
    ensures
        (row::tests_outcome(r, columns, tests) == Ok::<bool, Fault>(true)) == passes_all(
            record(columns, r),
            tests,
        ),
    decreases tests.len(),
{
    if tests.len() > 0 {
        let before = tests.drop_last();
        assert forall|i: int| 0 <= i < before.len() implies filter::test_within(
            #[trigger] before[i],
            columns,
        ) by {
            assert(before[i] == tests[i]);
        }
        lemma_tests(r, columns, before);
        assert(filter::test_within(tests[tests.len() - 1], columns));
        lemma_test(r, columns, tests.last());
        let a = record(columns, r);
        assert(passes_all(a, tests) == (passes_all(a, before) && passes(a, tests.last()))) by {
            if passes_all(a, tests) {
                assert forall|i: int| 0 <= i < before.len() implies passes(a, #[trigger] before[i]) by {
                    assert(before[i] == tests[i]);
                }
                assert(passes(a, tests[tests.len() - 1]));
            }
            if passes_all(a, before) && passes(a, tests.last()) {
                assert forall|i: int| 0 <= i < tests.len() implies passes(a, #[trigger] tests[i]) by {
                    if i < before.len() {
                        assert(before[i] == tests[i]);
                    }
                }
            }
        }
    }
}

/// Filtering, row by row.
pub proof fn lemma_filter_is_flat(s: Seq<Seq<Val>>, p: spec_fn(Seq<Val>) -> bool)
    ensures
        s.filter(p) == seqs::flat(s, |r: Seq<Val>| seqs::one_if(p(r), r)),
    decreases s.len(),
{
    reveal(Seq::filter);
    let f = |r: Seq<Val>| seqs::one_if(p(r), r);
    if s.len() > 0 {
        lemma_filter_is_flat(s.drop_last(), p);
        assert(s.filter(p) =~= seqs::flat(s.drop_last(), f) + f(s.last()));
    } else {
        assert(s.filter(p) =~= seqs::flat(s, f));
    }
}

/// All pairs, row by row.
pub proof fn lemma_pairs_are_flat(left: Seq<Seq<Val>>, right: Seq<Seq<Val>>, columns: Seq<Column>)
    ensures
        cross::all_pairs(left, right, columns, None) == (
            seqs::flat(left, |a: Seq<Val>| seqs::flat(right, |b: Seq<Val>| seq![a + b])),
            None::<Fault>,
        ),
    decreases left.len(),
{
    let f = |a: Seq<Val>| seqs::flat(right, |b: Seq<Val>| seq![a + b]);
    if left.len() > 0 {
        lemma_pairs_are_flat(left.drop_last(), right, columns);
        lemma_each_is_flat(left.last(), right, columns);
        assert(f(left.last()) == cross::with_each(left.last(), right, columns, None).0);
    } else {
        assert(seqs::flat(left, f) =~= Seq::<Seq<Val>>::empty());
    }
}

proof fn lemma_each_is_flat(a: Seq<Val>, right: Seq<Seq<Val>>, columns: Seq<Column>)
    ensures
        cross::with_each(a, right, columns, None) == (
            seqs::flat(right, |b: Seq<Val>| seq![a + b]),
            None::<Fault>,
        ),
    decreases right.len(),
{
    let f = |b: Seq<Val>| seq![a + b];
    if right.len() > 0 {
        lemma_each_is_flat(a, right.drop_last(), columns);
        let before = cross::with_each(a, right.drop_last(), columns, None).0;
        assert(before.push(a + right.last()) =~= before + f(right.last()));
    } else {
        assert(seqs::flat(right, f) =~= Seq::<Seq<Val>>::empty());
    }
}

proof fn lemma_matches_are_flat(r: Seq<Val>, held: Seq<Seq<Val>>, col: int, key: Val)
    ensures
        hash_join::paired(r, hash::matching(held, col, key), true) == seqs::flat(
            held,
            |b: Seq<Val>| seqs::one_if(hash::same_key(b[col], key), r + b),
        ),
    decreases held.len(),
{
    reveal(Seq::filter);
    let f = |b: Seq<Val>| seqs::one_if(hash::same_key(b[col], key), r + b);
    let p = |b: Seq<Val>| hash::same_key(b[col], key);
    if held.len() > 0 {
        let before = held.drop_last();
        lemma_matches_are_flat(r, before, col, key);
        assert(hash::matching(held, col, key) == held.filter(p));
        assert(hash_join::paired(r, held.filter(p), true) =~= hash_join::paired(
            r,
            before.filter(p),
            true,
        ) + f(held.last()));
    } else {
        assert(hash_join::paired(r, hash::matching(held, col, key), true) =~= seqs::flat(held, f));
    }
}

/// The pairs with the same key, row by row.
pub proof fn lemma_joins_are_flat(left: Seq<Seq<Val>>, x: int, right: Seq<Seq<Val>>, y: int)
    ensures
        join_laws::equi_pairs(left, x, right, y) == seqs::flat(
            left,
            |a: Seq<Val>|
                seqs::flat(right, |b: Seq<Val>| seqs::one_if(hash::same_key(b[y], a[x]), a + b)),
        ),
    decreases left.len(),
{
    let f = |a: Seq<Val>|
        seqs::flat(right, |b: Seq<Val>| seqs::one_if(hash::same_key(b[y], a[x]), a + b));
    if left.len() > 0 {
        lemma_joins_are_flat(left.drop_last(), x, right, y);
        let a = left.last();
        lemma_matches_are_flat(a, right, y, a[x]);
        assert(f(a) == hash_join::paired(a, hash::matching(right, y, a[x]), true));
        assert(join_laws::equi_pairs(left, x, right, y) == join_laws::equi_pairs(
            left.drop_last(),
            x,
            right,
            y,
        ) + f(a));
    } else {
        assert(join_laws::equi_pairs(left, x, right, y) =~= seqs::flat(left, f));
    }
}

/// The record of a pair of rows.
proof fn lemma_record_of_pair(lc: Seq<Column>, rc: Seq<Column>, a: Seq<Val>, b: Seq<Val>)
    requires
        a.len() == lc.len(),
        b.len() == rc.len(),
    ensures
        record(lc + rc, a + b) == both(record(lc, a), record(rc, b)),
{
    let (x, y) = (record(lc + rc, a + b), both(record(lc, a), record(rc, b)));
    assert forall|n: Seq<char>| #![auto] x.dom().contains(n) == y.dom().contains(n) by {
        lemma_index_append(lc, rc, n);
    }
    assert forall|n: Seq<char>| #![auto] x.dom().contains(n) implies x[n] == y[n] by {
        lemma_index_append(lc, rc, n);
        lemma_index(lc, n);
        lemma_index(rc, n);
    }
    assert(x =~= y);
}

/// The records of pairs of rows, as far as the pairs are kept.
proof fn lemma_records_of_pairs(
    lc: Seq<Column>,
    rc: Seq<Column>,
    left: Seq<Seq<Val>>,
    right: Seq<Seq<Val>>,
    p: spec_fn(Seq<Val>, Seq<Val>) -> bool,
    q: spec_fn(Record, Record) -> bool,
)
    requires
        forall|i: int| 0 <= i < left.len() ==> (#[trigger] left[i]).len() == lc.len(),
        forall|i: int| 0 <= i < right.len() ==> (#[trigger] right[i]).len() == rc.len(),
        forall|i: int, j: int|
            0 <= i < left.len() && 0 <= j < right.len() ==> p(#[trigger] left[i], #[trigger] right[j])
                == q(record(lc, left[i]), record(rc, right[j])),
    ensures
        records(
            lc + rc,
            seqs::flat(
                left,
                |a: Seq<Val>| seqs::flat(right, |b: Seq<Val>| seqs::one_if(p(a, b), a + b)),
            ),
        ) == pairs_if(records(lc, left), records(rc, right), q),
{
    let f = |a: Seq<Val>| seqs::flat(right, |b: Seq<Val>| seqs::one_if(p(a, b), a + b));
    let g = |a: Record|
        seqs::flat(
            records(rc, right),
            |b: Record| seqs::one_if(q(a, b), both(a, b)),
        );
    let rec = |r: Seq<Val>| seq![record(lc + rc, r)];
    let lrec = |r: Seq<Val>| seq![record(lc, r)];
    let rrec = |r: Seq<Val>| seq![record(rc, r)];
    let h = |a: Seq<Val>| g(record(lc, a));
    let all = seqs::flat(left, f);
    seqs::lemma_flat_map(all, rec, |r: Seq<Val>| record(lc + rc, r));
    seqs::lemma_flat_map(left, lrec, |r: Seq<Val>| record(lc, r));
    seqs::lemma_flat_map(right, rrec, |r: Seq<Val>| record(rc, r));
    assert forall|i: int| 0 <= i < left.len() implies seqs::flat(f(#[trigger] left[i]), rec) == h(
        left[i],
    ) by {
        let a = left[i];
        let ra = record(lc, a);
        let fa = |b: Seq<Val>| seqs::one_if(p(a, b), a + b);
        let ga = |b: Record| seqs::one_if(q(ra, b), both(ra, b));
        let k = |b: Seq<Val>| ga(record(rc, b));
        assert(f(a) == seqs::flat(right, fa));
        assert(h(a) == seqs::flat(records(rc, right), ga));
        assert forall|j: int| 0 <= j < right.len() implies seqs::flat(fa(#[trigger] right[j]), rec)
            == k(right[j]) by {
            let b = right[j];
            lemma_record_of_pair(lc, rc, a, b);
            seqs::lemma_flat_one(a + b, rec);
            assert(p(left[i], right[j]) == q(ra, record(rc, b)));
        }
        seqs::lemma_flat_flat(right, fa, rec, k);
        assert forall|j: int| 0 <= j < right.len() implies seqs::flat(rrec(#[trigger] right[j]), ga)
            == k(right[j]) by {
            seqs::lemma_flat_one(record(rc, right[j]), ga);
        }
        seqs::lemma_flat_flat(right, rrec, ga, k);
    }
    seqs::lemma_flat_flat(left, f, rec, h);
    assert forall|i: int| 0 <= i < left.len() implies seqs::flat(lrec(#[trigger] left[i]), g) == h(
        left[i],
    ) by {
        seqs::lemma_flat_one(record(lc, left[i]), g);
    }
    seqs::lemma_flat_flat(left, lrec, g, h);
}

/// The rows of a plan have the types of its columns.
pub open spec fn all_fit(all: Seq<Seq<Val>>, columns: Seq<Column>) -> bool {
    forall|i: int| 0 <= i < all.len() ==> row::row_fits(#[trigger] all[i], columns)
}

/// Some of the rows have the types of the columns, as all have.
pub proof fn lemma_filter_fits(all: Seq<Seq<Val>>, columns: Seq<Column>, p: spec_fn(Seq<Val>) -> bool)
    requires
        all_fit(all, columns),
    ensures
        all_fit(all.filter(p), columns),
{
    let kept = all.filter(p);
    let f = |r: Seq<Val>| seqs::one_if(p(r), r);
    lemma_filter_is_flat(all, p);
    assert forall|i: int| 0 <= i < kept.len() implies row::row_fits(#[trigger] kept[i], columns) by {
        assert(kept.contains(kept[i]));
        seqs::lemma_flat_source(all, f, kept[i]);
        let k = choose|k: int| 0 <= k < all.len() && f(#[trigger] all[k]).contains(kept[i]);
        assert(row::row_fits(all[k], columns));
        assert(kept[i] == all[k]);
    }
}

/// Pairs of rows have the types of the columns of both.
pub proof fn lemma_pairs_fit(
    left: Seq<Seq<Val>>,
    lc: Seq<Column>,
    right: Seq<Seq<Val>>,
    rc: Seq<Column>,
    p: spec_fn(Seq<Val>, Seq<Val>) -> bool,
)
    requires
        all_fit(left, lc),
        all_fit(right, rc),
    ensures
        all_fit(
            seqs::flat(
                left,
                |a: Seq<Val>| seqs::flat(right, |b: Seq<Val>| seqs::one_if(p(a, b), a + b)),
            ),
            lc + rc,
        ),
{
    let f = |a: Seq<Val>| seqs::flat(right, |b: Seq<Val>| seqs::one_if(p(a, b), a + b));
    let all = seqs::flat(left, f);
    assert forall|i: int| 0 <= i < all.len() implies row::row_fits(#[trigger] all[i], lc + rc) by {
        let r = all[i];
        assert(all.contains(r));
        seqs::lemma_flat_source(left, f, r);
        let k = choose|k: int| 0 <= k < left.len() && f(#[trigger] left[k]).contains(r);
        let a = left[k];
        let fa = |b: Seq<Val>| seqs::one_if(p(a, b), a + b);
        assert(f(a) == seqs::flat(right, fa));
        seqs::lemma_flat_source(right, fa, r);
        let m = choose|m: int| 0 <= m < right.len() && fa(#[trigger] right[m]).contains(r);
        let b = right[m];
        assert(row::row_fits(left[k], lc));
        assert(row::row_fits(right[m], rc));
        assert(r == a + b);
    }
}

/// The record of a projected row.
pub proof fn lemma_record_of_projected(
    columns: Seq<Column>,
    map: Seq<(Seq<char>, Seq<char>)>,
    r: Seq<Val>,
)
    requires
        schema::projected_columns(columns, map) is Ok,
        row::row_fits(r, columns),
    ensures
        record(
            schema::projected_columns(columns, map)->Ok_0,
            rows::picked(r, project::sources(columns, map)->Ok_0),
        ) == renamed(record(columns, r), map),
        row::row_fits(
            rows::picked(r, project::sources(columns, map)->Ok_0),
            schema::projected_columns(columns, map)->Ok_0,
        ),
{
    lemma_projected(columns, map);
    lemma_sources(columns, map);
    let given = schema::projected_columns(columns, map)->Ok_0;
    let at = project::sources(columns, map)->Ok_0;
    let out = rows::picked(r, at);
    let (x, y) = (record(given, out), renamed(record(columns, r), map));
    assert forall|i: int| 0 <= i < map.len() implies (#[trigger] map[i]).0 == map[i].0
        && record(columns, r)[map[i].0] == out[i] && row::val_type(out[i]) == given[i].data_type by {
        assert(schema::column_index(columns, map[i].0) == Some(at[i]));
        lemma_index(columns, map[i].0);
        assert(given[i].data_type == columns[at[i]].data_type);
    }
    assert forall|n: Seq<char>| #![auto] x.dom().contains(n) implies x[n] == y[n] by {
        assert(schema::column_index(given, n) == rewrite::output_index(map, n));
        lemma_index(given, n);
        let i = rewrite::output_index(map, n)->Some_0;
        assert(map[i].0 == map[i].0);
    }
    assert(x =~= y);
    assert forall|i: int| 0 <= i < out.len() implies row::val_type(#[trigger] out[i])
        == given[i].data_type by {
        assert(map[i].0 == map[i].0);
    }
}

/// The records that a plan gives are those of its rows, and its rows have the types of its
/// columns.
pub proof fn the_answer_is_that_of_the_rows(plan: Plan, db: Database)
    requires
        sound(plan, db.tables),
        rows_fit(db),
    ensures
        all_fit(rows_of(plan, db), columns_of(plan, db.tables)),
        answer(plan, db) == records(columns_of(plan, db.tables), rows_of(plan, db)),
    decreases plan,
{
    let columns = columns_of(plan, db.tables);
    match plan {
        Plan::Scan(id) => {
            assert forall|i: int| 0 <= i < (db.rows)(id).len() implies row::row_fits(
                #[trigger] (db.rows)(id)[i],
                columns,
            ) by {}
        },
        Plan::Filter(tests, child) => {
            the_answer_is_that_of_the_rows(*child, db);
            let all = rows_of(*child, db);
            let p = |r: Seq<Val>|
                row::tests_outcome(r, columns, tests) == Ok::<bool, Fault>(true);
            let keep = |r: Seq<Val>| seqs::one_if(p(r), r);
            let rec = |r: Seq<Val>| seq![record(columns, r)];
            let sift = |a: Record| seqs::one_if(passes_all(a, tests), a);
            let h = |r: Seq<Val>| sift(record(columns, r));
            lemma_filter_fits(all, columns, p);
            lemma_filter_is_flat(all, p);
            seqs::lemma_flat_map(
                seqs::flat(all, keep),
                rec,
                |r: Seq<Val>| record(columns, r),
            );
            seqs::lemma_flat_map(all, rec, |r: Seq<Val>| record(columns, r));
            assert forall|i: int| 0 <= i < all.len() implies seqs::flat(keep(#[trigger] all[i]), rec)
                == h(all[i]) && seqs::flat(rec(all[i]), sift) == h(all[i]) by {
                let r = all[i];
                assert(row::row_fits(all[i], columns));
                lemma_tests(r, columns, tests);
                seqs::lemma_flat_one(r, rec);
                seqs::lemma_flat_one(record(columns, r), sift);
            }
            seqs::lemma_flat_flat(all, keep, rec, h);
            seqs::lemma_flat_flat(all, rec, sift, h);
        },
        Plan::Project(map, child) => {
            the_answer_is_that_of_the_rows(*child, db);
            let all = rows_of(*child, db);
            let below = columns_of(*child, db.tables);
            let out = rows_of(plan, db);
            assert forall|i: int| 0 <= i < out.len() implies row::row_fits(
                #[trigger] out[i],
                columns,
            ) && record(columns, out[i]) == renamed(record(below, all[i]), map) by {
                assert(row::row_fits(all[i], below));
                lemma_record_of_projected(below, map, all[i]);
            }
            assert(answer(plan, db) =~= records(columns, out));
        },
        Plan::Sort(_, child) => {
            the_answer_is_that_of_the_rows(*child, db);
        },
        Plan::Cross(l, r) => {
            the_answer_is_that_of_the_rows(*l, db);
            the_answer_is_that_of_the_rows(*r, db);
            let (left, right) = (rows_of(*l, db), rows_of(*r, db));
            let (lc, rc) = (columns_of(*l, db.tables), columns_of(*r, db.tables));
            lemma_pairs_are_flat(left, right, columns);
            let p = |a: Seq<Val>, b: Seq<Val>| true;
            let q = |a: Record, b: Record| true;
            lemma_widths(left, lc);
            lemma_widths(right, rc);
            lemma_pairs_fit(left, lc, right, rc, p);
            lemma_records_of_pairs(lc, rc, left, right, p, q);
            let f = |a: Seq<Val>| seqs::flat(right, |b: Seq<Val>| seqs::one_if(p(a, b), a + b));
            let f2 = |a: Seq<Val>| seqs::flat(right, |b: Seq<Val>| seq![a + b]);
            assert forall|i: int| 0 <= i < left.len() implies f(#[trigger] left[i]) == f2(left[i]) by {
                let a = left[i];
                seqs::lemma_flat_same(
                    right,
                    |b: Seq<Val>| seqs::one_if(p(a, b), a + b),
                    |b: Seq<Val>| seq![a + b],
                );
            }
            seqs::lemma_flat_same(left, f, f2);
        },
        Plan::HashJoin(l, r, x, y) => {
            the_answer_is_that_of_the_rows(*l, db);
            the_answer_is_that_of_the_rows(*r, db);
            let (left, right) = (rows_of(*l, db), rows_of(*r, db));
            let (lc, rc) = (columns_of(*l, db.tables), columns_of(*r, db.tables));
            let i = schema::column_index(lc, x)->Some_0;
            let j = schema::column_index(rc, y)->Some_0;
            lemma_joins_are_flat(left, i, right, j);
            let p = |a: Seq<Val>, b: Seq<Val>| hash::same_key(b[j], a[i]);
            let q = |a: Record, b: Record| hash::same_key(b[y], a[x]);
            lemma_widths(left, lc);
            lemma_widths(right, rc);
            lemma_pairs_fit(left, lc, right, rc, p);
            lemma_records_of_pairs(lc, rc, left, right, p, q);
            let f = |a: Seq<Val>| seqs::flat(right, |b: Seq<Val>| seqs::one_if(p(a, b), a + b));
            let f2 = |a: Seq<Val>|
                seqs::flat(
                    right,
                    |b: Seq<Val>| seqs::one_if(hash::same_key(b[j], a[i]), a + b),
                );
            assert forall|k: int| 0 <= k < left.len() implies f(#[trigger] left[k]) == f2(left[k]) by {
                let a = left[k];
                seqs::lemma_flat_same(
                    right,
                    |b: Seq<Val>| seqs::one_if(p(a, b), a + b),
                    |b: Seq<Val>| seqs::one_if(hash::same_key(b[j], a[i]), a + b),
                );
            }
            seqs::lemma_flat_same(left, f, f2);
        },
    }
}

proof fn lemma_widths(all: Seq<Seq<Val>>, columns: Seq<Column>)
    requires
        all_fit(all, columns),
    ensures
        forall|i: int| 0 <= i < all.len() ==> (#[trigger] all[i]).len() == columns.len(),
{
    assert forall|i: int| 0 <= i < all.len() implies (#[trigger] all[i]).len() == columns.len() by {
        assert(row::row_fits(all[i], columns));
    }
}

/// Whether records have exactly the names of columns.
pub open spec fn named(all: Seq<Record>, columns: Seq<Column>) -> bool {
    forall|i: int, n: Seq<char>|
        #![trigger all[i].dom().contains(n)]
        0 <= i < all.len() ==> all[i].dom().contains(n) == rewrite::has_column(columns, n)
}

/// The records of a plan have the names of its columns.
pub proof fn lemma_named(plan: Plan, db: Database)
    requires
        sound(plan, db.tables),
        rows_fit(db),
    ensures
        named(answer(plan, db), columns_of(plan, db.tables)),
{
    the_answer_is_that_of_the_rows(plan, db);
}

// ---- values ----

/// A column of a table: the name of the table, and that of the column.
pub type Place = (Seq<char>, Seq<char>);

/// The column of a table from which a column of a plan comes.
pub open spec fn origin(plan: Plan, n: Seq<char>, tables: Seq<Table>) -> Place
    decreases plan,
{
    match plan {
        Plan::Scan(id) => (id, n),
        Plan::Filter(_, child) => origin(*child, n, tables),
        Plan::Project(map, child) => origin(
            *child,
            map[rewrite::output_index(map, n)->Some_0].0,
            tables,
        ),
        Plan::Sort(_, child) => origin(*child, n, tables),
        Plan::Cross(l, r) => if rewrite::has_column(columns_of(*l, tables), n) {
            origin(*l, n, tables)
        } else {
            origin(*r, n, tables)
        },
        Plan::HashJoin(l, r, _, _) => if rewrite::has_column(columns_of(*l, tables), n) {
            origin(*l, n, tables)
        } else {
            origin(*r, n, tables)
        },
    }
}

/// Whether the columns of a plan come from where those of another plan come from.
pub open spec fn same_origins(q: Plan, plan: Plan, tables: Seq<Table>) -> bool {
    forall|n: Seq<char>|
        rewrite::has_column(columns_of(plan, tables), n) ==> #[trigger] origin(q, n, tables)
            == origin(plan, n, tables)
}

/// The columns of a filter come from where those below it come from.
pub proof fn lemma_filter_origins(tests: Seq<Test>, q: Plan, plan: Plan, tables: Seq<Table>)
    requires
        same_origins(q, plan, tables),
    ensures
        same_origins(
            Plan::Filter(tests, Box::new(q)),
            Plan::Filter(tests, Box::new(plan)),
            tables,
        ),
{
    let (f, g) = (Plan::Filter(tests, Box::new(q)), Plan::Filter(tests, Box::new(plan)));
    assert forall|n: Seq<char>| rewrite::has_column(columns_of(g, tables), n) implies
        #[trigger] origin(f, n, tables) == origin(g, n, tables) by {
        assert(origin(q, n, tables) == origin(plan, n, tables));
    }
}

/// The columns of a projection come from where those below it come from.
pub proof fn lemma_projection_origins(
    map: Seq<(Seq<char>, Seq<char>)>,
    q: Plan,
    plan: Plan,
    tables: Seq<Table>,
)
    requires
        same_origins(q, plan, tables),
        schema::plan_schema(Plan::Project(map, Box::new(plan)), tables) is Ok,
    ensures
        same_origins(
            Plan::Project(map, Box::new(q)),
            Plan::Project(map, Box::new(plan)),
            tables,
        ),
{
    let (f, g) = (Plan::Project(map, Box::new(q)), Plan::Project(map, Box::new(plan)));
    let columns = columns_of(plan, tables);
    lemma_projected(columns, map);
    assert forall|n: Seq<char>| rewrite::has_column(columns_of(g, tables), n) implies
        #[trigger] origin(f, n, tables) == origin(g, n, tables) by {
        seqs::lemma_first_where(map, |pair: (Seq<char>, Seq<char>)| pair.1 == n);
        assert(schema::column_index(columns_of(g, tables), n) is Some);
        let k = rewrite::output_index(map, n)->Some_0;
        assert(rewrite::has_column(columns, map[k].0));
        assert(origin(q, map[k].0, tables) == origin(plan, map[k].0, tables));
    }
}

/// The columns of two inputs come from where those of each come from.
pub proof fn lemma_both_origins(
    q: Plan,
    plan: Plan,
    l2: Plan,
    l: Plan,
    r2: Plan,
    r: Plan,
    tables: Seq<Table>,
)
    requires
        same_origins(l2, l, tables),
        same_origins(r2, r, tables),
        forall|n: Seq<char>| #[trigger]
            rewrite::has_column(columns_of(l2, tables), n) == rewrite::has_column(
                columns_of(l, tables),
                n,
            ),
        columns_of(plan, tables) == columns_of(l, tables) + columns_of(r, tables),
        ({
            ||| plan == Plan::Cross(Box::new(l), Box::new(r)) && q == Plan::Cross(
                Box::new(l2),
                Box::new(r2),
            )
            ||| exists|x: Seq<char>, y: Seq<char>| #[trigger]
                hashed(plan, l, r, x, y) && hashed(q, l2, r2, x, y)
        }),
    ensures
        same_origins(q, plan, tables),
{
    let (lc, rc) = (columns_of(l, tables), columns_of(r, tables));
    assert forall|n: Seq<char>| rewrite::has_column(lc + rc, n) implies #[trigger] origin(
        q,
        n,
        tables,
    ) == origin(plan, n, tables) by {
        lemma_index_append(lc, rc, n);
        assert(rewrite::has_column(columns_of(l2, tables), n) == rewrite::has_column(lc, n));
        assert(rewrite::has_column(lc, n) ==> origin(l2, n, tables) == origin(l, n, tables));
        assert(rewrite::has_column(rc, n) ==> origin(r2, n, tables) == origin(r, n, tables));
    }
}

/// Whether a plan is the hash join of two inputs on two columns.
pub open spec fn hashed(plan: Plan, l: Plan, r: Plan, x: Seq<char>, y: Seq<char>) -> bool {
    plan == Plan::HashJoin(Box::new(l), Box::new(r), x, y)
}

/// Whether a value is stored in a column of a table.
pub open spec fn stored(v: Val, at: Place, db: Database) -> bool {
    exists|i: int|
        #![trigger (db.rows)(at.0)[i]]
        0 <= i < (db.rows)(at.0).len() && (db.rows)(at.0)[i][schema::column_index(
            columns_of(Plan::Scan(at.0), db.tables),
            at.1,
        )->Some_0] == v
}

/// Whether the records of a plan hold only values that are stored where their columns come
/// from.
pub open spec fn all_stored(plan: Plan, db: Database) -> bool {
    forall|i: int, n: Seq<char>|
        #![trigger answer(plan, db)[i].dom().contains(n)]
        0 <= i < answer(plan, db).len() && answer(plan, db)[i].dom().contains(n) ==> stored(
            answer(plan, db)[i][n],
            origin(plan, n, db.tables),
            db,
        )
}

/// Whether equal values of two columns of tables are the same. So not one of them holds zero
/// and the other one negative zero.
pub open spec fn equal_is_same(a: Place, b: Place, db: Database) -> bool {
    forall|v: Val, w: Val|
        #![trigger value::val_eq(v, w)]
        stored(v, a, db) && stored(w, b, db) && value::val_eq(v, w) ==> v == w
}

/// Whether equal values are the same in the columns that a test compares for equality.
pub open spec fn keys_agree(test: Test, plan: Plan, db: Database) -> bool {
    test.operator == ComparisionOperator::EQ ==> match test.value {
        Operand::Column(other) => equal_is_same(
            origin(plan, test.column, db.tables),
            origin(plan, other, db.tables),
            db,
        ),
        _ => true,
    }
}

/// Whether equal values are the same in all columns that tests compare for equality.
pub open spec fn all_keys_agree(tests: Seq<Test>, plan: Plan, db: Database) -> bool {
    forall|i: int| 0 <= i < tests.len() ==> keys_agree(#[trigger] tests[i], plan, db)
}

/// Whether equal values are the same in all columns that the filters of a plan compare with
/// one another for equality. Other columns may hold both zero and negative zero.
pub open spec fn joins_agree(plan: Plan, db: Database) -> bool
    decreases plan,
{
    match plan {
        Plan::Scan(_) => true,
        Plan::Filter(tests, child) => joins_agree(*child, db) && all_keys_agree(tests, *child, db),
        Plan::Project(_, child) => joins_agree(*child, db),
        Plan::Sort(_, child) => joins_agree(*child, db),
        Plan::Cross(l, r) => joins_agree(*l, db) && joins_agree(*r, db),
        Plan::HashJoin(l, r, _, _) => joins_agree(*l, db) && joins_agree(*r, db),
    }
}

/// Tests of columns that come from the same places.
pub proof fn lemma_keys_agree_same(tests: Seq<Test>, q: Plan, plan: Plan, db: Database)
    requires
        same_origins(q, plan, db.tables),
        filter::tests_within(tests, columns_of(plan, db.tables)),
        all_keys_agree(tests, plan, db),
    ensures
        all_keys_agree(tests, q, db),
{
    assert forall|i: int| 0 <= i < tests.len() implies keys_agree(#[trigger] tests[i], q, db) by {
        let t = tests[i];
        assert(filter::test_within(t, columns_of(plan, db.tables)));
        assert(keys_agree(t, plan, db));
        assert(origin(q, t.column, db.tables) == origin(plan, t.column, db.tables));
        match t.value {
            Operand::Column(other) => {
                assert(rewrite::has_column(columns_of(plan, db.tables), other));
                assert(origin(q, other, db.tables) == origin(plan, other, db.tables));
            },
            _ => {},
        }
    }
}

/// A plan gives only values that are stored where its columns come from.
pub proof fn lemma_stored(plan: Plan, db: Database)
    requires
        sound(plan, db.tables),
        rows_fit(db),
    ensures
        all_stored(plan, db),
    decreases plan,
{
    let all = answer(plan, db);
    match plan {
        Plan::Scan(id) => {
            the_answer_is_that_of_the_rows(plan, db);
            let columns = columns_of(plan, db.tables);
            assert forall|i: int, n: Seq<char>|
                #![trigger all[i].dom().contains(n)]
                0 <= i < all.len() && all[i].dom().contains(n) implies stored(
                all[i][n],
                origin(plan, n, db.tables),
                db,
            ) by {
                lemma_index(columns, n);
                let k = schema::column_index(columns, n)->Some_0;
                assert(row::row_fits(rows_of(plan, db)[i], columns));
                assert(origin(plan, n, db.tables) == (id, n));
                assert((db.rows)(id)[i][k] == all[i][n]);
            }
        },
        Plan::Filter(tests, child) => {
            lemma_stored(*child, db);
            let below = answer(*child, db);
            let f = |a: Record| seqs::one_if(passes_all(a, tests), a);
            assert forall|i: int, n: Seq<char>|
                #![trigger all[i].dom().contains(n)]
                0 <= i < all.len() && all[i].dom().contains(n) implies stored(
                all[i][n],
                origin(plan, n, db.tables),
                db,
            ) by {
                assert(all.contains(all[i]));
                seqs::lemma_flat_source(below, f, all[i]);
                let k = choose|k: int| 0 <= k < below.len() && f(#[trigger] below[k]).contains(all[i]);
                assert(below[k] == all[i]);
                assert(below[k].dom().contains(n));
            }
        },
        Plan::Project(map, child) => {
            lemma_stored(*child, db);
            lemma_named(*child, db);
            let below = answer(*child, db);
            let columns = columns_of(*child, db.tables);
            lemma_projected(columns, map);
            assert forall|i: int, n: Seq<char>|
                #![trigger all[i].dom().contains(n)]
                0 <= i < all.len() && all[i].dom().contains(n) implies stored(
                all[i][n],
                origin(plan, n, db.tables),
                db,
            ) by {
                seqs::lemma_first_where(map, |pair: (Seq<char>, Seq<char>)| pair.1 == n);
                let k = rewrite::output_index(map, n)->Some_0;
                assert(rewrite::has_column(columns, map[k].0));
                assert(below[i].dom().contains(map[k].0));
            }
        },
        Plan::Sort(_, child) => {
            lemma_stored(*child, db);
            let below = answer(*child, db);
            assert(below == all);
            assert forall|i: int, n: Seq<char>|
                #![trigger all[i].dom().contains(n)]
                0 <= i < all.len() && all[i].dom().contains(n) implies stored(
                all[i][n],
                origin(plan, n, db.tables),
                db,
            ) by {
                assert(below[i].dom().contains(n));
                assert(origin(plan, n, db.tables) == origin(*child, n, db.tables));
            }
        },
        Plan::Cross(l, r) => {
            lemma_stored(*l, db);
            lemma_stored(*r, db);
            lemma_pairs_stored(plan, *l, *r, |a: Record, b: Record| true, db);
        },
        Plan::HashJoin(l, r, x, y) => {
            lemma_stored(*l, db);
            lemma_stored(*r, db);
            lemma_pairs_stored(
                plan,
                *l,
                *r,
                |a: Record, b: Record| hash::same_key(b[y], a[x]),
                db,
            );
        },
    }
}

/// Where each pair of records comes from.
pub proof fn lemma_pair_source(
    left: Seq<Record>,
    right: Seq<Record>,
    p: spec_fn(Record, Record) -> bool,
    i: int,
) -> (at: (int, int))
    requires
        0 <= i < pairs_if(left, right, p).len(),
    ensures
        0 <= at.0 < left.len(),
        0 <= at.1 < right.len(),
        p(left[at.0], right[at.1]),
        pairs_if(left, right, p)[i] == both(left[at.0], right[at.1]),
{
    let f = |a: Record| seqs::flat(right, |b: Record| seqs::one_if(p(a, b), both(a, b)));
    let all = pairs_if(left, right, p);
    assert(all.contains(all[i]));
    seqs::lemma_flat_source(left, f, all[i]);
    let k = choose|k: int| 0 <= k < left.len() && f(#[trigger] left[k]).contains(all[i]);
    let a = left[k];
    let g = |b: Record| seqs::one_if(p(a, b), both(a, b));
    assert(f(a) == seqs::flat(right, g));
    seqs::lemma_flat_source(right, g, all[i]);
    let m = choose|m: int| 0 <= m < right.len() && g(#[trigger] right[m]).contains(all[i]);
    (k, m)
}

proof fn lemma_pairs_stored(
    plan: Plan,
    l: Plan,
    r: Plan,
    p: spec_fn(Record, Record) -> bool,
    db: Database,
)
    requires
        sound(l, db.tables),
        sound(r, db.tables),
        rows_fit(db),
        all_stored(l, db),
        all_stored(r, db),
        answer(plan, db) == pairs_if(answer(l, db), answer(r, db), p),
        forall|n: Seq<char>| #[trigger]
            origin(plan, n, db.tables) == if rewrite::has_column(columns_of(l, db.tables), n) {
                origin(l, n, db.tables)
            } else {
                origin(r, n, db.tables)
            },
    ensures
        all_stored(plan, db),
{
    let (left, right) = (answer(l, db), answer(r, db));
    let all = answer(plan, db);
    lemma_named(l, db);
    assert forall|i: int, n: Seq<char>|
        #![trigger all[i].dom().contains(n)]
        0 <= i < all.len() && all[i].dom().contains(n) implies stored(
        all[i][n],
        origin(plan, n, db.tables),
        db,
    ) by {
        let (k, m) = lemma_pair_source(left, right, p, i);
        assert(left[k].dom().contains(n) == rewrite::has_column(columns_of(l, db.tables), n));
        if left[k].dom().contains(n) {
            assert(all[i][n] == left[k][n]);
        } else {
            assert(right[m].dom().contains(n));
        }
    }
}

// ---- records that are sifted and paired ----

/// Conditions that agree on the records give the same pairs.
pub proof fn lemma_pairs_same(
    left: Seq<Record>,
    right: Seq<Record>,
    p: spec_fn(Record, Record) -> bool,
    q: spec_fn(Record, Record) -> bool,
)
    requires
        forall|i: int, j: int|
            0 <= i < left.len() && 0 <= j < right.len() ==> p(#[trigger] left[i], #[trigger] right[j])
                == q(left[i], right[j]),
    ensures
        pairs_if(left, right, p) == pairs_if(left, right, q),
{
    let f = |a: Record| seqs::flat(right, |b: Record| seqs::one_if(p(a, b), both(a, b)));
    let g = |a: Record| seqs::flat(right, |b: Record| seqs::one_if(q(a, b), both(a, b)));
    assert forall|i: int| 0 <= i < left.len() implies f(#[trigger] left[i]) == g(left[i]) by {
        let a = left[i];
        let fa = |b: Record| seqs::one_if(p(a, b), both(a, b));
        let ga = |b: Record| seqs::one_if(q(a, b), both(a, b));
        assert forall|j: int| 0 <= j < right.len() implies fa(#[trigger] right[j]) == ga(right[j]) by {
            assert(p(left[i], right[j]) == q(left[i], right[j]));
        }
        seqs::lemma_flat_same(right, fa, ga);
    }
    seqs::lemma_flat_same(left, f, g);
}

/// Pairs that are sifted are pairs under one more condition.
pub proof fn lemma_sift_pairs(
    left: Seq<Record>,
    right: Seq<Record>,
    p: spec_fn(Record, Record) -> bool,
    tests: Seq<Test>,
)
    ensures
        sifted(pairs_if(left, right, p), tests) == pairs_if(
            left,
            right,
            |a: Record, b: Record| p(a, b) && passes_all(both(a, b), tests),
        ),
{
    let q = |a: Record, b: Record| p(a, b) && passes_all(both(a, b), tests);
    let f = |a: Record| seqs::flat(right, |b: Record| seqs::one_if(p(a, b), both(a, b)));
    let g = |a: Record| seqs::flat(right, |b: Record| seqs::one_if(q(a, b), both(a, b)));
    let sift = |a: Record| seqs::one_if(passes_all(a, tests), a);
    assert forall|i: int| 0 <= i < left.len() implies seqs::flat(f(#[trigger] left[i]), sift) == g(
        left[i],
    ) by {
        let a = left[i];
        let fa = |b: Record| seqs::one_if(p(a, b), both(a, b));
        let ga = |b: Record| seqs::one_if(q(a, b), both(a, b));
        assert(f(a) == seqs::flat(right, fa));
        assert(g(a) == seqs::flat(right, ga));
        assert forall|j: int| 0 <= j < right.len() implies seqs::flat(fa(#[trigger] right[j]), sift)
            == ga(right[j]) by {
            seqs::lemma_flat_one(both(a, right[j]), sift);
        }
        seqs::lemma_flat_flat(right, fa, sift, ga);
    }
    seqs::lemma_flat_flat(left, f, sift, g);
}

/// The pairs of sifted records are pairs under more conditions.
pub proof fn lemma_pairs_of_sifted(
    left: Seq<Record>,
    right: Seq<Record>,
    p: spec_fn(Record, Record) -> bool,
    left_tests: Seq<Test>,
    right_tests: Seq<Test>,
)
    ensures
        pairs_if(sifted(left, left_tests), sifted(right, right_tests), p) == pairs_if(
            left,
            right,
            |a: Record, b: Record|
                passes_all(a, left_tests) && passes_all(b, right_tests) && p(a, b),
        ),
{
    let q = |a: Record, b: Record|
        passes_all(a, left_tests) && passes_all(b, right_tests) && p(a, b);
    let some = sifted(right, right_tests);
    let f = |a: Record| seqs::flat(some, |b: Record| seqs::one_if(p(a, b), both(a, b)));
    let g = |a: Record| seqs::flat(right, |b: Record| seqs::one_if(q(a, b), both(a, b)));
    let lsift = |a: Record| seqs::one_if(passes_all(a, left_tests), a);
    let rsift = |a: Record| seqs::one_if(passes_all(a, right_tests), a);
    assert forall|i: int| 0 <= i < left.len() implies seqs::flat(lsift(#[trigger] left[i]), f) == g(
        left[i],
    ) by {
        let a = left[i];
        let fa = |b: Record| seqs::one_if(p(a, b), both(a, b));
        let ga = |b: Record| seqs::one_if(q(a, b), both(a, b));
        assert(f(a) == seqs::flat(some, fa));
        assert(g(a) == seqs::flat(right, ga));
        seqs::lemma_flat_one(a, f);
        if passes_all(a, left_tests) {
            assert forall|j: int| 0 <= j < right.len() implies seqs::flat(
                rsift(#[trigger] right[j]),
                fa,
            ) == ga(right[j]) by {
                seqs::lemma_flat_one(right[j], fa);
            }
            seqs::lemma_flat_flat(right, rsift, fa, ga);
        } else {
            seqs::lemma_flat_nothing(right, ga);
        }
    }
    seqs::lemma_flat_flat(left, lsift, f, g);
}

/// Where there is no test, all records stay.
pub proof fn lemma_sift_none(all: Seq<Record>, tests: Seq<Test>)
    requires
        tests.len() == 0,
    ensures
        sifted(all, tests) == all,
{
    let f = |a: Record| seqs::one_if(passes_all(a, tests), a);
    seqs::lemma_flat_map(all, f, |a: Record| a);
    assert(all.map_values(|a: Record| a) =~= all);
}

/// Records that are changed before they are sifted, where the change keeps what the tests
/// read.
pub proof fn lemma_sift_changed(all: Seq<Record>, tests: Seq<Test>, f: spec_fn(Record) -> Record)
    requires
        forall|i: int|
            0 <= i < all.len() ==> passes_all(f(#[trigger] all[i]), tests) == passes_all(
                all[i],
                tests,
            ),
    ensures
        sifted(all.map_values(f), tests) == sifted(all, tests).map_values(f),
{
    let sift = |a: Record| seqs::one_if(passes_all(a, tests), a);
    let change = |a: Record| seq![f(a)];
    let h = |a: Record| sift(f(a));
    seqs::lemma_flat_map(all, change, f);
    seqs::lemma_flat_map(sifted(all, tests), change, f);
    assert forall|i: int| 0 <= i < all.len() implies seqs::flat(change(#[trigger] all[i]), sift)
        == h(all[i]) && seqs::flat(sift(all[i]), change) == h(all[i]) by {
        seqs::lemma_flat_one(f(all[i]), sift);
        seqs::lemma_flat_one(all[i], change);
        assert(passes_all(f(all[i]), tests) == passes_all(all[i], tests));
    }
    seqs::lemma_flat_flat(all, change, sift, h);
    seqs::lemma_flat_flat(all, sift, change, h);
}

/// Records that are changed before they are paired.
pub proof fn lemma_pairs_of_changed(
    left: Seq<Record>,
    right: Seq<Record>,
    p: spec_fn(Record, Record) -> bool,
    f: spec_fn(Record) -> Record,
    g: spec_fn(Record) -> Record,
    q: spec_fn(Record, Record) -> bool,
    h: spec_fn(Record) -> Record,
)
    requires
        forall|i: int, j: int|
            0 <= i < left.len() && 0 <= j < right.len() ==> q(
                f(#[trigger] left[i]),
                g(#[trigger] right[j]),
            ) == p(left[i], right[j]) && both(f(left[i]), g(right[j])) == h(
                both(left[i], right[j]),
            ),
    ensures
        pairs_if(left.map_values(f), right.map_values(g), q) == pairs_if(
            left,
            right,
            p,
        ).map_values(h),
{
    let (left2, right2) = (left.map_values(f), right.map_values(g));
    let cf = |a: Record| seq![f(a)];
    let cg = |b: Record| seq![g(b)];
    let ch = |c: Record| seq![h(c)];
    let x = |a: Record| seqs::flat(right, |b: Record| seqs::one_if(p(a, b), both(a, b)));
    let y = |a: Record| seqs::flat(right2, |b: Record| seqs::one_if(q(a, b), both(a, b)));
    let z = |a: Record| y(f(a));
    seqs::lemma_flat_map(left, cf, f);
    seqs::lemma_flat_map(right, cg, g);
    seqs::lemma_flat_map(pairs_if(left, right, p), ch, h);
    assert forall|i: int| 0 <= i < left.len() implies seqs::flat(cf(#[trigger] left[i]), y) == z(
        left[i],
    ) && seqs::flat(x(left[i]), ch) == z(left[i]) by {
        let a = left[i];
        let fa = f(a);
        seqs::lemma_flat_one(fa, y);
        let xa = |b: Record| seqs::one_if(p(a, b), both(a, b));
        let ya = |b: Record| seqs::one_if(q(fa, b), both(fa, b));
        let za = |b: Record| ya(g(b));
        assert(x(a) == seqs::flat(right, xa));
        assert(y(fa) == seqs::flat(right2, ya));
        assert forall|j: int| 0 <= j < right.len() implies seqs::flat(cg(#[trigger] right[j]), ya)
            == za(right[j]) && seqs::flat(xa(right[j]), ch) == za(right[j]) by {
            let b = right[j];
            seqs::lemma_flat_one(g(b), ya);
            seqs::lemma_flat_one(both(a, b), ch);
            assert(q(f(left[i]), g(right[j])) == p(left[i], right[j]));
        }
        seqs::lemma_flat_flat(right, cg, ya, za);
        seqs::lemma_flat_flat(right, xa, ch, za);
    }
    seqs::lemma_flat_flat(left, cf, y, z);
    seqs::lemma_flat_flat(left, x, ch, z);
}

// ---- records up to their order ----

/// The same records, sifted.
pub proof fn lemma_sift_bag(s: Seq<Record>, t: Seq<Record>, tests: Seq<Test>)
    requires
        seqs::same_bag(s, t),
    ensures
        seqs::same_bag(sifted(s, tests), sifted(t, tests)),
{
    let f = |a: Record| seqs::one_if(passes_all(a, tests), a);
    seqs::lemma_flat_bag(s, t, f, f);
}

/// The same records, paired.
pub proof fn lemma_pairs_bag(
    left: Seq<Record>,
    right: Seq<Record>,
    left2: Seq<Record>,
    right2: Seq<Record>,
    p: spec_fn(Record, Record) -> bool,
)
    requires
        seqs::same_bag(left, left2),
        seqs::same_bag(right, right2),
    ensures
        seqs::same_bag(pairs_if(left, right, p), pairs_if(left2, right2, p)),
{
    let f = |a: Record| seqs::flat(right, |b: Record| seqs::one_if(p(a, b), both(a, b)));
    let g = |a: Record| seqs::flat(right2, |b: Record| seqs::one_if(p(a, b), both(a, b)));
    assert forall|i: int| 0 <= i < left.len() implies seqs::same_bag(f(#[trigger] left[i]), g(left[i])) by {
        let a = left[i];
        let h = |b: Record| seqs::one_if(p(a, b), both(a, b));
        seqs::lemma_flat_bag(right, right2, h, h);
    }
    seqs::lemma_flat_bag(left, left2, f, g);
}

/// Whether no name stands in records of both sequences.
pub open spec fn apart(s: Seq<Record>, t: Seq<Record>) -> bool {
    forall|i: int, j: int, n: Seq<char>|
        #![trigger s[i].dom().contains(n), t[j].dom().contains(n)]
        0 <= i < s.len() && 0 <= j < t.len() ==> !(s[i].dom().contains(n) && t[j].dom().contains(n))
}

/// The pairs of records of the one side and of the other, with the sides exchanged.
pub proof fn lemma_pairs_exchanged(
    left: Seq<Record>,
    right: Seq<Record>,
    p: spec_fn(Record, Record) -> bool,
    q: spec_fn(Record, Record) -> bool,
)
    requires
        apart(left, right),
        forall|a: Record, b: Record| #![trigger p(a, b)] #![trigger q(b, a)] p(a, b) == q(b, a),
    ensures
        seqs::same_bag(pairs_if(left, right, p), pairs_if(right, left, q)),
{
    let h = |a: Record, b: Record| seqs::one_if(p(a, b), both(a, b));
    seqs::lemma_flat_swap(left, right, h);
    let f = |a: Record| seqs::flat(right, |b: Record| seqs::one_if(p(a, b), both(a, b)));
    let f2 = |a: Record| seqs::flat(right, |b: Record| h(a, b));
    assert forall|i: int| 0 <= i < left.len() implies f(#[trigger] left[i]) == f2(left[i]) by {
        let a = left[i];
        seqs::lemma_flat_same(
            right,
            |b: Record| seqs::one_if(p(a, b), both(a, b)),
            |b: Record| h(a, b),
        );
    }
    seqs::lemma_flat_same(left, f, f2);
    let g = |b: Record| seqs::flat(left, |a: Record| seqs::one_if(q(b, a), both(b, a)));
    let g2 = |b: Record| seqs::flat(left, |a: Record| h(a, b));
    assert forall|j: int| 0 <= j < right.len() implies g(#[trigger] right[j]) == g2(right[j]) by {
        let b = right[j];
        let ga = |a: Record| seqs::one_if(q(b, a), both(b, a));
        let ha = |a: Record| h(a, b);
        assert forall|i: int| 0 <= i < left.len() implies ga(#[trigger] left[i]) == ha(left[i]) by {
            let a = left[i];
            assert(p(a, b) == q(b, a));
            let (x, y) = (both(a, b), both(b, a));
            assert forall|n: Seq<char>| #![auto] x.dom().contains(n) implies x[n] == y[n] by {
                assert(!(left[i].dom().contains(n) && right[j].dom().contains(n)));
            }
            assert(x =~= y);
        }
        seqs::lemma_flat_same(left, ga, ha);
    }
    seqs::lemma_flat_same(right, g, g2);
}

/// Records with names of columns that are apart.
pub proof fn lemma_apart(s: Seq<Record>, sc: Seq<Column>, t: Seq<Record>, tc: Seq<Column>)
    requires
        named(s, sc),
        named(t, tc),
        forall|n: Seq<char>|
            #![trigger rewrite::has_column(sc, n)]
            !(rewrite::has_column(sc, n) && rewrite::has_column(tc, n)),
    ensures
        apart(s, t),
{
    assert forall|i: int, j: int, n: Seq<char>|
        #![trigger s[i].dom().contains(n), t[j].dom().contains(n)]
        0 <= i < s.len() && 0 <= j < t.len() implies !(s[i].dom().contains(n) && t[j].dom().contains(
        n,
    )) by {
        assert(s[i].dom().contains(n) == rewrite::has_column(sc, n));
        assert(t[j].dom().contains(n) == rewrite::has_column(tc, n));
    }
}

} // verus!
