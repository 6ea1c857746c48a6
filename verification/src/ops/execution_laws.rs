//! Laws of a whole execution: a plan that is carried out operator by operator gives rows of its
//! columns, and the rows that it means.

use vstd::prelude::*;

use crate::answer::Database;
use crate::answer;
use crate::block;
use crate::error::Fault;
use crate::ops::cross;
use crate::ops::cross_laws::Filling;
use crate::ops::cross_laws;
use crate::ops::cross_output::Crossing;
use crate::ops::filter::FilterWay;
use crate::ops::filter;
use crate::ops::hash;
use crate::ops::join_input_laws::{Course, Others, World};
use crate::ops::join_input_laws;
use crate::ops::join_laws;
use crate::ops::join_output_laws;
use crate::ops::plan_laws::Lying;
use crate::ops::plan_laws;
use crate::ops::project::ScanColumns;
use crate::ops::project;
use crate::ops::rows;
use crate::ops::scan;
use crate::ops::scan_laws;
use crate::ops::sort::keys_view;
use crate::ops::sort;
use crate::ops::sort_chunk;
use crate::ops::sort_input_laws::Taking;
use crate::ops::sort_input_laws;
use crate::ops::sort_laws;
use crate::ops::sort_merge::MAX_MERGE_WIDTH;
use crate::ops::sort_output::{Sorting, Stage};
use crate::ops::sort_output;
use crate::ops::sort_output_laws;
use crate::query::{Plan, SortKey, Table, Test};
use crate::row;
use crate::schema::Column;
use crate::schema;
use crate::seqs;
use crate::value::Val;

verus! {

// ---- executions ----

/// How an operator was carried out: the executions of the plans below it, and the state in
/// which it began.
pub enum Work {
    /// A table was scanned.
    Scan(Lying),
    /// Some columns of a table were scanned.
    NarrowedScan(Seq<usize>, ScanColumns, Lying),
    /// The rows of the plan below were taken one by one.
    Stream(Box<Execution>),
    /// The rows of the right plan were kept, and each row of the left one met them.
    Cross(Box<Execution>, Box<Execution>, CrossCourse),
    /// The rows of both plans met by their keys, while other operators worked too; the last
    /// phase took so many steps.
    HashJoin(Box<Execution>, Box<Execution>, Course, Others, nat),
    /// The rows of the plan below were sorted.
    Sort(Box<Execution>, SortCourse),
}

/// The course of a cross join: its state before the first row, what other operators do before
/// each right row and the end of the right input, and how many blocks it reads at once.
pub struct CrossCourse {
    pub begun: Filling,
    pub worlds: Seq<World>,
    pub end: World,
    pub fetch: int,
}

/// The course of a sort: its states as its rows came, those in which other operators left it,
/// and the one at the end of its input; the order of rows in memory; and its output.
pub struct SortCourse {
    pub states: Seq<Taking>,
    pub met: Seq<Taking>,
    pub ended: Taking,
    pub order: Seq<usize>,
    pub pool: int,
    pub steps: nat,
}

/// An execution of a plan: the rows that it gave, in their order, and how.
pub struct Execution {
    pub rows: Seq<Seq<Val>>,
    pub work: Work,
}

/// Whether a cross join gave these rows: those that it gave while its left input came, and those
/// of the left rows that then waited.
pub open spec fn crossed(
    left: Seq<Seq<Val>>,
    right: Seq<Seq<Val>>,
    columns: Seq<Column>,
    tests: Option<Seq<Test>>,
    course: CrossCourse,
    given: Seq<Seq<Val>>,
) -> bool {
    let c = course.begun.cross;
    let full = cross_laws::right_taken(course.begun, right, course.worlds, course.end);
    let (e, pairs) = cross_laws::left_came(
        Crossing { cross: full.cross, fetch: course.fetch, done: 0 },
        left,
        full.blocks,
    );
    &&& c.columns == columns
    &&& c.tests == tests
    &&& c.left_chunk.len() == 0
    &&& course.fetch >= 1
    &&& cross_laws::can_take(course.begun, right, course.worlds, course.end)
    &&& cross::all_pairs(left, right, columns, tests).1 is None
    &&& given.to_multiset() == if full.cross.right_blocks == 0 {
        pairs
    } else {
        pairs.add(cross_laws::to_come(e, full.blocks))
    }
}

/// Whether a hash join gave these rows: those that it gave while its left input came, and those
/// of its last phase.
pub open spec fn hash_joined(
    left: Seq<Seq<Val>>,
    right: Seq<Seq<Val>>,
    lc: Seq<Column>,
    rc: Seq<Column>,
    begun: Course,
    o: Others,
    steps: nat,
    given: Seq<Seq<Val>>,
) -> bool {
    let c = join_input_laws::inputs_taken(begun, right, left, o);
    &&& join_input_laws::can_take(begun, right, left, o, lc, rc)
    &&& join_output_laws::pairs_given(
        join_input_laws::last_phase(c, lc, rc),
        c.blocks,
        steps,
    ) matches Some(last) && given == c.pairs + last
}

/// A sort whose input has ended, before its output.
pub open spec fn sorting_of(c: SortCourse) -> Sorting {
    Sorting {
        columns: c.ended.input.schema.deep_view(),
        keys: keys_view(c.ended.input.keys@),
        block_size: c.ended.input.block_size as int,
        pool: c.pool,
        stage: Stage::Over,
    }
}

/// Whether a sort gave these rows: from memory, or from the runs into which they went.
pub open spec fn sorted_by(came: Seq<Seq<Val>>, c: SortCourse, given: Seq<Seq<Val>>) -> bool {
    let s = sorting_of(c);
    let end = c.ended;
    let runs = end.input.runs@;
    &&& sort_input_laws::can_begin(c.states[0], came)
    &&& sort_input_laws::took(c.states, c.met, came)
    &&& sort_input_laws::ended(c.met.last(), end)
    &&& if runs.len() > 0 {
        let (stage, after) = sort_output::round_begun(s, runs, end.disk);
        &&& runs.len() > MAX_MERGE_WIDTH ==> {
            &&& came.len() < usize::MAX
            &&& end.disk.next + came.len() * runs.len() < u64::MAX
        }
        &&& sort_output_laws::rows_given(
            Sorting { stage, ..s },
            after,
            end.blocks,
            c.steps,
        ) == Some(given)
    } else {
        let rows = sort_chunk::all_rows(end.input.chunk@, s.columns)->Ok_0;
        &&& end.input.chunk@.bytes.len() <= usize::MAX
        &&& sort_chunk::sorts(c.order, rows, s.keys)
        &&& sort_output_laws::rows_given(
            Sorting { stage: Stage::Memory(sort_chunk::arranged(rows, c.order)), ..s },
            end.disk,
            end.blocks,
            c.steps,
        ) == Some(given)
    }
}

/// Whether an execution is one of a plan: each operator was carried out in its way, with the
/// rows that the executions of the plans below it gave, in their order.
pub open spec fn carried_out(plan: Plan, e: Execution, db: Database) -> bool
    decreases plan,
{
    match (plan, e.work) {
        (Plan::Scan(id), Work::Scan(at)) => {
            &&& plan_laws::lies(db, id, at)
            &&& plan_laws::scanned(db, id, Seq::empty(), None, at) == (e.rows, None::<Fault>)
        },
        (Plan::Filter(tests, below), work) => match (
            filter::filter_way(tests, *below, db.tables),
            *below,
            work,
        ) {
            (Ok(FilterWay::Scan), Plan::Scan(id), Work::Scan(at)) => {
                &&& plan_laws::lies(db, id, at)
                &&& plan_laws::claims_hold(db, id, tests)
                &&& plan_laws::scanned(db, id, tests, None, at) == (e.rows, None::<Fault>)
            },
            (
                Ok(FilterWay::ProjectedScan(at_table, in_table)),
                Plan::Project(_, _),
                Work::NarrowedScan(indices, picks, at),
            ) => {
                &&& plan_laws::scan_is_right(tests, *below, db, indices, picks, at)
                &&& plan_laws::filter_gives(
                    FilterWay::ProjectedScan(at_table, in_table),
                    tests,
                    *below,
                    db,
                    indices,
                    picks,
                    at,
                ) == (e.rows, None::<Fault>)
            },
            (
                Ok(FilterWay::Cross),
                Plan::Cross(l, r),
                Work::Cross(left, right, course),
            ) => {
                let columns = answer::columns_of(*below, db.tables);
                &&& carried_out(*r, *right, db)
                &&& if right.rows.len() == 0 {
                    e.rows.len() == 0
                } else {
                    &&& carried_out(*l, *left, db)
                    &&& crossed(
                        left.rows,
                        right.rows,
                        columns,
                        Some(tests),
                        course,
                        e.rows,
                    )
                }
            },
            (Ok(FilterWay::Stream(columns)), _, Work::Stream(inner)) => {
                &&& carried_out(*below, *inner, db)
                &&& plan_laws::streamed(inner.rows, columns, tests) == (e.rows, None::<Fault>)
            },
            _ => false,
        },
        (Plan::Project(map, below), Work::NarrowedScan(indices, picks, at)) => match *below {
            Plan::Scan(id) => {
                &&& plan_laws::scan_is_right(Seq::empty(), plan, db, indices, picks, at)
                &&& ({
                    let got = plan_laws::scanned(
                        db,
                        id,
                        Seq::empty(),
                        Some(picks.wanted@),
                        at,
                    );
                    &&& got.1 is None
                    &&& got.0.map_values(plan_laws::picked_twice(picks)) == e.rows
                })
            },
            _ => false,
        },
        (Plan::Project(map, below), Work::Stream(inner)) => {
            &&& carried_out(*below, *inner, db)
            &&& project::sources(answer::columns_of(*below, db.tables), map) matches Ok(at)
                && e.rows == inner.rows.map_values(|r: Seq<Val>| rows::picked(r, at))
        },
        (Plan::Cross(l, r), Work::Cross(left, right, course)) => {
            let columns = answer::columns_of(plan, db.tables);
            &&& carried_out(*r, *right, db)
            &&& if right.rows.len() == 0 {
                e.rows.len() == 0
            } else {
                &&& carried_out(*l, *left, db)
                &&& crossed(left.rows, right.rows, columns, None, course, e.rows)
            }
        },
        (Plan::HashJoin(l, r, x, y), Work::HashJoin(left, right, begun, o, steps)) => {
            let (lc, rc) = (
                answer::columns_of(*l, db.tables),
                answer::columns_of(*r, db.tables),
            );
            &&& carried_out(*l, *left, db)
            &&& carried_out(*r, *right, db)
            &&& schema::column_index(lc, x) == Some(begun.join.left_key)
            &&& schema::column_index(rc, y) == Some(begun.join.right_key)
            &&& hash_joined(left.rows, right.rows, lc, rc, begun, o, steps, e.rows)
        },
        (Plan::Sort(specs, below), Work::Sort(inner, course)) => {
            let (columns, s) = (answer::columns_of(*below, db.tables), sorting_of(course));
            &&& carried_out(*below, *inner, db)
            &&& s.columns == columns
            &&& sort::key_positions(columns, specs) == Ok::<Seq<(int, bool)>, Fault>(s.keys)
            &&& sorted_by(inner.rows, course, e.rows)
        },
        _ => false,
    }
}

/// Whether all tests of a plan can be made: they name columns that there are, and each literal
/// can be brought to the type of its column. Over a cross join it has to have this type.
pub open spec fn literals_fit(plan: Plan, tables: Seq<Table>) -> bool
    decreases plan,
{
    match plan {
        Plan::Scan(_) => true,
        Plan::Filter(tests, child) => {
            let columns = answer::columns_of(*child, tables);
            &&& if *child is Cross {
                row::tests_fit(tests, columns)
            } else {
                filter::can_be_compiled(tests, columns)
            }
            &&& literals_fit(*child, tables)
        },
        Plan::Project(_, child) => literals_fit(*child, tables),
        Plan::Sort(_, child) => literals_fit(*child, tables),
        Plan::Cross(l, r) => literals_fit(*l, tables) && literals_fit(*r, tables),
        Plan::HashJoin(l, r, _, _) => literals_fit(*l, tables) && literals_fit(*r, tables),
    }
}

// ---- rows up to their order ----

/// Rows that are others in another order have the types that these have.
proof fn lemma_bag_fits(some: Seq<Seq<Val>>, all: Seq<Seq<Val>>, columns: Seq<Column>)
    requires
        seqs::same_bag(some, all),
        answer::all_fit(all, columns),
    ensures
        answer::all_fit(some, columns),
{
    assert forall|i: int| 0 <= i < some.len() implies row::row_fits(
        #[trigger] some[i],
        columns,
    ) by {
        vstd::seq_lib::to_multiset_contains(some, some[i]);
        vstd::seq_lib::to_multiset_contains(all, some[i]);
        let j = choose|j: int| 0 <= j < all.len() && all[j] == some[i];
        assert(row::row_fits(all[j], columns));
    }
}

/// Filtering does not hang on the order.
proof fn lemma_filter_bag(s: Seq<Seq<Val>>, t: Seq<Seq<Val>>, p: spec_fn(Seq<Val>) -> bool)
    requires
        seqs::same_bag(s, t),
    ensures
        seqs::same_bag(s.filter(p), t.filter(p)),
{
    let f = |r: Seq<Val>| seqs::one_if(p(r), r);
    answer::lemma_filter_is_flat(s, p);
    answer::lemma_filter_is_flat(t, p);
    seqs::lemma_flat_bag(s, t, f, f);
}

/// The pairs of rows do not hang on the order of either side.
proof fn lemma_pairs_bag(
    left: Seq<Seq<Val>>,
    l: Seq<Seq<Val>>,
    right: Seq<Seq<Val>>,
    r: Seq<Seq<Val>>,
    columns: Seq<Column>,
)
    requires
        seqs::same_bag(left, l),
        seqs::same_bag(right, r),
    ensures
        seqs::same_bag(
            cross::all_pairs(left, right, columns, None).0,
            cross::all_pairs(l, r, columns, None).0,
        ),
{
    let f = |a: Seq<Val>| seqs::flat(right, |b: Seq<Val>| seq![a + b]);
    let g = |a: Seq<Val>| seqs::flat(r, |b: Seq<Val>| seq![a + b]);
    answer::lemma_pairs_are_flat(left, right, columns);
    answer::lemma_pairs_are_flat(l, r, columns);
    assert forall|i: int| 0 <= i < left.len() implies seqs::same_bag(
        f(#[trigger] left[i]),
        g(left[i]),
    ) by {
        let a = left[i];
        let h = |b: Seq<Val>| seq![a + b];
        seqs::lemma_flat_bag(right, r, h, h);
    }
    seqs::lemma_flat_bag(left, l, f, g);
}

/// The same of the pairs with the same key.
proof fn lemma_equi_pairs_bag(
    left: Seq<Seq<Val>>,
    l: Seq<Seq<Val>>,
    x: int,
    right: Seq<Seq<Val>>,
    r: Seq<Seq<Val>>,
    y: int,
)
    requires
        seqs::same_bag(left, l),
        seqs::same_bag(right, r),
    ensures
        seqs::same_bag(
            join_laws::equi_pairs(left, x, right, y),
            join_laws::equi_pairs(l, x, r, y),
        ),
{
    let f = |a: Seq<Val>|
        seqs::flat(right, |b: Seq<Val>| seqs::one_if(hash::same_key(b[y], a[x]), a + b));
    let g = |a: Seq<Val>|
        seqs::flat(r, |b: Seq<Val>| seqs::one_if(hash::same_key(b[y], a[x]), a + b));
    answer::lemma_joins_are_flat(left, x, right, y);
    answer::lemma_joins_are_flat(l, x, r, y);
    assert forall|i: int| 0 <= i < left.len() implies seqs::same_bag(
        f(#[trigger] left[i]),
        g(left[i]),
    ) by {
        let a = left[i];
        let h = |b: Seq<Val>| seqs::one_if(hash::same_key(b[y], a[x]), a + b);
        seqs::lemma_flat_bag(right, r, h, h);
    }
    seqs::lemma_flat_bag(left, l, f, g);
}

// ---- the types of rows ----

/// A row of two rows has the types of both.
proof fn lemma_pair_fits(a: Seq<Val>, lc: Seq<Column>, b: Seq<Val>, rc: Seq<Column>)
    requires
        row::row_fits(a, lc),
        row::row_fits(b, rc),
    ensures
        row::row_fits(a + b, lc + rc),
{
    assert forall|i: int| 0 <= i < (a + b).len() implies row::val_type(#[trigger] (a + b)[i])
        == (lc + rc)[i].data_type by {
        if i < a.len() {
            assert(row::val_type(a[i]) == lc[i].data_type);
        } else {
            assert(row::val_type(b[i - a.len()]) == rc[i - a.len()].data_type);
        }
    }
}

proof fn lemma_each_fits(
    a: Seq<Val>,
    lc: Seq<Column>,
    right: Seq<Seq<Val>>,
    rc: Seq<Column>,
    tests: Option<Seq<Test>>,
)
    requires
        row::row_fits(a, lc),
        answer::all_fit(right, rc),
    ensures
        answer::all_fit(cross::with_each(a, right, lc + rc, tests).0, lc + rc),
    decreases right.len(),
{
    if right.len() > 0 {
        let before = right.drop_last();
        assert forall|i: int| 0 <= i < before.len() implies row::row_fits(
            #[trigger] before[i],
            rc,
        ) by {
            assert(before[i] == right[i]);
        }
        lemma_each_fits(a, lc, before, rc, tests);
        assert(row::row_fits(right[right.len() - 1], rc));
        lemma_pair_fits(a, lc, right.last(), rc);
    }
}

/// The pairs of a cross join have the types of the columns of both sides.
proof fn lemma_pairs_fit(
    left: Seq<Seq<Val>>,
    lc: Seq<Column>,
    right: Seq<Seq<Val>>,
    rc: Seq<Column>,
    tests: Option<Seq<Test>>,
)
    requires
        answer::all_fit(left, lc),
        answer::all_fit(right, rc),
    ensures
        answer::all_fit(cross::all_pairs(left, right, lc + rc, tests).0, lc + rc),
    decreases left.len(),
{
    if left.len() > 0 {
        let before = left.drop_last();
        assert forall|i: int| 0 <= i < before.len() implies row::row_fits(
            #[trigger] before[i],
            lc,
        ) by {
            assert(before[i] == left[i]);
        }
        lemma_pairs_fit(before, lc, right, rc, tests);
        assert(row::row_fits(left[left.len() - 1], lc));
        lemma_each_fits(left.last(), lc, right, rc, tests);
    }
}

/// The pairs with the same key too.
proof fn lemma_equi_pairs_fit(
    left: Seq<Seq<Val>>,
    lc: Seq<Column>,
    x: int,
    right: Seq<Seq<Val>>,
    rc: Seq<Column>,
    y: int,
)
    requires
        answer::all_fit(left, lc),
        answer::all_fit(right, rc),
    ensures
        answer::all_fit(join_laws::equi_pairs(left, x, right, y), lc + rc),
{
    let p = |a: Seq<Val>, b: Seq<Val>| hash::same_key(b[y], a[x]);
    answer::lemma_joins_are_flat(left, x, right, y);
    answer::lemma_pairs_fit(left, lc, right, rc, p);
    let f = |a: Seq<Val>| seqs::flat(right, |b: Seq<Val>| seqs::one_if(p(a, b), a + b));
    let g = |a: Seq<Val>|
        seqs::flat(right, |b: Seq<Val>| seqs::one_if(hash::same_key(b[y], a[x]), a + b));
    assert forall|i: int| 0 <= i < left.len() implies f(#[trigger] left[i]) == g(left[i]) by {
        let a = left[i];
        seqs::lemma_flat_same(
            right,
            |b: Seq<Val>| seqs::one_if(p(a, b), a + b),
            |b: Seq<Val>| seqs::one_if(hash::same_key(b[y], a[x]), a + b),
        );
    }
    seqs::lemma_flat_same(left, f, g);
}

/// Rows that pass have the types that all have.
proof fn lemma_streamed_fits(all: Seq<Seq<Val>>, columns: Seq<Column>, tests: Seq<Test>)
    requires
        answer::all_fit(all, columns),
    ensures
        answer::all_fit(plan_laws::streamed(all, columns, tests).0, columns),
    decreases all.len(),
{
    if all.len() > 0 {
        let before = all.drop_last();
        assert forall|i: int| 0 <= i < before.len() implies row::row_fits(
            #[trigger] before[i],
            columns,
        ) by {
            assert(before[i] == all[i]);
        }
        lemma_streamed_fits(before, columns, tests);
        assert(row::row_fits(all[all.len() - 1], columns));
    }
}

/// Projected rows have the types of the columns of the projection.
proof fn lemma_projected_fits(
    all: Seq<Seq<Val>>,
    columns: Seq<Column>,
    map: Seq<(Seq<char>, Seq<char>)>,
)
    requires
        answer::all_fit(all, columns),
        schema::projected_columns(columns, map) is Ok,
    ensures
        answer::all_fit(
            all.map_values(
                |r: Seq<Val>| rows::picked(r, project::sources(columns, map)->Ok_0),
            ),
            schema::projected_columns(columns, map)->Ok_0,
        ),
{
    let at = project::sources(columns, map)->Ok_0;
    let out = all.map_values(|r: Seq<Val>| rows::picked(r, at));
    let given = schema::projected_columns(columns, map)->Ok_0;
    assert forall|i: int| 0 <= i < out.len() implies row::row_fits(#[trigger] out[i], given) by {
        assert(row::row_fits(all[i], columns));
        answer::lemma_record_of_projected(columns, map, all[i]);
    }
}

/// The rows of a table have the types of its columns.
proof fn lemma_table_fits(db: Database, id: Seq<char>)
    requires
        answer::rows_fit(db),
        schema::plan_schema(Plan::Scan(id), db.tables) is Ok,
    ensures
        answer::all_fit((db.rows)(id), schema::table_columns(plan_laws::table_of(db, id))),
{
    let columns = schema::table_columns(plan_laws::table_of(db, id));
    assert forall|i: int| 0 <= i < (db.rows)(id).len() implies row::row_fits(
        #[trigger] (db.rows)(id)[i],
        columns,
    ) by {}
}

/// What a scan gives are rows of the table.
proof fn lemma_scan_fits(db: Database, id: Seq<char>, tests: Seq<Test>, at: Lying)
    requires
        answer::rows_fit(db),
        plan_laws::lies(db, id, at),
        plan_laws::claims_hold(db, id, tests),
    ensures
        answer::all_fit(
            plan_laws::scanned(db, id, tests, None, at).0,
            schema::table_columns(plan_laws::table_of(db, id)),
        ),
{
    let t = plan_laws::table_of(db, id);
    let columns = schema::table_columns(t);
    lemma_table_fits(db, id);
    scan_laws::scan_gives_the_rows_that_pass(
        t,
        tests,
        None,
        at.start,
        at.num,
        at.block_size,
        at.memory_limit_mb,
        at.disk,
        (db.rows)(id),
    );
    let checks = scan::checks_of(columns, tests, scan::tests_ordered(t, tests));
    answer::lemma_filter_fits(
        (db.rows)(id),
        columns,
        |r: Seq<Val>| scan_laws::meets_all(r, checks),
    );
}

/// What a narrowed scan gives are rows of the projection.
proof fn lemma_narrowed_scan_fits(
    db: Database,
    id: Seq<char>,
    map: Seq<(Seq<char>, Seq<char>)>,
    tests: Seq<Test>,
    indices: Seq<usize>,
    picks: ScanColumns,
    at: Lying,
)
    requires
        answer::rows_fit(db),
        plan_laws::lies(db, id, at),
        ({
            let columns = schema::table_columns(plan_laws::table_of(db, id));
            let given = project::renamed(columns, rows::positions(indices), map);
            &&& project::sources(columns, map) == Ok::<Seq<int>, Seq<char>>(
                rows::positions(indices),
            )
            &&& rows::all_below(indices, columns.len() as int)
            &&& picks.serves(indices, columns.len() as int)
            &&& filter::tests_within(tests, given)
            &&& plan_laws::claims_hold(
                db,
                id,
                filter::table_tests(tests, given, rows::positions(indices), columns),
            )
        }),
    ensures
        ({
            let columns = schema::table_columns(plan_laws::table_of(db, id));
            let given = project::renamed(columns, rows::positions(indices), map);
            let below = filter::table_tests(tests, given, rows::positions(indices), columns);
            answer::all_fit(
                plan_laws::scanned(db, id, below, Some(picks.wanted@), at).0.map_values(
                    plan_laws::picked_twice(picks),
                ),
                given,
            )
        }),
{
    let t = plan_laws::table_of(db, id);
    let columns = schema::table_columns(t);
    let places = rows::positions(indices);
    let given = project::renamed(columns, places, map);
    let below = filter::table_tests(tests, given, places, columns);
    let checks = scan::checks_of(columns, below, scan::tests_ordered(t, below));
    let all = (db.rows)(id);
    let wanted = picks.wanted@;
    lemma_table_fits(db, id);
    plan_laws::lemma_table_narrowed(
        at.disk,
        at.start,
        at.num as nat,
        at.block_size,
        columns,
        wanted,
    );
    let some = scan_laws::table_rows(
        at.disk,
        at.start,
        at.num as nat,
        at.block_size,
        columns,
        Some(wanted),
    )->Ok_0;
    plan_laws::lemma_claims_narrowed(db, id, tests, map, indices, picks, some);
    scan_laws::scan_gives_the_rows_that_pass(
        t,
        below,
        Some(wanted),
        at.start,
        at.num,
        at.block_size,
        at.memory_limit_mb,
        at.disk,
        some,
    );
    let p = |r: Seq<Val>| scan_laws::meets_all(r, checks);
    let kept = some.filter(p);
    let f = |r: Seq<Val>| seqs::one_if(p(r), r);
    let out = kept.map_values(plan_laws::picked_twice(picks));
    project::lemma_projected_is_renamed(columns, map);
    answer::lemma_filter_is_flat(some, p);
    assert forall|i: int| 0 <= i < out.len() implies row::row_fits(#[trigger] out[i], given) by {
        assert(kept.contains(kept[i]));
        seqs::lemma_flat_source(some, f, kept[i]);
        let k = choose|k: int| 0 <= k < some.len() && f(#[trigger] some[k]).contains(kept[i]);
        assert(some[k] == kept[i]);
        assert(plan_laws::narrowed(some[k], all[k], wanted, columns.len()));
        project::projecting_while_scanning_agrees(all[k], some[k], picks, indices);
        assert(row::row_fits(all[k], columns));
        answer::lemma_record_of_projected(columns, map, all[k]);
    }
}

// ---- operators ----

/// A cross join gives the pairs of its rows.
proof fn lemma_crossed(
    left: Seq<Seq<Val>>,
    right: Seq<Seq<Val>>,
    columns: Seq<Column>,
    tests: Option<Seq<Test>>,
    course: CrossCourse,
    given: Seq<Seq<Val>>,
)
    requires
        crossed(left, right, columns, tests, course, given),
    ensures
        seqs::same_bag(given, cross::all_pairs(left, right, columns, tests).0),
{
    let full = cross_laws::right_taken(course.begun, right, course.worlds, course.end);
    let c = Crossing { cross: full.cross, fetch: course.fetch, done: 0 };
    cross_laws::the_right_input_is_held(
        course.begun,
        right,
        course.worlds,
        course.end,
        course.fetch,
    );
    cross_laws::a_cross_join_gives_the_pairs_of_its_inputs(c, left, right, full.blocks);
    let pairs = cross_laws::left_came(c, left, full.blocks).1;
    assert(pairs.add(vstd::multiset::Multiset::empty()) =~= pairs);
}

/// A hash join gives the pairs of its rows with the same key.
proof fn lemma_hash_joined(
    left: Seq<Seq<Val>>,
    right: Seq<Seq<Val>>,
    lc: Seq<Column>,
    rc: Seq<Column>,
    begun: Course,
    o: Others,
    steps: nat,
    given: Seq<Seq<Val>>,
)
    requires
        hash_joined(left, right, lc, rc, begun, o, steps, given),
    ensures
        seqs::same_bag(
            given,
            join_laws::equi_pairs(left, begun.join.left_key, right, begun.join.right_key),
        ),
{
    let c = join_input_laws::inputs_taken(begun, right, left, o);
    let m = join_input_laws::last_phase(c, lc, rc);
    join_input_laws::a_hash_join_gives_all_pairs(begun, right, left, o, lc, rc);
    let n = join_output_laws::the_last_phase_gives_all_its_pairs(m, c.blocks);
    join_output_laws::lemma_pairs_given_once(m, c.blocks, n, steps);
    vstd::seq_lib::lemma_multiset_commutative(
        c.pairs,
        join_output_laws::pairs_given(m, c.blocks, steps)->Some_0,
    );
}

/// A sort gives its rows, in order where no key is a NaN.
proof fn lemma_sorted_by(came: Seq<Seq<Val>>, c: SortCourse, given: Seq<Seq<Val>>)
    requires
        sorted_by(came, c, given),
    ensures
        seqs::same_bag(given, came),
        sort_output_laws::keyed(came.to_multiset(), sorting_of(c).keys) ==> sort_laws::sorted(
            given,
            sorting_of(c).keys,
        ),
{
    let s = sorting_of(c);
    let end = c.ended;
    let runs = end.input.runs@;
    let t = sort_input_laws::a_sort_takes_all_its_rows(c.states, c.met, came, end);
    if runs.len() > 0 {
        let (stage, after) = sort_output::round_begun(s, runs, end.disk);
        let u = Sorting { stage, ..s };
        vstd::seq_lib::to_multiset_len(came);
        let x = sort_input_laws::the_output_begins_with_the_rows_of_the_runs(
            s,
            runs,
            t,
            end.disk,
            end.blocks,
        );
        let n = sort_output_laws::a_sort_gives_all_its_rows(u, after, end.blocks, x);
        sort_output_laws::lemma_rows_given_once(u, after, end.blocks, n, c.steps);
    } else {
        sort_input_laws::lemma_chunk_bytes(came);
        assert forall|i: int| 0 <= i < came.len() implies row::row_fits(
            #[trigger] came[i],
            s.columns,
        ) && row::row_storable(came[i]) by {
            assert(block::packable(came[i], s.columns, s.block_size as nat));
        }
        sort_laws::a_chunk_gives_back_its_rows(came, s.columns);
        let u = Sorting { stage: Stage::Memory(sort_chunk::arranged(came, c.order)), ..s };
        let x = sort_input_laws::the_output_begins_with_the_rows_of_the_chunk(
            s,
            came,
            c.order,
            end.disk.next as int,
            end.blocks,
        );
        let n = sort_output_laws::a_sort_gives_all_its_rows(u, end.disk, end.blocks, x);
        sort_output_laws::lemma_rows_given_once(u, end.disk, end.blocks, n, c.steps);
    }
}

// ---- the whole plan ----

/// What is promised of an execution: its rows have the types of the columns of the plan, and
/// where the literals of the tests fit, they are the rows of the plan, in some order.
pub open spec fn gives_rows_of(plan: Plan, given: Seq<Seq<Val>>, db: Database) -> bool {
    &&& answer::all_fit(given, answer::columns_of(plan, db.tables))
    &&& literals_fit(plan, db.tables) ==> seqs::same_bag(given, answer::rows_of(plan, db))
}

/// The pairs of two executions.
proof fn lemma_cross_gives(
    l: Plan,
    r: Plan,
    tests: Option<Seq<Test>>,
    left: Seq<Seq<Val>>,
    right: Seq<Seq<Val>>,
    course: CrossCourse,
    given: Seq<Seq<Val>>,
    db: Database,
)
    requires
        schema::plan_schema(Plan::Cross(Box::new(l), Box::new(r)), db.tables) is Ok,
        gives_rows_of(r, right, db),
        if right.len() == 0 {
            given.len() == 0
        } else {
            &&& gives_rows_of(l, left, db)
            &&& crossed(
                left,
                right,
                answer::columns_of(Plan::Cross(Box::new(l), Box::new(r)), db.tables),
                tests,
                course,
                given,
            )
        },
    ensures
        ({
            let plan = Plan::Cross(Box::new(l), Box::new(r));
            match tests {
                None => gives_rows_of(plan, given, db),
                Some(t) => gives_rows_of(Plan::Filter(t, Box::new(plan)), given, db),
            }
        }),
{
    let plan = Plan::Cross(Box::new(l), Box::new(r));
    let columns = answer::columns_of(plan, db.tables);
    let (lc, rc) = (answer::columns_of(l, db.tables), answer::columns_of(r, db.tables));
    let (a, b) = (answer::rows_of(l, db), answer::rows_of(r, db));
    assert(columns == lc + rc);
    let all = cross::all_pairs(a, b, columns, None).0;
    assert(answer::rows_of(plan, db) == all);
    assert(literals_fit(plan, db.tables) == (literals_fit(l, db.tables) && literals_fit(
        r,
        db.tables,
    )));
    match tests {
        Some(t) => {
            let over = Plan::Filter(t, Box::new(plan));
            assert(answer::columns_of(over, db.tables) == columns);
            assert(literals_fit(over, db.tables) == (row::tests_fit(t, columns) && literals_fit(
                plan,
                db.tables,
            )));
        },
        None => {},
    }
    if right.len() == 0 {
        if literals_fit(r, db.tables) {
            vstd::seq_lib::to_multiset_len(right);
            vstd::seq_lib::to_multiset_len(b);
            assert(b =~= Seq::empty());
            cross::lemma_no_right_rows(a, columns, None);
            assert(all =~= given);
            match tests {
                Some(t) => {
                    reveal(Seq::filter);
                    assert(answer::rows_of(Plan::Filter(t, Box::new(plan)), db) =~= given);
                },
                None => {},
            }
        }
    } else {
        lemma_crossed(left, right, columns, tests, course, given);
        lemma_pairs_fit(left, lc, right, rc, tests);
        lemma_bag_fits(given, cross::all_pairs(left, right, columns, tests).0, columns);
        if literals_fit(plan, db.tables) {
            lemma_pairs_bag(left, a, right, b, columns);
            match tests {
                Some(t) => {
                    if row::tests_fit(t, columns) {
                        let q = |x: Seq<Val>|
                            row::tests_outcome(x, columns, t) == Ok::<bool, Fault>(true);
                        plan_laws::lemma_pairs_filtered(left, right, columns, t);
                        lemma_filter_bag(
                            cross::all_pairs(left, right, columns, None).0,
                            all,
                            q,
                        );
                        assert(answer::rows_of(Plan::Filter(t, Box::new(plan)), db)
                            == all.filter(q));
                    }
                },
                None => {},
            }
        }
    }
}

/// The rows of a scan, with or without tests.
proof fn lemma_scan_gives(
    id: Seq<char>,
    tests: Seq<Test>,
    at: Lying,
    given: Seq<Seq<Val>>,
    db: Database,
)
    requires
        answer::rows_fit(db),
        plan_laws::lies(db, id, at),
        plan_laws::claims_hold(db, id, tests),
        plan_laws::scanned(db, id, tests, None, at) == (given, None::<Fault>),
    ensures
        gives_rows_of(Plan::Filter(tests, Box::new(Plan::Scan(id))), given, db),
        tests.len() == 0 ==> gives_rows_of(Plan::Scan(id), given, db),
{
    let scan = Plan::Scan(id);
    let columns = schema::table_columns(plan_laws::table_of(db, id));
    assert(answer::columns_of(scan, db.tables) == columns);
    assert(answer::columns_of(Plan::Filter(tests, Box::new(scan)), db.tables) == columns);
    lemma_scan_fits(db, id, tests, at);
    if filter::can_be_compiled(tests, columns) {
        plan_laws::a_scan_gives_the_rows_of_its_plan(db, id, tests, at);
    }
    if tests.len() == 0 {
        plan_laws::a_scan_gives_the_rows_of_its_plan(db, id, tests, at);
    }
}

/// The rows of a narrowed scan, with or without tests.
proof fn lemma_narrowed_scan_gives(
    id: Seq<char>,
    map: Seq<(Seq<char>, Seq<char>)>,
    tests: Seq<Test>,
    indices: Seq<usize>,
    picks: ScanColumns,
    at: Lying,
    db: Database,
)
    requires
        answer::rows_fit(db),
        schema::plan_schema(Plan::Project(map, Box::new(Plan::Scan(id))), db.tables) is Ok,
        plan_laws::scan_is_right(
            tests,
            Plan::Project(map, Box::new(Plan::Scan(id))),
            db,
            indices,
            picks,
            at,
        ),
        filter::tests_within(
            tests,
            project::renamed(
                schema::table_columns(plan_laws::table_of(db, id)),
                rows::positions(indices),
                map,
            ),
        ),
    ensures
        ({
            let columns = schema::table_columns(plan_laws::table_of(db, id));
            let given = project::renamed(columns, rows::positions(indices), map);
            let below = filter::table_tests(tests, given, rows::positions(indices), columns);
            let out = plan_laws::scanned(db, id, below, Some(picks.wanted@), at).0.map_values(
                plan_laws::picked_twice(picks),
            );
            let narrow = Plan::Project(map, Box::new(Plan::Scan(id)));
            &&& gives_rows_of(Plan::Filter(tests, Box::new(narrow)), out, db)
            &&& tests.len() == 0 ==> gives_rows_of(narrow, out, db)
        }),
{
    let scan = Plan::Scan(id);
    let narrow = Plan::Project(map, Box::new(scan));
    let columns = schema::table_columns(plan_laws::table_of(db, id));
    let places = rows::positions(indices);
    let given = project::renamed(columns, places, map);
    assert(answer::columns_of(scan, db.tables) == columns);
    project::lemma_projected_is_renamed(columns, map);
    assert(answer::columns_of(narrow, db.tables) == given);
    let over = Plan::Filter(tests, Box::new(narrow));
    assert(answer::columns_of(over, db.tables) == given);
    lemma_narrowed_scan_fits(db, id, map, tests, indices, picks, at);
    if filter::can_be_compiled(tests, given) || tests.len() == 0 {
        plan_laws::lemma_compiles_below(tests, map, columns, places);
        plan_laws::a_narrowed_scan_gives_the_rows_of_its_plan(
            db,
            id,
            map,
            tests,
            indices,
            picks,
            at,
        );
    }
}

/// A filter that makes its tests itself has the columns of the plan below it.
pub proof fn lemma_stream_columns(tests: Seq<Test>, below: Plan, tables: Seq<Table>)
    requires
        schema::plan_schema(below, tables) is Ok,
    ensures
        filter::filter_way(tests, below, tables) matches Ok(FilterWay::Stream(columns)) ==> columns
            == answer::columns_of(below, tables),
{
    match below {
        Plan::Project(map, inner) => {
            if *inner is Scan {
                project::lemma_projected_is_renamed(answer::columns_of(*inner, tables), map);
            }
        },
        _ => {},
    }
}

/// A plan that is carried out operator by operator, each with the rows that the ones below it
/// gave, gives rows of the columns of the plan: as many values as columns, each of the type of
/// its column. They are the rows that the plan means, in some order, where the literals of its
/// tests fit.
pub proof fn an_execution_gives_the_rows_of_its_plan(plan: Plan, e: Execution, db: Database)
    requires
        schema::plan_schema(plan, db.tables) is Ok,
        answer::rows_fit(db),
        carried_out(plan, e, db),
    ensures
        gives_rows_of(plan, e.rows, db),
    decreases plan,
{
    let columns = answer::columns_of(plan, db.tables);
    match (plan, e.work) {
        (Plan::Scan(id), Work::Scan(at)) => {
            lemma_scan_gives(id, Seq::empty(), at, e.rows, db);
        },
        (Plan::Filter(tests, below), work) => {
            let under = answer::columns_of(*below, db.tables);
            match (filter::filter_way(tests, *below, db.tables), *below, work) {
                (Ok(FilterWay::Scan), Plan::Scan(id), Work::Scan(at)) => {
                    lemma_scan_gives(id, tests, at, e.rows, db);
                },
                (
                    Ok(FilterWay::ProjectedScan(_, _)),
                    Plan::Project(map, inner),
                    Work::NarrowedScan(indices, picks, at),
                ) => {
                    match *inner {
                        Plan::Scan(id) => {
                            lemma_narrowed_scan_gives(id, map, tests, indices, picks, at, db);
                        },
                        _ => {},
                    }
                },
                (
                    Ok(FilterWay::Cross),
                    Plan::Cross(l, r),
                    Work::Cross(left, right, course),
                ) => {
                    an_execution_gives_the_rows_of_its_plan(*r, *right, db);
                    if right.rows.len() > 0 {
                        an_execution_gives_the_rows_of_its_plan(*l, *left, db);
                    }
                    lemma_cross_gives(
                        *l,
                        *r,
                        Some(tests),
                        left.rows,
                        right.rows,
                        course,
                        e.rows,
                        db,
                    );
                },
                (Ok(FilterWay::Stream(given)), _, Work::Stream(inner)) => {
                    an_execution_gives_the_rows_of_its_plan(*below, *inner, db);
                    lemma_stream_columns(tests, *below, db.tables);
                    assert(given == under);
                    lemma_streamed_fits(inner.rows, under, tests);
                    if literals_fit(plan, db.tables) {
                        plan_laws::lemma_streamed_without_fault(inner.rows, under, tests);
                        lemma_filter_bag(
                            inner.rows,
                            answer::rows_of(*below, db),
                            |r: Seq<Val>|
                                row::tests_outcome(r, under, tests) == Ok::<bool, Fault>(true),
                        );
                    }
                },
                _ => {},
            }
        },
        (Plan::Project(map, below), Work::NarrowedScan(indices, picks, at)) => {
            match *below {
                Plan::Scan(id) => {
                    let whole = schema::table_columns(plan_laws::table_of(db, id));
                    let places = rows::positions(indices);
                    let none = Seq::<Test>::empty();
                    assert(filter::table_tests(
                        none,
                        project::renamed(whole, places, map),
                        places,
                        whole,
                    ) =~= none);
                    lemma_narrowed_scan_gives(id, map, none, indices, picks, at, db);
                },
                _ => {},
            }
        },
        (Plan::Project(map, below), Work::Stream(inner)) => {
            an_execution_gives_the_rows_of_its_plan(*below, *inner, db);
            let under = answer::columns_of(*below, db.tables);
            let at = project::sources(under, map)->Ok_0;
            lemma_projected_fits(inner.rows, under, map);
            if literals_fit(plan, db.tables) {
                seqs::lemma_map_bag(
                    inner.rows,
                    answer::rows_of(*below, db),
                    |r: Seq<Val>| rows::picked(r, at),
                );
            }
        },
        (Plan::Cross(l, r), Work::Cross(left, right, course)) => {
            an_execution_gives_the_rows_of_its_plan(*r, *right, db);
            if right.rows.len() > 0 {
                an_execution_gives_the_rows_of_its_plan(*l, *left, db);
            }
            lemma_cross_gives(
                *l,
                *r,
                None,
                left.rows,
                right.rows,
                course,
                e.rows,
                db,
            );
        },
        (Plan::HashJoin(l, r, x, y), Work::HashJoin(left, right, begun, o, steps)) => {
            an_execution_gives_the_rows_of_its_plan(*l, *left, db);
            an_execution_gives_the_rows_of_its_plan(*r, *right, db);
            let (lc, rc) = (
                answer::columns_of(*l, db.tables),
                answer::columns_of(*r, db.tables),
            );
            let (i, j) = (begun.join.left_key, begun.join.right_key);
            lemma_hash_joined(left.rows, right.rows, lc, rc, begun, o, steps, e.rows);
            lemma_equi_pairs_fit(left.rows, lc, i, right.rows, rc, j);
            lemma_bag_fits(
                e.rows,
                join_laws::equi_pairs(left.rows, i, right.rows, j),
                columns,
            );
            if literals_fit(plan, db.tables) {
                lemma_equi_pairs_bag(
                    left.rows,
                    answer::rows_of(*l, db),
                    i,
                    right.rows,
                    answer::rows_of(*r, db),
                    j,
                );
            }
        },
        (Plan::Sort(specs, below), Work::Sort(inner, course)) => {
            an_execution_gives_the_rows_of_its_plan(*below, *inner, db);
            lemma_sorted_by(inner.rows, course, e.rows);
            lemma_bag_fits(e.rows, inner.rows, columns);
        },
        _ => {},
    }
}

/// The rows of a sort that is carried out come in the order of its keys, where none of these is
/// a NaN.
pub proof fn an_executed_sort_gives_its_rows_in_order(
    specs: Seq<SortKey>,
    below: Plan,
    e: Execution,
    db: Database,
)
    requires
        carried_out(Plan::Sort(specs, Box::new(below)), e, db),
    ensures
        sort::key_positions(answer::columns_of(below, db.tables), specs) matches Ok(keys) && (
        sort_output_laws::keyed(e.rows.to_multiset(), keys) ==> sort_laws::sorted(e.rows, keys)),
{
    match e.work {
        Work::Sort(inner, course) => {
            lemma_sorted_by(inner.rows, course, e.rows);
        },
        _ => {},
    }
}

// ---- the order of rows ----

/// Whether a plan is made of scans, filters and projections alone.
pub open spec fn is_unjoined(plan: Plan) -> bool
    decreases plan,
{
    match plan {
        Plan::Scan(_) => true,
        Plan::Filter(_, child) => is_unjoined(*child),
        Plan::Project(_, child) => is_unjoined(*child),
        _ => false,
    }
}

/// Without joins and sorts a plan that is carried out gives its rows in the order in which the
/// table is stored.
pub proof fn rows_come_as_they_are_stored(plan: Plan, e: Execution, db: Database)
    requires
        schema::plan_schema(plan, db.tables) is Ok,
        answer::rows_fit(db),
        carried_out(plan, e, db),
        literals_fit(plan, db.tables),
        is_unjoined(plan),
    ensures
        e.rows == answer::rows_of(plan, db),
    decreases plan,
{
    reveal_with_fuel(is_unjoined, 2);
    match (plan, e.work) {
        (Plan::Scan(id), Work::Scan(at)) => {
            plan_laws::a_scan_gives_the_rows_of_its_plan(db, id, Seq::empty(), at);
        },
        (Plan::Filter(tests, below), work) => {
            let under = answer::columns_of(*below, db.tables);
            match (filter::filter_way(tests, *below, db.tables), *below, work) {
                (Ok(FilterWay::Scan), Plan::Scan(id), Work::Scan(at)) => {
                    assert(under == schema::table_columns(plan_laws::table_of(db, id)));
                    plan_laws::a_scan_gives_the_rows_of_its_plan(db, id, tests, at);
                    assert(e.rows == answer::rows_of(plan, db));
                },
                (
                    Ok(FilterWay::ProjectedScan(_, _)),
                    Plan::Project(map, inner),
                    Work::NarrowedScan(indices, picks, at),
                ) => {
                    match *inner {
                        Plan::Scan(id) => {
                            let whole = schema::table_columns(plan_laws::table_of(db, id));
                            let places = rows::positions(indices);
                            assert(answer::columns_of(*inner, db.tables) == whole);
                            project::lemma_projected_is_renamed(whole, map);
                            plan_laws::lemma_compiles_below(tests, map, whole, places);
                            plan_laws::a_narrowed_scan_gives_the_rows_of_its_plan(
                                db,
                                id,
                                map,
                                tests,
                                indices,
                                picks,
                                at,
                            );
                            assert(e.rows == answer::rows_of(plan, db));
                        },
                        _ => {},
                    }
                },
                (Ok(FilterWay::Stream(given)), _, Work::Stream(inner)) => {
                    rows_come_as_they_are_stored(*below, *inner, db);
                    lemma_stream_columns(tests, *below, db.tables);
                    assert(given == under);
                    plan_laws::lemma_streamed_without_fault(inner.rows, under, tests);
                    assert(e.rows == answer::rows_of(plan, db));
                },
                _ => {},
            }
        },
        (Plan::Project(map, below), Work::NarrowedScan(indices, picks, at)) => {
            match *below {
                Plan::Scan(id) => {
                    let whole = schema::table_columns(plan_laws::table_of(db, id));
                    let places = rows::positions(indices);
                    let none = Seq::<Test>::empty();
                    assert(answer::columns_of(*below, db.tables) == whole);
                    project::lemma_projected_is_renamed(whole, map);
                    assert(filter::table_tests(
                        none,
                        project::renamed(whole, places, map),
                        places,
                        whole,
                    ) =~= none);
                    plan_laws::lemma_compiles_below(none, map, whole, places);
                    plan_laws::a_narrowed_scan_gives_the_rows_of_its_plan(
                        db,
                        id,
                        map,
                        none,
                        indices,
                        picks,
                        at,
                    );
                    assert(e.rows == answer::rows_of(plan, db));
                },
                _ => {},
            }
        },
        (Plan::Project(map, below), Work::Stream(inner)) => {
            rows_come_as_they_are_stored(*below, *inner, db);
            assert(e.rows == answer::rows_of(plan, db));
        },
        _ => {},
    }
}

} // verus!
