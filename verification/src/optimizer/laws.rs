//! The laws of the optimizer: an optimized plan gives the rows of the plan.

use vstd::prelude::*;

use crate::answer::{Database, Record};
use crate::answer;
use crate::ops::execution_laws::Execution;
use crate::ops::execution_laws;
use crate::optimizer::pushdown;
use crate::optimizer::pushdown_laws;
use crate::optimizer::reorder;
use crate::optimizer::reorder_laws;
use crate::optimizer::rewrite;
use crate::optimizer::rewrite_laws;
use crate::optimizer::swap_laws;
use crate::optimizer;
use crate::query::Plan;
use crate::row;
use crate::schema::Column;
use crate::schema;
use crate::seqs;
use crate::value::Val;

verus! {

/// Optimizing a plan succeeds. The optimized plan has the same columns, up to their order,
/// and gives the same records, up to theirs. Equal values have to be the same in the columns
/// that a filter compares for equality: a hash join tells zero from negative zero, a test does
/// not.
pub proof fn optimizing_keeps_the_answer(plan: Plan, db: Database)
    requires
        answer::sound(plan, db.tables),
        answer::rows_fit(db),
        answer::joins_agree(plan, db),
    ensures
        optimizer::optimized(plan, db.tables) matches Ok(q) && answer::sound(q, db.tables)
            && reorder_laws::same_columns(
            answer::columns_of(q, db.tables),
            answer::columns_of(plan, db.tables),
        ) && seqs::same_bag(
            answer::records(answer::columns_of(q, db.tables), answer::rows_of(q, db)),
            answer::records(answer::columns_of(plan, db.tables), answer::rows_of(plan, db)),
        ),
{
    reorder_laws::putting_joins_in_order_keeps_the_answer(plan, db);
    reorder_laws::lemma_order_keeps_origins(plan, db);
    let p1 = reorder::reordered(plan, db.tables)->Ok_0;
    rewrite_laws::rewriting_keeps_the_answer(p1, db);
    let p2 = rewrite::rewritten(p1, db.tables)->Ok_0;
    pushdown_laws::narrowing_keeps_the_answer(p2, db);
    let p3 = pushdown::pushed(p2, None, db.tables)->Ok_0;
    swap_laws::exchanging_sides_keeps_the_answer(p3, db);
    let q = optimizer::optimized(plan, db.tables)->Ok_0;
    answer::the_answer_is_that_of_the_rows(plan, db);
    answer::the_answer_is_that_of_the_rows(q, db);
}

/// Where the outermost operation of a plan is a projection, the optimized plan has the same
/// columns in the same order.
pub proof fn optimizing_a_projection_keeps_the_columns(
    map: Seq<(Seq<char>, Seq<char>)>,
    child: Plan,
    db: Database,
)
    requires
        answer::sound(Plan::Project(map, Box::new(child)), db.tables),
        answer::rows_fit(db),
        answer::joins_agree(Plan::Project(map, Box::new(child)), db),
    ensures
        optimizer::optimized(Plan::Project(map, Box::new(child)), db.tables) matches Ok(q)
            && schema::plan_schema(q, db.tables) == schema::plan_schema(
            Plan::Project(map, Box::new(child)),
            db.tables,
        ),
{
    let plan = Plan::Project(map, Box::new(child));
    reorder_laws::putting_joins_in_order_keeps_the_answer(plan, db);
    reorder_laws::lemma_projection_keeps_the_columns(map, child, db);
    reorder_laws::lemma_order_keeps_origins(plan, db);
    let p1 = reorder::reordered(plan, db.tables)->Ok_0;
    rewrite_laws::rewriting_keeps_the_answer(p1, db);
    let p2 = rewrite::rewritten(p1, db.tables)->Ok_0;
    pushdown_laws::narrowing_keeps_the_answer(p2, db);
    let p3 = pushdown::pushed(p2, None, db.tables)->Ok_0;
    swap_laws::exchanging_sides_keeps_the_answer(p3, db);
}

/// The row of a record.
spec fn row_of(columns: Seq<Column>, a: Record) -> Seq<Val> {
    Seq::new(columns.len(), |i: int| a[columns[i].name])
}

/// Rows with the same records are the same, where no two columns have the same name.
proof fn lemma_rows_of_records(columns: Seq<Column>, all: Seq<Seq<Val>>)
    requires
        answer::distinct(columns),
        answer::all_fit(all, columns),
    ensures
        answer::records(columns, all).map_values(|a: Record| row_of(columns, a)) == all,
{
    let back = answer::records(columns, all).map_values(|a: Record| row_of(columns, a));
    assert forall|i: int| 0 <= i < all.len() implies back[i] == all[i] by {
        let r = all[i];
        assert(row::row_fits(all[i], columns));
        assert forall|k: int| 0 <= k < columns.len() implies back[i][k] == r[k] by {
            answer::lemma_has(columns, k);
        }
        assert(back[i] =~= r);
    }
    assert(back =~= all);
}

/// Where the outermost operation of a plan is a projection, the optimized plan gives the same
/// rows, up to their order.
pub proof fn optimizing_a_projection_keeps_the_rows(
    map: Seq<(Seq<char>, Seq<char>)>,
    child: Plan,
    db: Database,
)
    requires
        answer::sound(Plan::Project(map, Box::new(child)), db.tables),
        answer::rows_fit(db),
        answer::joins_agree(Plan::Project(map, Box::new(child)), db),
    ensures
        optimizer::optimized(Plan::Project(map, Box::new(child)), db.tables) matches Ok(q)
            && seqs::same_bag(
            answer::rows_of(q, db),
            answer::rows_of(Plan::Project(map, Box::new(child)), db),
        ),
{
    let plan = Plan::Project(map, Box::new(child));
    optimizing_keeps_the_answer(plan, db);
    optimizing_a_projection_keeps_the_columns(map, child, db);
    let q = optimizer::optimized(plan, db.tables)->Ok_0;
    let columns = answer::columns_of(plan, db.tables);
    answer::the_answer_is_that_of_the_rows(plan, db);
    answer::the_answer_is_that_of_the_rows(q, db);
    let (a, b) = (answer::rows_of(q, db), answer::rows_of(plan, db));
    lemma_rows_of_records(columns, a);
    lemma_rows_of_records(columns, b);
    seqs::lemma_map_bag(
        answer::records(columns, a),
        answer::records(columns, b),
        |x: Record| row_of(columns, x),
    );
}

/// A plan whose outermost operation is a projection, and the optimized plan, give the same rows
/// when they are carried out, up to their order, with the same columns. In both plans the
/// literals of tests fit.
pub proof fn an_optimized_projection_is_carried_out_alike(
    map: Seq<(Seq<char>, Seq<char>)>,
    child: Plan,
    e: Execution,
    f: Execution,
    db: Database,
)
    requires
        answer::sound(Plan::Project(map, Box::new(child)), db.tables),
        answer::rows_fit(db),
        answer::joins_agree(Plan::Project(map, Box::new(child)), db),
        execution_laws::literals_fit(Plan::Project(map, Box::new(child)), db.tables),
        execution_laws::carried_out(Plan::Project(map, Box::new(child)), e, db),
        optimizer::optimized(Plan::Project(map, Box::new(child)), db.tables) matches Ok(q) ==> {
            &&& execution_laws::literals_fit(q, db.tables)
            &&& execution_laws::carried_out(q, f, db)
        },
    ensures
        seqs::same_bag(f.rows, e.rows),
        answer::all_fit(
            f.rows,
            answer::columns_of(Plan::Project(map, Box::new(child)), db.tables),
        ),
{
    let plan = Plan::Project(map, Box::new(child));
    optimizing_keeps_the_answer(plan, db);
    optimizing_a_projection_keeps_the_columns(map, child, db);
    optimizing_a_projection_keeps_the_rows(map, child, db);
    let q = optimizer::optimized(plan, db.tables)->Ok_0;
    execution_laws::an_execution_gives_the_rows_of_its_plan(plan, e, db);
    execution_laws::an_execution_gives_the_rows_of_its_plan(q, f, db);
}

} // verus!
