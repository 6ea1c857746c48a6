//! The sides of joins: the smaller input, by estimate, goes to the right, where it is held.

use vstd::prelude::*;

use crate::error::{DbError, Fault};
use crate::optimizer::estimate::estimate_cardinality;
use crate::optimizer::estimate;
use crate::optimizer::pushdown;
use crate::optimizer::rewrite;
use crate::query::{
    CrossData, DbContext, FilterData, HashJoinData, Plan, ProjectData, QueryOp, SortData, Table,
};
use crate::schema::{get_schema, Column, ColumnInfo};
use crate::schema;

verus! {

/// A join of exchanged inputs, under a projection that gives the columns in their old order.
/// Where the left input is not the smaller one, the inputs stay.
pub open spec fn sided(
    left: Plan,
    right: Plan,
    kept: Plan,
    exchanged: Plan,
    tables: Seq<Table>,
) -> Result<Plan, Fault> {
    if estimate::cardinality(left, tables) < estimate::cardinality(right, tables) {
        match schema::both_schemas(
            schema::plan_schema(left, tables),
            schema::plan_schema(right, tables),
        ) {
            Err(e) => Err(e),
            Ok(columns) => Ok(Plan::Project(pushdown::keeping(columns), Box::new(exchanged))),
        }
    } else {
        Ok(kept)
    }
}

/// The plan whose joins hold their smaller input.
pub open spec fn swapped(plan: Plan, tables: Seq<Table>) -> Result<Plan, Fault>
    decreases plan,
{
    match plan {
        Plan::Scan(_) => Ok(plan),
        Plan::Filter(tests, child) => match swapped(*child, tables) {
            Err(e) => Err(e),
            Ok(c) => Ok(Plan::Filter(tests, Box::new(c))),
        },
        Plan::Project(map, child) => match swapped(*child, tables) {
            Err(e) => Err(e),
            Ok(c) => Ok(Plan::Project(map, Box::new(c))),
        },
        Plan::Sort(keys, child) => match swapped(*child, tables) {
            Err(e) => Err(e),
            Ok(c) => Ok(Plan::Sort(keys, Box::new(c))),
        },
        Plan::Cross(l, r) => match (swapped(*l, tables), swapped(*r, tables)) {
            (Err(e), _) => Err(e),
            (Ok(_), Err(e)) => Err(e),
            (Ok(l2), Ok(r2)) => sided(
                l2,
                r2,
                Plan::Cross(Box::new(l2), Box::new(r2)),
                Plan::Cross(Box::new(r2), Box::new(l2)),
                tables,
            ),
        },
        Plan::HashJoin(l, r, a, b) => match (swapped(*l, tables), swapped(*r, tables)) {
            (Err(e), _) => Err(e),
            (Ok(_), Err(e)) => Err(e),
            (Ok(l2), Ok(r2)) => sided(
                l2,
                r2,
                Plan::HashJoin(Box::new(l2), Box::new(r2), a, b),
                Plan::HashJoin(Box::new(r2), Box::new(l2), b, a),
                tables,
            ),
        },
    }
}

fn put_columns(map: &mut Vec<(String, String)>, columns: &Vec<ColumnInfo>)
    ensures
        final(map).deep_view() == old(map).deep_view() + pushdown::keeping(columns.deep_view()),
{
    let ghost start = map.deep_view();
    let ghost all = pushdown::keeping(columns.deep_view());
    let mut i: usize = 0;
    assert(start + all.take(0) =~= start);
    while i < columns.len()
        invariant
            i <= columns@.len(),
            all == pushdown::keeping(columns.deep_view()),
            map.deep_view() == start + all.take(i as int),
        decreases columns@.len() - i,
    {
        let ghost before = map.deep_view();
        let name = &columns[i].name;
        map.push((name.clone(), name.clone()));
        assert(map.deep_view() =~= before.push(all[i as int]));
        assert(start + all.take(i + 1) =~= before.push(all[i as int]));
        i += 1;
    }
    assert(all.take(i as int) =~= all);
}

/// The projection that gives the columns of two inputs in order.
fn keep_order(left: &QueryOp, right: &QueryOp, ctx: &DbContext) -> (res: Result<
    Vec<(String, String)>,
    DbError,
>)
    ensures
        match res {
            Ok(map) => schema::both_schemas(
                schema::plan_schema(left@, ctx@),
                schema::plan_schema(right@, ctx@),
            ) is Ok && map.deep_view() == pushdown::keeping(
                schema::both_schemas(
                    schema::plan_schema(left@, ctx@),
                    schema::plan_schema(right@, ctx@),
                )->Ok_0,
            ),
            Err(e) => schema::both_schemas(
                schema::plan_schema(left@, ctx@),
                schema::plan_schema(right@, ctx@),
            ) == Err::<Seq<Column>, Fault>(e@),
        },
{
    let left_columns = get_schema(left, ctx)?;
    let right_columns = get_schema(right, ctx)?;
    let mut map: Vec<(String, String)> = Vec::new();
    put_columns(&mut map, &left_columns);
    put_columns(&mut map, &right_columns);
    assert(map.deep_view() =~= pushdown::keeping(
        left_columns.deep_view() + right_columns.deep_view(),
    ));
    Ok(map)
}

/// Crosses two inputs, the smaller one on the right.
fn cross_sides(left: QueryOp, right: QueryOp, ctx: &DbContext) -> (res: Result<QueryOp, DbError>)
    ensures
        rewrite::plan_view(res) == sided(
            left@,
            right@,
            Plan::Cross(Box::new(left@), Box::new(right@)),
            Plan::Cross(Box::new(right@), Box::new(left@)),
            ctx@,
        ),
{
    if estimate_cardinality(&left, ctx) < estimate_cardinality(&right, ctx) {
        let column_name_map = keep_order(&left, &right, ctx)?;
        let join = QueryOp::Cross(CrossData { left: Box::new(right), right: Box::new(left) });
        assert(join@ == Plan::Cross(Box::new(right@), Box::new(left@)));
        Ok(QueryOp::Project(ProjectData { column_name_map, underlying: Box::new(join) }))
    } else {
        Ok(QueryOp::Cross(CrossData { left: Box::new(left), right: Box::new(right) }))
    }
}

/// Joins two inputs, the smaller one on the right.
fn join_sides(
    left: QueryOp,
    right: QueryOp,
    left_join_col: String,
    right_join_col: String,
    ctx: &DbContext,
) -> (res: Result<QueryOp, DbError>)
    ensures
        rewrite::plan_view(res) == sided(
            left@,
            right@,
            Plan::HashJoin(Box::new(left@), Box::new(right@), left_join_col@, right_join_col@),
            Plan::HashJoin(Box::new(right@), Box::new(left@), right_join_col@, left_join_col@),
            ctx@,
        ),
{
    if estimate_cardinality(&left, ctx) < estimate_cardinality(&right, ctx) {
        let column_name_map = keep_order(&left, &right, ctx)?;
        let ghost (a, b) = (left_join_col@, right_join_col@);
        let join = QueryOp::HashJoin(
            HashJoinData {
                left: Box::new(right),
                right: Box::new(left),
                left_join_col: right_join_col,
                right_join_col: left_join_col,
            },
        );
        assert(join@ == Plan::HashJoin(Box::new(right@), Box::new(left@), b, a));
        Ok(QueryOp::Project(ProjectData { column_name_map, underlying: Box::new(join) }))
    } else {
        Ok(
            QueryOp::HashJoin(
                HashJoinData {
                    left: Box::new(left),
                    right: Box::new(right),
                    left_join_col,
                    right_join_col,
                },
            ),
        )
    }
}

/// Exchanges the inputs of joins whose left input is the smaller one, by estimate.
pub fn optimize_join_order(op: QueryOp, ctx: &DbContext) -> (res: Result<QueryOp, DbError>)
    ensures
        rewrite::plan_view(res) == swapped(op@, ctx@),
    decreases op,
{
    match op {
        QueryOp::Scan(s) => Ok(QueryOp::Scan(s)),
        QueryOp::Filter(f) => {
            let below = optimize_join_order(*f.underlying, ctx)?;
            Ok(
                QueryOp::Filter(
                    FilterData { predicates: f.predicates, underlying: Box::new(below) },
                ),
            )
        },
        QueryOp::Project(p) => {
            let below = optimize_join_order(*p.underlying, ctx)?;
            Ok(
                QueryOp::Project(
                    ProjectData { column_name_map: p.column_name_map, underlying: Box::new(below) },
                ),
            )
        },
        QueryOp::Sort(s) => {
            let below = optimize_join_order(*s.underlying, ctx)?;
            Ok(
                QueryOp::Sort(SortData { sort_specs: s.sort_specs, underlying: Box::new(below) }),
            )
        },
        QueryOp::Cross(c) => {
            let left = optimize_join_order(*c.left, ctx)?;
            let right = optimize_join_order(*c.right, ctx)?;
            cross_sides(left, right, ctx)
        },
        QueryOp::HashJoin(h) => {
            let left = optimize_join_order(*h.left, ctx)?;
            let right = optimize_join_order(*h.right, ctx)?;
            join_sides(left, right, h.left_join_col, h.right_join_col, ctx)
        },
    }
}

} // verus!
