//! The optimizer: a plan is rewritten into one that gives the same rows with less work.

use vstd::prelude::*;

use crate::error::{DbError, Fault};
use crate::query::{DbContext, Plan, QueryOp, Table};
use crate::row;

pub mod benchmark;
pub mod choice_laws;
pub mod estimate;
pub mod estimate_laws;
pub mod join_order;
pub mod join_order_laws;
pub mod laws;
pub mod order_laws;
pub mod pushdown;
pub mod pushdown_laws;
pub mod reorder;
pub mod reorder_laws;
pub mod rewrite;
pub mod rewrite_laws;
pub mod shape_laws;
pub mod swap;
pub mod swap_laws;

verus! {

/// The optimized plan: its joins are put in order, its filters moved down, its scans
/// narrowed to the columns that are used, and the sides of its joins exchanged where that
/// helps.
pub open spec fn optimized(plan: Plan, tables: Seq<Table>) -> Result<Plan, Fault> {
    match reorder::reordered(plan, tables) {
        Err(e) => Err(e),
        Ok(p1) => match rewrite::rewritten(p1, tables) {
            Err(e) => Err(e),
            Ok(p2) => match pushdown::pushed(p2, None, tables) {
                Err(e) => Err(e),
                Ok(p3) => swap::swapped(p3, tables),
            },
        },
    }
}

/// Optimizes a plan.
pub fn optimize(op: QueryOp, ctx: &DbContext) -> (res: Result<QueryOp, DbError>)
    requires
        reorder::orderable(op@, ctx@),
    ensures
        rewrite::plan_view(res) == optimized(op@, ctx@),
{
    let ordered = reorder::reorder_joins(op, ctx)?;
    let lowered = rewrite::optimize_rewrites(ordered, ctx)?;
    let narrowed = pushdown::pushdown_projections(lowered, None, ctx)?;
    swap::optimize_join_order(narrowed, ctx)
}

/// How many operators that need much memory are at work at the same time, at most: the
/// joins and sorts on a way from the root of the plan to a scan.
pub open spec fn heavy_depth(plan: Plan) -> nat
    decreases plan,
{
    match plan {
        Plan::Scan(_) => 0,
        Plan::Filter(_, child) => heavy_depth(*child),
        Plan::Project(_, child) => heavy_depth(*child),
        Plan::Sort(_, child) => 1 + heavy_depth(*child),
        Plan::Cross(l, r) => 1 + greater(heavy_depth(*l), heavy_depth(*r)),
        Plan::HashJoin(l, r, _, _) => 1 + greater(heavy_depth(*l), heavy_depth(*r)),
    }
}

/// The greater of two numbers.
pub open spec fn greater(a: nat, b: nat) -> nat {
    if a < b {
        b
    } else {
        a
    }
}

fn max(a: usize, b: usize) -> (res: usize)
    ensures
        res == greater(a as nat, b as nat),
{
    if a < b {
        b
    } else {
        a
    }
}

/// Counts how many operators that need much memory are at work at the same time, at most.
pub fn max_concurrent_heavy_ops(op: &QueryOp) -> (res: usize)
    ensures
        res == row::saturated(heavy_depth(op@)),
    decreases op,
{
    match op {
        QueryOp::Scan(_) => 0,
        QueryOp::Filter(f) => max_concurrent_heavy_ops(&f.underlying),
        QueryOp::Project(p) => max_concurrent_heavy_ops(&p.underlying),
        QueryOp::Sort(s) => max_concurrent_heavy_ops(&s.underlying).saturating_add(1),
        QueryOp::Cross(c) => max(
            max_concurrent_heavy_ops(&c.left),
            max_concurrent_heavy_ops(&c.right),
        ).saturating_add(1),
        QueryOp::HashJoin(h) => max(
            max_concurrent_heavy_ops(&h.left),
            max_concurrent_heavy_ops(&h.right),
        ).saturating_add(1),
    }
}

} // verus!
