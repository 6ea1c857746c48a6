//! Estimates of the number of rows that a plan gives.

use vstd::prelude::*;

use crate::float::{
    f64_div, f64_from_f32, f64_from_i64, f64_from_u64, f64_lt, f64_max, f64_mul, f64_sub, f64_to_u64,
};
use crate::float;
use crate::query::{
    ColumnStat, ComparisionOperator, ComparisionValue, DbContext, Operand, Plan, Predicate,
    QueryOp, Range, RangeStat, Stat, Table, TableSpec, Test,
};
use crate::query;
use crate::value::{Data, Val};
use crate::value;

verus! {

/// The binary64 pattern of 0.
pub const ZERO: u64 = 0;

/// The binary64 pattern of 1.
pub const ONE: u64 = 0x3ff0_0000_0000_0000;

/// The binary64 pattern of 0.1: the share of rows that a test keeps, where nothing is
/// known of it.
pub const TENTH: u64 = 0x3fb9_9999_9999_999a;

/// The number of rows of a table of which nothing is known.
pub const UNKNOWN_ROWS: usize = 1000;

// ---- selectivity ----

/// The last density among statistics.
pub open spec fn density_of(stats: Seq<Stat>) -> Option<u32>
    decreases stats.len(),
{
    if stats.len() == 0 {
        None
    } else {
        match stats.last() {
            Stat::Density(d) => Some(d),
            _ => density_of(stats.drop_last()),
        }
    }
}

/// The last range among statistics.
pub open spec fn range_of(stats: Seq<Stat>) -> Option<Range>
    decreases stats.len(),
{
    if stats.len() == 0 {
        None
    } else {
        match stats.last() {
            Stat::Range(r) => Some(r),
            _ => range_of(stats.drop_last()),
        }
    }
}

/// The last cardinality among statistics.
pub open spec fn cardinality_of(stats: Seq<Stat>) -> Option<u64>
    decreases stats.len(),
{
    if stats.len() == 0 {
        None
    } else {
        match stats.last() {
            Stat::Cardinality(c) => Some(c),
            _ => cardinality_of(stats.drop_last()),
        }
    }
}

/// A value as a binary64 number, if it is a number.
pub open spec fn number_of(v: Val) -> Option<u64> {
    match v {
        Val::Int32(x) => Some(float::int_to_f64(x as int)),
        Val::Int64(x) => Some(float::int_to_f64(x as int)),
        Val::Float32(x) => Some(float::f32_to_f64(x)),
        Val::Float64(x) => Some(x),
        Val::Text(_) => None,
    }
}

/// A literal as a binary64 number, if it is a number.
pub open spec fn operand_number(v: Operand) -> Option<u64> {
    match v {
        Operand::I32(x) => Some(float::int_to_f64(x as int)),
        Operand::I64(x) => Some(float::int_to_f64(x as int)),
        Operand::F32(x) => Some(float::f32_to_f64(x)),
        Operand::F64(x) => Some(x),
        _ => None,
    }
}

/// A number held between 0 and 1.
pub open spec fn clamped(x: u64) -> u64 {
    if float::f64_less(x, ZERO) {
        ZERO
    } else if float::f64_less(ONE, x) {
        ONE
    } else {
        x
    }
}

/// Where a literal lies in a range: 0 at its lower end, 1 at its upper end.
pub open spec fn fraction(lower: u64, upper: u64, v: u64) -> u64 {
    clamped(
        float::f64_quotient(float::f64_difference(v, lower), float::f64_difference(upper, lower)),
    )
}

/// The share of rows that a test keeps, by the range of its column.
pub open spec fn range_share(r: Range, test: Test) -> u64 {
    match (number_of(r.lower), number_of(r.upper), operand_number(test.value)) {
        (Some(lower), Some(upper), Some(v)) => if float::f64_less(lower, upper) {
            match test.operator {
                ComparisionOperator::LT | ComparisionOperator::LTE => fraction(lower, upper, v),
                ComparisionOperator::GT | ComparisionOperator::GTE => float::f64_difference(
                    ONE,
                    fraction(lower, upper, v),
                ),
                _ => TENTH,
            }
        } else {
            TENTH
        },
        _ => TENTH,
    }
}

/// The share of rows that a test keeps, by the statistics of its column.
pub open spec fn stats_share(stats: Seq<Stat>, test: Test) -> u64 {
    if test.operator == ComparisionOperator::EQ && density_of(stats) is Some {
        float::f32_to_f64(density_of(stats)->Some_0)
    } else {
        match range_of(stats) {
            Some(r) => range_share(r, test),
            None => TENTH,
        }
    }
}

/// The plan below filters.
pub open spec fn below_filters(plan: Plan) -> Plan
    decreases plan,
{
    match plan {
        Plan::Filter(_, child) => below_filters(*child),
        other => other,
    }
}

/// The share of rows of a plan that a test keeps: where the plan is a filtered scan, by
/// the statistics of the column.
pub open spec fn selectivity(test: Test, plan: Plan, tables: Seq<Table>) -> u64 {
    match below_filters(plan) {
        Plan::Scan(id) => match query::table_index(tables, id) {
            None => TENTH,
            Some(i) => match query::spec_index(tables[i].columns, test.column) {
                None => TENTH,
                Some(k) => match tables[i].columns[k].stats {
                    None => TENTH,
                    Some(stats) => stats_share(stats, test),
                },
            },
        },
        _ => TENTH,
    }
}

fn last_density(stats: &Vec<ColumnStat>) -> (res: Option<u32>)
    ensures
        res == density_of(stats.deep_view()),
{
    let ghost s = stats.deep_view();
    let mut i: usize = stats.len();
    assert(s.take(i as int) =~= s);
    while i > 0
        invariant
            i <= stats@.len(),
            s == stats.deep_view(),
            density_of(s) == density_of(s.take(i as int)),
        decreases i,
    {
        i -= 1;
        assert(s.take(i + 1).drop_last() =~= s.take(i as int));
        assert(s.take(i + 1).last() == stats@[i as int].deep_view());
        match &stats[i] {
            ColumnStat::DensityStat(d) => {
                return Some(*d);
            },
            _ => {},
        }
    }
    None
}

fn last_cardinality(stats: &Vec<ColumnStat>) -> (res: Option<u64>)
    ensures
        res == cardinality_of(stats.deep_view()),
{
    let ghost s = stats.deep_view();
    let mut i: usize = stats.len();
    assert(s.take(i as int) =~= s);
    while i > 0
        invariant
            i <= stats@.len(),
            s == stats.deep_view(),
            cardinality_of(s) == cardinality_of(s.take(i as int)),
        decreases i,
    {
        i -= 1;
        assert(s.take(i + 1).drop_last() =~= s.take(i as int));
        assert(s.take(i + 1).last() == stats@[i as int].deep_view());
        match &stats[i] {
            ColumnStat::CardinalityStat(c) => {
                return Some(*c);
            },
            _ => {},
        }
    }
    None
}

fn last_range(stats: &Vec<ColumnStat>) -> (res: Option<&RangeStat>)
    ensures
        match res {
            Some(r) => range_of(stats.deep_view()) == Some(r.deep_view()),
            None => range_of(stats.deep_view()) is None,
        },
{
    let ghost s = stats.deep_view();
    let mut i: usize = stats.len();
    assert(s.take(i as int) =~= s);
    while i > 0
        invariant
            i <= stats@.len(),
            s == stats.deep_view(),
            range_of(s) == range_of(s.take(i as int)),
        decreases i,
    {
        i -= 1;
        assert(s.take(i + 1).drop_last() =~= s.take(i as int));
        assert(s.take(i + 1).last() == stats@[i as int].deep_view());
        match &stats[i] {
            ColumnStat::RangeStat(r) => {
                return Some(r);
            },
            _ => {},
        }
    }
    None
}

fn data_number(d: &Data) -> (res: Option<u64>)
    ensures
        res == number_of(d.deep_view()),
{
    match d {
        Data::Int32(v) => Some(f64_from_i64(*v as i64)),
        Data::Int64(v) => Some(f64_from_i64(*v)),
        Data::Float32(v) => Some(f64_from_f32(*v)),
        Data::Float64(v) => Some(*v),
        Data::String(_) => None,
    }
}

fn literal_number(v: &ComparisionValue) -> (res: Option<u64>)
    ensures
        res == operand_number(v.deep_view()),
{
    match v {
        ComparisionValue::I32(x) => Some(f64_from_i64(*x as i64)),
        ComparisionValue::I64(x) => Some(f64_from_i64(*x)),
        ComparisionValue::F32(x) => Some(f64_from_f32(*x)),
        ComparisionValue::F64(x) => Some(*x),
        _ => None,
    }
}

fn share_of_range(r: &RangeStat, pred: &Predicate) -> (res: u64)
    ensures
        res == range_share(r.deep_view(), pred.deep_view()),
{
    let lower: u64 = match data_number(&r.lower_bound) {
        Some(x) => x,
        None => {
            return TENTH;
        },
    };
    let upper: u64 = match data_number(&r.upper_bound) {
        Some(x) => x,
        None => {
            return TENTH;
        },
    };
    let v: u64 = match literal_number(&pred.value) {
        Some(x) => x,
        None => {
            return TENTH;
        },
    };
    if !f64_lt(lower, upper) {
        return TENTH;
    }
    let x: u64 = f64_div(f64_sub(v, lower), f64_sub(upper, lower));
    let share: u64 = if f64_lt(x, ZERO) {
        ZERO
    } else if f64_lt(ONE, x) {
        ONE
    } else {
        x
    };
    match pred.operator {
        ComparisionOperator::LT | ComparisionOperator::LTE => share,
        ComparisionOperator::GT | ComparisionOperator::GTE => f64_sub(ONE, share),
        _ => TENTH,
    }
}

fn share_of_stats(stats: &Vec<ColumnStat>, pred: &Predicate) -> (res: u64)
    ensures
        res == stats_share(stats.deep_view(), pred.deep_view()),
{
    if matches!(pred.operator, ComparisionOperator::EQ) {
        match last_density(stats) {
            Some(d) => {
                return f64_from_f32(d);
            },
            None => {},
        }
    }
    match last_range(stats) {
        Some(r) => share_of_range(r, pred),
        None => TENTH,
    }
}

/// Estimates the share of the rows of a plan that a predicate keeps.
pub fn estimate_selectivity(pred: &Predicate, op: &QueryOp, ctx: &DbContext) -> (res: u64)
    ensures
        res == selectivity(pred.deep_view(), op.plan(), ctx@),
    decreases op,
{
    match op {
        QueryOp::Filter(f) => estimate_selectivity(pred, &f.underlying, ctx),
        QueryOp::Scan(s) => match ctx.find_table(&s.table_id) {
            None => TENTH,
            Some(i) => {
                let table = &ctx.table_specs[i];
                assert(ctx@[i as int] == table.deep_view());
                match table.find_spec(&pred.column_name) {
                    None => TENTH,
                    Some(k) => {
                        let spec = &table.column_specs[k];
                        assert(table.deep_view().columns[k as int] == spec.deep_view());
                        match &spec.stats {
                            None => TENTH,
                            Some(stats) => share_of_stats(stats, pred),
                        }
                    },
                }
            },
        },
        _ => TENTH,
    }
}

// ---- cardinality ----

/// A number, held at the greatest `usize`.
pub open spec fn as_count(n: u64) -> usize {
    if n <= usize::MAX {
        n as usize
    } else {
        usize::MAX
    }
}

/// The number of rows of a table: its cardinality over its density, or its cardinality,
/// by the statistics of its first column.
pub open spec fn table_rows_estimate(t: Table) -> usize {
    if t.columns.len() == 0 {
        UNKNOWN_ROWS
    } else {
        match t.columns[0].stats {
            None => UNKNOWN_ROWS,
            Some(stats) => match cardinality_of(stats) {
                None => UNKNOWN_ROWS,
                Some(c) => match density_of(stats) {
                    Some(d) => if !value::f32_is_nan(d) && value::f32_rank(d) > 0 {
                        as_count(
                            float::f64_floor(
                                float::f64_quotient(
                                    float::int_to_f64(c as int),
                                    float::f32_to_f64(d),
                                ),
                            ),
                        )
                    } else {
                        c as usize
                    },
                    None => c as usize,
                },
            },
        }
    }
}

/// The share of rows that tests keep together. A comparison of two columns counts as a
/// tenth.
pub open spec fn tests_share(tests: Seq<Test>, plan: Plan, tables: Seq<Table>) -> u64
    decreases tests.len(),
{
    if tests.len() == 0 {
        ONE
    } else {
        let test = tests.last();
        float::f64_product(
            tests_share(tests.drop_last(), plan, tables),
            match test.value {
                Operand::Column(_) => TENTH,
                _ => selectivity(test, plan, tables),
            },
        )
    }
}

/// The number of rows that a plan gives, by estimate. That of a cross join counts modulo
/// the range of `usize`.
pub open spec fn cardinality(plan: Plan, tables: Seq<Table>) -> usize
    decreases plan,
{
    match plan {
        Plan::Scan(id) => match query::table_index(tables, id) {
            None => UNKNOWN_ROWS,
            Some(i) => table_rows_estimate(tables[i]),
        },
        Plan::Filter(tests, child) => as_count(
            float::f64_floor(
                float::f64_greater(
                    float::f64_product(
                        float::int_to_f64(cardinality(*child, tables) as int),
                        tests_share(tests, *child, tables),
                    ),
                    ONE,
                ),
            ),
        ),
        Plan::Sort(_, child) => cardinality(*child, tables),
        Plan::Project(_, child) => cardinality(*child, tables),
        Plan::Cross(l, r) => cardinality(*l, tables).wrapping_mul(cardinality(*r, tables)),
        Plan::HashJoin(l, r, _, _) => if cardinality(*l, tables) < cardinality(*r, tables) {
            cardinality(*r, tables)
        } else {
            cardinality(*l, tables)
        },
    }
}

fn to_count(n: u64) -> (res: usize)
    ensures
        res == as_count(n),
{
    if n <= usize::MAX as u64 {
        n as usize
    } else {
        usize::MAX
    }
}

fn estimate_table(table: &TableSpec) -> (res: usize)
    ensures
        res == table_rows_estimate(table.deep_view()),
{
    assert(table.deep_view().columns.len() == table.column_specs@.len());
    if table.column_specs.len() == 0 {
        return UNKNOWN_ROWS;
    }
    let spec = &table.column_specs[0];
    assert(table.deep_view().columns[0] == spec.deep_view());
    match &spec.stats {
        None => UNKNOWN_ROWS,
        Some(stats) => match last_cardinality(stats) {
            None => UNKNOWN_ROWS,
            Some(c) => match last_density(stats) {
                Some(d) => {
                    if 0 < d && d <= value::F32_INF {
                        to_count(f64_to_u64(f64_div(f64_from_u64(c), f64_from_f32(d))))
                    } else {
                        c as usize
                    }
                },
                None => c as usize,
            },
        },
    }
}

/// Estimates the share of rows that predicates keep together.
fn estimate_share(predicates: &Vec<Predicate>, op: &QueryOp, ctx: &DbContext) -> (res: u64)
    ensures
        res == tests_share(predicates.deep_view(), op.plan(), ctx@),
{
    let ghost t = predicates.deep_view();
    let mut share: u64 = ONE;
    let mut i: usize = 0;
    assert(t.take(0) =~= Seq::empty());
    while i < predicates.len()
        invariant
            i <= predicates@.len(),
            t == predicates.deep_view(),
            share == tests_share(t.take(i as int), op.plan(), ctx@),
        decreases predicates@.len() - i,
    {
        assert(t.take(i + 1).drop_last() =~= t.take(i as int));
        assert(t.take(i + 1).last() == predicates@[i as int].deep_view());
        let one: u64 = match &predicates[i].value {
            ComparisionValue::Column(_) => TENTH,
            _ => estimate_selectivity(&predicates[i], op, ctx),
        };
        share = f64_mul(share, one);
        i += 1;
    }
    assert(t.take(i as int) =~= t);
    share
}

/// Estimates the number of rows that a plan gives.
pub fn estimate_cardinality(op: &QueryOp, ctx: &DbContext) -> (res: usize)
    ensures
        res == cardinality(op.plan(), ctx@),
    decreases op,
{
    match op {
        QueryOp::Scan(s) => match ctx.find_table(&s.table_id) {
            None => UNKNOWN_ROWS,
            Some(i) => {
                assert(ctx@[i as int] == ctx.table_specs@[i as int].deep_view());
                estimate_table(&ctx.table_specs[i])
            },
        },
        QueryOp::Filter(f) => {
            let base: u64 = f64_from_u64(estimate_cardinality(&f.underlying, ctx) as u64);
            let share: u64 = estimate_share(&f.predicates, &f.underlying, ctx);
            to_count(f64_to_u64(f64_max(f64_mul(base, share), ONE)))
        },
        QueryOp::Sort(s) => estimate_cardinality(&s.underlying, ctx),
        QueryOp::Project(p) => estimate_cardinality(&p.underlying, ctx),
        QueryOp::Cross(c) => estimate_cardinality(&c.left, ctx).wrapping_mul(
            estimate_cardinality(&c.right, ctx),
        ),
        QueryOp::HashJoin(h) => {
            let l: usize = estimate_cardinality(&h.left, ctx);
            let r: usize = estimate_cardinality(&h.right, ctx);
            if l < r {
                r
            } else {
                l
            }
        },
    }
}

} // verus!
