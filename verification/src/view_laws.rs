//! What the mathematical values of data, plans and tables hold: each part of what they stand for,
//! under its own name.

use vstd::prelude::*;
use vstd::string::*;

use crate::block;
use crate::error::{DbError, Fault};
use crate::ops::sort;
use crate::optimizer::rewrite;
use crate::query::{
    ColumnSpec, ColumnStat, ComparisionValue, Operand, Plan, Predicate, QueryOp, RangeStat,
    SortSpec, Stat, TableSpec,
};
use crate::row;
use crate::schema::ColumnInfo;
use crate::schema;
use crate::value::{Data, Val};

verus! {

/// A value stands for its number, its pattern or its characters, of its own type. So values that
/// stand for the same are the same, up to how a text is held.
pub proof fn values_stand_for_what_they_hold(v: Data, w: ComparisionValue)
    ensures
        match v {
            Data::Int32(x) => v.deep_view() == Val::Int32(x),
            Data::Int64(x) => v.deep_view() == Val::Int64(x),
            Data::Float32(x) => v.deep_view() == Val::Float32(x),
            Data::Float64(x) => v.deep_view() == Val::Float64(x),
            Data::String(s) => v.deep_view() == Val::Text(s@),
        },
        match w {
            ComparisionValue::Column(s) => w.deep_view() == Operand::Column(s@),
            ComparisionValue::I32(x) => w.deep_view() == Operand::I32(x),
            ComparisionValue::I64(x) => w.deep_view() == Operand::I64(x),
            ComparisionValue::F32(x) => w.deep_view() == Operand::F32(x),
            ComparisionValue::F64(x) => w.deep_view() == Operand::F64(x),
            ComparisionValue::String(s) => w.deep_view() == Operand::Text(s@),
        },
{
}

/// Predicates, sort keys and columns stand for their names, operators, directions and types.
pub proof fn parts_of_a_plan_stand_for_what_they_name(p: Predicate, s: SortSpec, c: ColumnInfo)
    ensures
        p.deep_view().column == p.column_name@,
        p.deep_view().operator == p.operator,
        p.deep_view().value == p.value.deep_view(),
        s.deep_view().column == s.column_name@,
        s.deep_view().ascending == s.ascending,
        c.deep_view().name == c.name@,
        c.deep_view().data_type == c.data_type,
{
}

/// A plan stands for its operators from the root down, each with what it names and with its inputs
/// in their places.
pub proof fn a_plan_stands_for_its_operators(op: QueryOp)
    ensures
        match op {
            QueryOp::Scan(s) => op@ == Plan::Scan(s.table_id@),
            QueryOp::Filter(f) => op@ matches Plan::Filter(tests, child) && tests
                == f.predicates.deep_view() && *child == f.underlying@,
            QueryOp::Project(p) => op@ matches Plan::Project(map, child) && map
                == p.column_name_map.deep_view() && *child == p.underlying@,
            QueryOp::Cross(c) => op@ matches Plan::Cross(l, r) && *l == c.left@ && *r == c.right@,
            QueryOp::HashJoin(h) => op@ matches Plan::HashJoin(l, r, a, b) && *l == h.left@ && *r
                == h.right@ && a == h.left_join_col@ && b == h.right_join_col@,
            QueryOp::Sort(s) => op@ matches Plan::Sort(keys, child) && keys
                == s.sort_specs.deep_view() && *child == s.underlying@,
        },
{
}

/// A table stands for its id and its columns, and these for their names, types and statistics.
pub proof fn tables_stand_for_what_is_known_of_them(
    t: TableSpec,
    c: ColumnSpec,
    s: ColumnStat,
    r: RangeStat,
)
    ensures
        t.deep_view().file_id == t.file_id@,
        t.deep_view().columns == t.column_specs.deep_view(),
        c.deep_view().name == c.column_name@,
        c.deep_view().data_type == c.data_type,
        c.stats is None <==> c.deep_view().stats is None,
        c.stats matches Some(all) ==> c.deep_view().stats == Some(all.deep_view()),
        match s {
            ColumnStat::CardinalityStat(n) => s.deep_view() == Stat::Cardinality(n),
            ColumnStat::DensityStat(d) => s.deep_view() == Stat::Density(d),
            ColumnStat::RangeStat(x) => s.deep_view() == Stat::Range(x.deep_view()),
            ColumnStat::HistogramStat(h) => s.deep_view() == Stat::Histogram(h.deep_view()),
            ColumnStat::IsPhysicallyOrdered => s.deep_view() == Stat::PhysicallyOrdered,
        },
        r.deep_view().lower == r.lower_bound.deep_view(),
        r.deep_view().upper == r.upper_bound.deep_view(),
{
}

/// An error stands for what went wrong, with the name that it is about.
pub proof fn errors_stand_for_what_went_wrong(e: DbError)
    ensures
        match e {
            DbError::TableNotFound(s) => e@ == Fault::TableNotFound(s@),
            DbError::ScanTable(s) => e@ == Fault::ScanTable(s@),
            DbError::ProjectColumn(s) => e@ == Fault::ProjectColumn(s@),
            DbError::FilteredProjectColumn(s) => e@ == Fault::FilteredProjectColumn(s@),
            DbError::FilterColumn(s) => e@ == Fault::FilterColumn(s@),
            DbError::FilterRhsColumn(s) => e@ == Fault::FilterRhsColumn(s@),
            DbError::FilterCoercion(s) => e@ == Fault::FilterCoercion(s@),
            DbError::PairColumn(s) => e@ == Fault::PairColumn(s@),
            DbError::SortColumn(s) => e@ == Fault::SortColumn(s@),
            DbError::LeftJoinColumn(s) => e@ == Fault::LeftJoinColumn(s@),
            DbError::RightJoinColumn(s) => e@ == Fault::RightJoinColumn(s@),
            DbError::MissingTerminator => e@ == Fault::MissingTerminator,
            DbError::InvalidUtf8 => e@ == Fault::InvalidUtf8,
            DbError::Truncated => e@ == Fault::Truncated,
            DbError::InvalidNumber => e@ == Fault::InvalidNumber,
        },
{
}

/// What an operation gives stands for a success where it is one, with what it holds, and for its
/// error where it is none.
pub proof fn outcomes_stand_for_what_they_hold(
    passes: bool,
    op: QueryOp,
    columns: Vec<ColumnInfo>,
    rows: Vec<Vec<Data>>,
    r: Vec<Data>,
    end: usize,
    e: DbError,
)
    ensures
        row::outcome_view(Ok(passes)) == Ok::<bool, Fault>(passes),
        row::outcome_view(Err(e)) == Err::<bool, Fault>(e@),
        rewrite::plan_view(Ok(op)) == Ok::<Plan, Fault>(op@),
        rewrite::plan_view(Err(e)) == Err::<Plan, Fault>(e@),
        schema::schema_view(Ok(columns)) is Ok,
        schema::schema_view(Ok(columns))->Ok_0 == columns.deep_view(),
        schema::schema_view(Err(e)) matches Err(f) && f == e@,
        block::rows_view(Ok(rows)) is Ok,
        block::rows_view(Ok(rows))->Ok_0 == rows.deep_view(),
        block::rows_view(Err(e)) matches Err(f) && f == e@,
        row::decoded_view(Ok((r, end))) is Ok,
        row::decoded_view(Ok((r, end)))->Ok_0 == (r.deep_view(), end as int),
        row::decoded_view(Err(e)) matches Err(f) && f == e@,
{
}

/// Sort keys stand for their positions and directions, in their order.
pub proof fn keys_stand_for_positions_and_directions(keys: Seq<(usize, bool)>, i: int)
    requires
        0 <= i < keys.len(),
    ensures
        sort::keys_view(keys).len() == keys.len(),
        sort::keys_view(keys)[i].0 == keys[i].0,
        sort::keys_view(keys)[i].1 == keys[i].1,
{
}

} // verus!
