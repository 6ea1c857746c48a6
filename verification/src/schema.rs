//! Output schemas of query plans.

use vstd::prelude::*;

use crate::error::{DbError, Fault};
use crate::query::{DbContext, Plan, QueryOp, Table, TableColumn, TableSpec};
use crate::query;
use crate::seqs;
use crate::value::DataType;

verus! {

/// A named, typed column of a row.
#[derive(Debug)]
pub struct ColumnInfo {
    pub name: String,
    pub data_type: DataType,
}

/// The mathematical value of a [`ColumnInfo`].
pub struct Column {
    pub name: Seq<char>,
    pub data_type: DataType,
}

impl DeepView for ColumnInfo {
    type V = Column;

    open spec fn deep_view(&self) -> Column {
        Column { name: self.name@, data_type: self.data_type }
    }
}

impl Clone for ColumnInfo {
    fn clone(&self) -> (res: ColumnInfo)
        ensures
            res == *self,
    {
        ColumnInfo { name: self.name.clone(), data_type: self.data_type }
    }
}

/// Copies columns.
pub fn copy_columns(columns: &Vec<ColumnInfo>) -> (res: Vec<ColumnInfo>)
    ensures
        res@ == columns@,
{
    let mut out: Vec<ColumnInfo> = Vec::new();
    let mut i: usize = 0;
    while i < columns.len()
        invariant
            i <= columns@.len(),
            out@ == columns@.take(i as int),
        decreases columns@.len() - i,
    {
        out.push(columns[i].clone());
        assert(out@ =~= columns@.take(i + 1));
        i += 1;
    }
    assert(out@ =~= columns@);
    out
}

/// The position of the first column of this name.
pub open spec fn column_index(columns: Seq<Column>, name: Seq<char>) -> Option<int> {
    seqs::first_where(columns, |c: Column| c.name == name)
}

/// The columns of a table.
pub open spec fn table_columns(t: Table) -> Seq<Column> {
    t.columns.map_values(|c: TableColumn| Column { name: c.name, data_type: c.data_type })
}

/// The columns that a projection gives: for each pair the input column of the
/// first name, under the second name.
pub open spec fn projected_columns(
    columns: Seq<Column>,
    map: Seq<(Seq<char>, Seq<char>)>,
) -> Result<Seq<Column>, Fault>
    decreases map.len(),
{
    if map.len() == 0 {
        Ok(Seq::empty())
    } else {
        match projected_columns(columns, map.drop_last()) {
            Err(e) => Err(e),
            Ok(before) => match column_index(columns, map.last().0) {
                None => Err(Fault::ProjectColumn(map.last().0)),
                Some(i) => Ok(
                    before.push(Column { name: map.last().1, data_type: columns[i].data_type }),
                ),
            },
        }
    }
}

/// The columns of the rows that a plan gives.
pub open spec fn plan_schema(plan: Plan, tables: Seq<Table>) -> Result<Seq<Column>, Fault>
    decreases plan,
{
    match plan {
        Plan::Scan(id) => match query::table_index(tables, id) {
            None => Err(Fault::TableNotFound(id)),
            Some(i) => Ok(table_columns(tables[i])),
        },
        Plan::Filter(_, child) => plan_schema(*child, tables),
        Plan::Sort(_, child) => plan_schema(*child, tables),
        Plan::Project(map, child) => match plan_schema(*child, tables) {
            Err(e) => Err(e),
            Ok(columns) => projected_columns(columns, map),
        },
        Plan::Cross(l, r) => both_schemas(plan_schema(*l, tables), plan_schema(*r, tables)),
        Plan::HashJoin(l, r, _, _) => both_schemas(
            plan_schema(*l, tables),
            plan_schema(*r, tables),
        ),
    }
}

/// The columns of two inputs, one behind the other.
pub open spec fn both_schemas(
    left: Result<Seq<Column>, Fault>,
    right: Result<Seq<Column>, Fault>,
) -> Result<Seq<Column>, Fault> {
    match (left, right) {
        (Err(e), _) => Err(e),
        (Ok(_), Err(e)) => Err(e),
        (Ok(l), Ok(r)) => Ok(l + r),
    }
}

/// The mathematical value of a computed schema.
pub open spec fn schema_view(res: Result<Vec<ColumnInfo>, DbError>) -> Result<Seq<Column>, Fault> {
    match res {
        Ok(v) => Ok(v.deep_view()),
        Err(e) => Err(e@),
    }
}

/// Finds the first column of this name.
pub fn find_column(columns: &Vec<ColumnInfo>, name: &String) -> (res: Option<usize>)
    ensures
        match res {
            Some(i) => column_index(columns.deep_view(), name@) == Some(i as int) && i
                < columns@.len(),
            None => column_index(columns.deep_view(), name@) is None,
        },
{
    let ghost p = |c: Column| c.name == name@;
    let mut i: usize = 0;
    while i < columns.len()
        invariant
            i <= columns@.len(),
            p == (|c: Column| c.name == name@),
            forall|j: int| 0 <= j < i ==> !p(#[trigger] columns.deep_view()[j]),
        decreases columns@.len() - i,
    {
        if columns[i].name == *name {
            proof {
                seqs::lemma_first_where_is(columns.deep_view(), p, i as int);
            }
            return Some(i);
        }
        i += 1;
    }
    proof {
        seqs::lemma_first_where_none(columns.deep_view(), p);
    }
    None
}

/// The columns of a table, without their statistics.
pub fn columns_of(table: &TableSpec) -> (res: Vec<ColumnInfo>)
    ensures
        res.deep_view() == table_columns(table.deep_view()),
{
    let mut res: Vec<ColumnInfo> = Vec::new();
    let mut i: usize = 0;
    while i < table.column_specs.len()
        invariant
            i <= table.column_specs@.len(),
            res@.len() == i,
            forall|j: int|
                0 <= j < i ==> (#[trigger] res@[j]).deep_view() == table_columns(
                    table.deep_view(),
                )[j],
        decreases table.column_specs@.len() - i,
    {
        let c = &table.column_specs[i];
        res.push(ColumnInfo { name: c.column_name.clone(), data_type: c.data_type });
        i += 1;
    }
    assert(res.deep_view() =~= table_columns(table.deep_view()));
    res
}

/// The columns that a projection gives.
pub fn project_columns(columns: &Vec<ColumnInfo>, map: &Vec<(String, String)>) -> (res: Result<
    Vec<ColumnInfo>,
    DbError,
>)
    ensures
        schema_view(res) == projected_columns(columns.deep_view(), map.deep_view()),
{
    let mut res: Vec<ColumnInfo> = Vec::new();
    let mut i: usize = 0;
    let ghost m = map.deep_view();
    assert(res.deep_view() =~= Seq::<Column>::empty());
    assert(m.take(0) =~= Seq::empty());
    while i < map.len()
        invariant
            i <= map@.len(),
            m == map.deep_view(),
            projected_columns(columns.deep_view(), m.take(i as int)) == Ok::<_, Fault>(
                res.deep_view(),
            ),
        decreases map@.len() - i,
    {
        proof {
            assert(m.take(i + 1).drop_last() =~= m.take(i as int));
            assert(m.take(i + 1).last() == m[i as int]);
        }
        match find_column(columns, &map[i].0) {
            None => {
                proof {
                    lemma_projection_fails(columns.deep_view(), m, i + 1);
                }
                return Err(DbError::ProjectColumn(map[i].0.clone()));
            },
            Some(k) => {
                let ghost before = res.deep_view();
                res.push(ColumnInfo { name: map[i].1.clone(), data_type: columns[k].data_type });
                assert(res.deep_view() =~= before.push(
                    Column {
                        name: m[i as int].1,
                        data_type: columns.deep_view()[k as int].data_type,
                    },
                ));
            },
        }
        i += 1;
    }
    assert(m.take(i as int) =~= m);
    Ok(res)
}

/// A projection whose first pairs fail, fails in the same way.
proof fn lemma_projection_fails(columns: Seq<Column>, map: Seq<(Seq<char>, Seq<char>)>, n: int)
    requires
        0 <= n <= map.len(),
        projected_columns(columns, map.take(n)) is Err,
    ensures
        projected_columns(columns, map) == projected_columns(columns, map.take(n)),
    decreases map.len() - n,
{
    if n == map.len() {
        assert(map.take(n) =~= map);
    } else {
        assert(map.take(n + 1).drop_last() =~= map.take(n));
        lemma_projection_fails(columns, map, n + 1);
    }
}

/// Computes the output schema of a query plan without executing it.
pub fn get_schema(op: &QueryOp, ctx: &DbContext) -> (res: Result<Vec<ColumnInfo>, DbError>)
    ensures
        schema_view(res) == plan_schema(op@, ctx@),
    decreases op,
{
    match op {
        QueryOp::Scan(scan) => {
            match ctx.find_table(&scan.table_id) {
                None => Err(DbError::TableNotFound(scan.table_id.clone())),
                Some(i) => Ok(columns_of(&ctx.table_specs[i])),
            }
        },
        QueryOp::Filter(f) => get_schema(&f.underlying, ctx),
        QueryOp::Sort(s) => get_schema(&s.underlying, ctx),
        QueryOp::Project(p) => {
            match get_schema(&p.underlying, ctx) {
                Err(e) => Err(e),
                Ok(child) => project_columns(&child, &p.column_name_map),
            }
        },
        QueryOp::Cross(c) => join_columns(get_schema(&c.left, ctx), get_schema(&c.right, ctx)),
        QueryOp::HashJoin(h) => join_columns(get_schema(&h.left, ctx), get_schema(&h.right, ctx)),
    }
}

/// The columns of two inputs, one behind the other.
fn join_columns(
    left: Result<Vec<ColumnInfo>, DbError>,
    right: Result<Vec<ColumnInfo>, DbError>,
) -> (res: Result<Vec<ColumnInfo>, DbError>)
    ensures
        schema_view(res) == both_schemas(schema_view(left), schema_view(right)),
{
    let mut columns = left?;
    let mut more = right?;
    let ghost l = columns.deep_view();
    let ghost r = more.deep_view();
    columns.append(&mut more);
    assert(columns.deep_view() =~= l + r);
    Ok(columns)
}

} // verus!
