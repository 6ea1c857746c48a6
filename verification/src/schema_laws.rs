//! What columns the rows of a plan have, and how tables and columns are found.

use vstd::prelude::*;

use crate::error::Fault;
use crate::query::{Plan, Table, TableColumn};
use crate::query;
use crate::row_laws;
use crate::schema::Column;
use crate::schema;
use crate::seqs;

verus! {

/// A table is found by its id where there is one, and the first one of the id is found.
pub proof fn the_first_table_of_an_id_is_found(tables: Seq<Table>, id: Seq<char>, i: int)
    ensures
        query::table_index(tables, id) == Some(i) <==> 0 <= i < tables.len() && tables[i].file_id == id
            && (forall|j: int| 0 <= j < i ==> (#[trigger] tables[j]).file_id != id),
        query::table_index(tables, id) is None <==> (forall|j: int| 0 <= j < tables.len()
            ==> (#[trigger] tables[j]).file_id != id),
{
    let p = |t: Table| t.file_id == id;
    seqs::lemma_first_where(tables, p);
    match query::table_index(tables, id) {
        Some(k) => {
            assert(tables[k].file_id == id);
            assert forall|j: int| 0 <= j < k implies (#[trigger] tables[j]).file_id != id by {
                assert(!p(tables[j]));
            }
        },
        None => {
            assert forall|j: int| 0 <= j < tables.len() implies (#[trigger] tables[j]).file_id
                != id by {
                assert(!p(tables[j]));
            }
        },
    }
}

/// A column of a table is found by its name where there is one, and the first one of the
/// name is found.
pub proof fn the_first_column_of_a_table_is_found(
    columns: Seq<TableColumn>,
    name: Seq<char>,
    i: int,
)
    ensures
        query::spec_index(columns, name) == Some(i) <==> 0 <= i < columns.len() && columns[i].name
            == name && (forall|j: int| 0 <= j < i ==> (#[trigger] columns[j]).name != name),
        query::spec_index(columns, name) is None <==> (forall|j: int| 0 <= j < columns.len()
            ==> (#[trigger] columns[j]).name != name),
{
    let p = |c: TableColumn| c.name == name;
    seqs::lemma_first_where(columns, p);
    match query::spec_index(columns, name) {
        Some(k) => {
            assert(columns[k].name == name);
            assert forall|j: int| 0 <= j < k implies (#[trigger] columns[j]).name != name by {
                assert(!p(columns[j]));
            }
        },
        None => {
            assert forall|j: int| 0 <= j < columns.len() implies (#[trigger] columns[j]).name
                != name by {
                assert(!p(columns[j]));
            }
        },
    }
}

/// A projection gives a column for each of its pairs, in order: under the second name, and
/// of the type of the first input column of the first name.
pub proof fn a_projection_gives_a_column_for_each_pair(
    columns: Seq<Column>,
    map: Seq<(Seq<char>, Seq<char>)>,
    i: int,
    j: int,
)
    requires
        0 <= i < map.len(),
    ensures
        schema::projected_columns(columns, map) matches Ok(out) ==> out.len() == map.len()
            && out[i].name == map[i].1 && (row_laws::is_first(columns, map[i].0, j) ==> out[i].data_type
            == columns[j].data_type),
    decreases map.len(),
{
    let before = map.drop_last();
    row_laws::the_first_column_of_a_name_is_found(columns, map[i].0, j);
    if i < before.len() {
        a_projection_gives_a_column_for_each_pair(columns, before, i, j);
        assert(before[i] == map[i]);
        assert(before.len() == map.len() - 1);
    } else {
        assert(map.last() == map[i]);
        if before.len() > 0 {
            a_projection_gives_a_column_for_each_pair(columns, before, 0, j);
        }
    }
}

/// A projection fails where one of its columns is not there, and names the first such.
pub proof fn a_projection_needs_its_columns(columns: Seq<Column>, map: Seq<(Seq<char>, Seq<char>)>)
    ensures
        schema::projected_columns(columns, map) is Ok <==> (forall|i: int| 0 <= i < map.len()
            ==> exists|j: int|
            0 <= j < columns.len() && (#[trigger] columns[j]).name == (#[trigger] map[i]).0),
        schema::projected_columns(columns, map) matches Err(e) ==> exists|i: int|
            {
                &&& 0 <= i < map.len()
                &&& e == Fault::ProjectColumn((#[trigger] map[i]).0)
                &&& schema::column_index(columns, map[i].0) is None
                &&& forall|j: int|
                    0 <= j < i ==> schema::column_index(columns, (#[trigger] map[j]).0) is Some
            },
    decreases map.len(),
{
    if map.len() > 0 {
        let before = map.drop_last();
        let n = map.len() - 1;
        a_projection_needs_its_columns(columns, before);
        row_laws::the_first_column_of_a_name_is_found(columns, map[n].0, 0);
        assert forall|i: int| 0 <= i < n implies #[trigger] before[i] == map[i] by {}
        if schema::projected_columns(columns, before) is Ok {
            assert forall|i: int| 0 <= i < n implies schema::column_index(
                columns,
                (#[trigger] map[i]).0,
            ) is Some by {
                row_laws::the_first_column_of_a_name_is_found(columns, map[i].0, 0);
                assert(before[i] == map[i]);
            }
            if schema::column_index(columns, map[n].0) is Some {
                assert forall|i: int| 0 <= i < map.len() implies exists|j: int|
                    0 <= j < columns.len() && (#[trigger] columns[j]).name == (
                    #[trigger] map[i]).0 by {
                    row_laws::the_first_column_of_a_name_is_found(columns, map[i].0, 0);
                    if i < n {
                        assert(before[i] == map[i]);
                    }
                }
            }
        } else {
            let e = schema::projected_columns(columns, before)->Err_0;
            let i = choose|i: int|
                {
                    &&& 0 <= i < before.len()
                    &&& e == Fault::ProjectColumn((#[trigger] before[i]).0)
                    &&& schema::column_index(columns, before[i].0) is None
                    &&& forall|j: int|
                        0 <= j < i ==> schema::column_index(columns, (#[trigger] before[j]).0) is Some
                };
            assert(before[i] == map[i]);
            row_laws::the_first_column_of_a_name_is_found(columns, map[i].0, 0);
            assert forall|j: int| 0 <= j < i implies schema::column_index(
                columns,
                (#[trigger] map[j]).0,
            ) is Some by {
                assert(before[j] == map[j]);
            }
        }
    }
}

/// A scan has the columns of the first table of its id, with their names and types. Filters
/// and sorts change no column, and joins put the columns of their right input behind those
/// of their left input.
pub proof fn the_columns_of_a_plan_come_from_its_inputs(plan: Plan, tables: Seq<Table>, i: int, k: int)
    ensures
        plan matches Plan::Scan(id) ==> 0 <= i < tables.len() && tables[i].file_id == id && (forall|
            j: int,
        |
            0 <= j < i ==> (#[trigger] tables[j]).file_id != id) ==> (schema::plan_schema(plan, tables)
            matches Ok(c) && c.len() == tables[i].columns.len() && (0 <= k < c.len() ==> c[k].name
            == tables[i].columns[k].name && c[k].data_type == tables[i].columns[k].data_type)),
        plan matches Plan::Scan(id) ==> (forall|j: int| 0 <= j < tables.len() ==> (
        #[trigger] tables[j]).file_id != id) ==> schema::plan_schema(plan, tables) == Err::<
            Seq<Column>,
            Fault,
        >(Fault::TableNotFound(id)),
        plan matches Plan::Filter(_, child) ==> schema::plan_schema(plan, tables)
            == schema::plan_schema(*child, tables),
        plan matches Plan::Sort(_, child) ==> schema::plan_schema(plan, tables)
            == schema::plan_schema(*child, tables),
        plan matches Plan::Cross(l, r) ==> match (
            schema::plan_schema(*l, tables),
            schema::plan_schema(*r, tables),
        ) {
            (Ok(a), Ok(b)) => schema::plan_schema(plan, tables) == Ok::<Seq<Column>, Fault>(a + b),
            (Err(e), _) => schema::plan_schema(plan, tables) == Err::<Seq<Column>, Fault>(e),
            (_, Err(e)) => schema::plan_schema(plan, tables) == Err::<Seq<Column>, Fault>(e),
        },
        plan matches Plan::HashJoin(l, r, _, _) ==> schema::plan_schema(plan, tables)
            == schema::plan_schema(Plan::Cross(l, r), tables),
{
    match plan {
        Plan::Scan(id) => {
            the_first_table_of_an_id_is_found(tables, id, i);
        },
        _ => {},
    }
}

} // verus!
