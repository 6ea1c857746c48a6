//! Filters: how a filter is carried out, by what stands under it.

use vstd::prelude::*;

use crate::error::{DbError, Fault};
use crate::ops::project::{find_sources, ScanColumns};
use crate::ops::project;
use crate::ops::rows;
use crate::ops::scan;
use crate::ops::scan_laws;
use crate::query::{
    ComparisionValue, DbContext, FilterData, Operand, Plan, Predicate, ProjectData, QueryOp, Table,
    Test,
};
use crate::row;
use crate::schema::{find_column, get_schema, project_columns, Column, ColumnInfo};
use crate::schema;
use crate::seqs;
use crate::value::Val;

verus! {

/// How a filter is carried out.
pub enum FilterPlan {
    /// The scan below tests the rows.
    Scan,
    /// The scan below the projection tests the rows, by the predicates on the columns
    /// of the table, and gives the columns of the projection.
    ProjectedScan { indices: Vec<usize>, columns: ScanColumns, predicates: Vec<Predicate> },
    /// The cross join below tests the pairs of rows.
    Cross,
    /// The filter tests the rows that come from below.
    Stream(Vec<ColumnInfo>),
}

/// The mathematical value of a [`FilterPlan`].
pub enum FilterWay {
    Scan,
    ProjectedScan(Seq<int>, Seq<Test>),
    Cross,
    Stream(Seq<Column>),
}

impl View for FilterPlan {
    type V = FilterWay;

    open spec fn view(&self) -> FilterWay {
        match *self {
            FilterPlan::Scan => FilterWay::Scan,
            FilterPlan::ProjectedScan { indices, columns, predicates } => FilterWay::ProjectedScan(
                rows::positions(indices@),
                predicates.deep_view(),
            ),
            FilterPlan::Cross => FilterWay::Cross,
            FilterPlan::Stream(c) => FilterWay::Stream(c.deep_view()),
        }
    }
}

/// Whether a test names only these columns.
pub open spec fn test_within(test: Test, columns: Seq<Column>) -> bool {
    &&& schema::column_index(columns, test.column) is Some
    &&& test.value matches Operand::Column(other) ==> schema::column_index(columns, other) is Some
}

/// Whether all tests name only these columns.
pub open spec fn tests_within(tests: Seq<Test>, columns: Seq<Column>) -> bool {
    forall|i: int| 0 <= i < tests.len() ==> test_within(#[trigger] tests[i], columns)
}

/// The name that a column of a projection has in the table.
pub open spec fn table_name(
    name: Seq<char>,
    given: Seq<Column>,
    at: Seq<int>,
    columns: Seq<Column>,
) -> Seq<char> {
    match schema::column_index(given, name) {
        Some(k) => columns[at[k]].name,
        None => name,
    }
}

/// A test on columns of a projection, as a test on columns of the table.
pub open spec fn table_test(
    test: Test,
    given: Seq<Column>,
    at: Seq<int>,
    columns: Seq<Column>,
) -> Test {
    Test {
        column: table_name(test.column, given, at, columns),
        operator: test.operator,
        value: match test.value {
            Operand::Column(other) => Operand::Column(table_name(other, given, at, columns)),
            literal => literal,
        },
    }
}

/// Tests on columns of a projection, as tests on columns of the table.
pub open spec fn table_tests(
    tests: Seq<Test>,
    given: Seq<Column>,
    at: Seq<int>,
    columns: Seq<Column>,
) -> Seq<Test> {
    tests.map_values(|t: Test| table_test(t, given, at, columns))
}

/// How a filter over a plan is carried out.
pub open spec fn filter_way(tests: Seq<Test>, below: Plan, tables: Seq<Table>) -> Result<
    FilterWay,
    Fault,
> {
    match below {
        Plan::Scan(_) => Ok(FilterWay::Scan),
        Plan::Cross(_, _) => Ok(FilterWay::Cross),
        Plan::Project(map, inner) => if *inner is Scan {
            match schema::plan_schema(*inner, tables) {
                Err(e) => Err(e),
                Ok(columns) => match project::sources(columns, map) {
                    Err(name) => Err(Fault::FilteredProjectColumn(name)),
                    Ok(at) => {
                        let given = project::renamed(columns, at, map);
                        if tests_within(tests, given) {
                            Ok(
                                FilterWay::ProjectedScan(
                                    at,
                                    table_tests(tests, given, at, columns),
                                ),
                            )
                        } else {
                            Ok(FilterWay::Stream(given))
                        }
                    },
                },
            }
        } else {
            stream_way(below, tables)
        },
        _ => stream_way(below, tables),
    }
}

/// The number of columns below a projection.
pub open spec fn width_below(below: Plan, tables: Seq<Table>) -> int {
    match below {
        Plan::Project(_, inner) => match schema::plan_schema(*inner, tables) {
            Ok(columns) => columns.len() as int,
            Err(_) => 0,
        },
        _ => 0,
    }
}

/// The filter tests the rows of the plan itself.
pub open spec fn stream_way(below: Plan, tables: Seq<Table>) -> Result<FilterWay, Fault> {
    match schema::plan_schema(below, tables) {
        Err(e) => Err(e),
        Ok(columns) => Ok(FilterWay::Stream(columns)),
    }
}

fn predicates_within(predicates: &Vec<Predicate>, columns: &Vec<ColumnInfo>) -> (res: bool)
    ensures
        res == tests_within(predicates.deep_view(), columns.deep_view()),
{
    let ghost (t, c) = (predicates.deep_view(), columns.deep_view());
    let mut i: usize = 0;
    while i < predicates.len()
        invariant
            i <= predicates@.len(),
            t == predicates.deep_view(),
            c == columns.deep_view(),
            forall|j: int| 0 <= j < i ==> test_within(#[trigger] t[j], c),
        decreases predicates@.len() - i,
    {
        assert(t[i as int] == predicates@[i as int].deep_view());
        if find_column(columns, &predicates[i].column_name).is_none() {
            return false;
        }
        match &predicates[i].value {
            ComparisionValue::Column(other) => {
                if find_column(columns, other).is_none() {
                    return false;
                }
            },
            _ => {},
        }
        i += 1;
    }
    true
}

fn name_in_table(
    name: &String,
    given: &Vec<ColumnInfo>,
    indices: &Vec<usize>,
    columns: &Vec<ColumnInfo>,
) -> (res: String)
    requires
        given@.len() == indices@.len(),
        rows::all_below(indices@, columns@.len() as int),
    ensures
        res@ == table_name(
            name@,
            given.deep_view(),
            rows::positions(indices@),
            columns.deep_view(),
        ),
{
    match find_column(given, name) {
        Some(k) => {
            let i: usize = indices[k];
            columns[i].name.clone()
        },
        None => name.clone(),
    }
}

fn predicates_in_table(
    predicates: &Vec<Predicate>,
    given: &Vec<ColumnInfo>,
    indices: &Vec<usize>,
    columns: &Vec<ColumnInfo>,
) -> (res: Vec<Predicate>)
    requires
        given@.len() == indices@.len(),
        rows::all_below(indices@, columns@.len() as int),
    ensures
        res.deep_view() == table_tests(
            predicates.deep_view(),
            given.deep_view(),
            rows::positions(indices@),
            columns.deep_view(),
        ),
{
    let ghost t = predicates.deep_view();
    let ghost all = table_tests(
        t,
        given.deep_view(),
        rows::positions(indices@),
        columns.deep_view(),
    );
    let mut out: Vec<Predicate> = Vec::new();
    let mut i: usize = 0;
    while i < predicates.len()
        invariant
            i <= predicates@.len(),
            given@.len() == indices@.len(),
            rows::all_below(indices@, columns@.len() as int),
            t == predicates.deep_view(),
            all == table_tests(
                t,
                given.deep_view(),
                rows::positions(indices@),
                columns.deep_view(),
            ),
            out@.len() == i,
            forall|j: int| 0 <= j < i ==> (#[trigger] out@[j]).deep_view() == all[j],
        decreases predicates@.len() - i,
    {
        let p = &predicates[i];
        let value = match &p.value {
            ComparisionValue::Column(other) => ComparisionValue::Column(
                name_in_table(other, given, indices, columns),
            ),
            literal => literal.clone(),
        };
        assert(t[i as int] == p.deep_view());
        out.push(
            Predicate {
                column_name: name_in_table(&p.column_name, given, indices, columns),
                operator: p.operator,
                value,
            },
        );
        i += 1;
    }
    assert(out.deep_view() =~= all);
    out
}

/// Decides how a filter is carried out.
pub fn plan_filter(filter: &FilterData, ctx: &DbContext) -> (res: Result<FilterPlan, DbError>)
    ensures
        match res {
            Ok(way) => {
                &&& filter_way(
                    filter.predicates.deep_view(),
                    filter.underlying.plan(),
                    ctx@,
                ) == Ok::<FilterWay, Fault>(way@)
                &&& way matches FilterPlan::ProjectedScan { indices, columns, .. }
                    ==> columns.serves(indices@, width_below(filter.underlying.plan(), ctx@))
            },
            Err(e) => filter_way(
                filter.predicates.deep_view(),
                filter.underlying.plan(),
                ctx@,
            ) == Err::<FilterWay, Fault>(e@),
        },
{
    proof {
        reveal_with_fuel(QueryOp::plan, 3);
    }
    match &*filter.underlying {
        QueryOp::Scan(_) => Ok(FilterPlan::Scan),
        QueryOp::Cross(_) => Ok(FilterPlan::Cross),
        QueryOp::Project(p) => match &*p.underlying {
            QueryOp::Scan(_) => plan_projected(&filter.predicates, p, ctx),
            _ => Ok(FilterPlan::Stream(get_schema(&filter.underlying, ctx)?)),
        },
        _ => Ok(FilterPlan::Stream(get_schema(&filter.underlying, ctx)?)),
    }
}

fn plan_projected(predicates: &Vec<Predicate>, p: &ProjectData, ctx: &DbContext) -> (res: Result<
    FilterPlan,
    DbError,
>)
    requires
        *p.underlying is Scan,
    ensures
        match res {
            Ok(way) => {
                &&& filter_way(
                    predicates.deep_view(),
                    Plan::Project(p.column_name_map.deep_view(), Box::new(p.underlying.plan())),
                    ctx@,
                ) == Ok::<FilterWay, Fault>(way@)
                &&& way matches FilterPlan::ProjectedScan { indices, columns, .. }
                    ==> columns.serves(
                    indices@,
                    width_below(
                        Plan::Project(
                            p.column_name_map.deep_view(),
                            Box::new(p.underlying.plan()),
                        ),
                        ctx@,
                    ),
                )
            },
            Err(e) => filter_way(
                predicates.deep_view(),
                Plan::Project(p.column_name_map.deep_view(), Box::new(p.underlying.plan())),
                ctx@,
            ) == Err::<FilterWay, Fault>(e@),
        },
{
    let columns = get_schema(&p.underlying, ctx)?;
    assert(columns@.len() == columns.deep_view().len());
    let indices = match find_sources(&columns, &p.column_name_map) {
        Ok(v) => v,
        Err(name) => {
            return Err(DbError::FilteredProjectColumn(name));
        },
    };
    proof {
        project::lemma_projected_is_renamed(columns.deep_view(), p.column_name_map.deep_view());
    }
    let given = project_columns(&columns, &p.column_name_map)?;
    assert(given@.len() == given.deep_view().len());
    if predicates_within(predicates, &given) {
        let on_table = predicates_in_table(predicates, &given, &indices, &columns);
        let scan_columns = ScanColumns::new(&indices, columns.len());
        Ok(FilterPlan::ProjectedScan { indices, columns: scan_columns, predicates: on_table })
    } else {
        Ok(FilterPlan::Stream(given))
    }
}

// ---- testing below a projection ----

/// Whether a test on columns of the table can be made by the scan.
pub open spec fn can_be_compiled(tests: Seq<Test>, columns: Seq<Column>) -> bool {
    forall|i: int|
        0 <= i < tests.len() ==> scan::check_of(columns, #[trigger] tests[i], false) is Some
}

proof fn lemma_column_found(columns: Seq<Column>, name: Seq<char>)
    ensures
        schema::column_index(columns, name) matches Some(i) ==> 0 <= i < columns.len()
            && columns[i].name == name,
{
    seqs::lemma_first_where(columns, |c: Column| c.name == name);
}

proof fn lemma_sources_found(
    columns: Seq<Column>,
    map: Seq<(Seq<char>, Seq<char>)>,
    k: int,
)
    requires
        project::sources(columns, map) is Ok,
        0 <= k < map.len(),
    ensures
        ({
            let at = project::sources(columns, map)->Ok_0;
            at.len() == map.len() && schema::column_index(columns, map[k].0) == Some(at[k])
        }),
    decreases map.len(),
{
    if k < map.len() - 1 {
        lemma_sources_found(columns, map.drop_last(), k);
        assert(map.drop_last()[k] == map[k]);
    } else if map.len() > 1 {
        lemma_sources_found(columns, map.drop_last(), map.len() - 2);
    } else {
        assert(map.drop_last() =~= Seq::empty());
    }
}

pub proof fn lemma_table_index(
    columns: Seq<Column>,
    map: Seq<(Seq<char>, Seq<char>)>,
    name: Seq<char>,
)
    requires
        project::sources(columns, map) is Ok,
    ensures
        ({
            let at = project::sources(columns, map)->Ok_0;
            let given = project::renamed(columns, at, map);
            schema::column_index(given, name) matches Some(k) ==> {
                &&& 0 <= k < at.len()
                &&& 0 <= at[k] < columns.len()
                &&& schema::column_index(columns, table_name(name, given, at, columns)) == Some(
                    at[k],
                )
                &&& given[k].data_type == columns[at[k]].data_type
            }
        }),
{
    project::lemma_projected_is_renamed(columns, map);
    let at = project::sources(columns, map)->Ok_0;
    let given = project::renamed(columns, at, map);
    lemma_column_found(given, name);
    match schema::column_index(given, name) {
        Some(k) => {
            lemma_sources_found(columns, map, k);
            lemma_column_found(columns, map[k].0);
        },
        None => {},
    }
}

/// Testing a row of the table below a projection gives what testing the projected row
/// above it gives, where every test can be made by the scan.
pub proof fn filtering_below_a_projection_agrees(
    tests: Seq<Test>,
    map: Seq<(Seq<char>, Seq<char>)>,
    columns: Seq<Column>,
    r: Seq<Val>,
    ordered: Seq<bool>,
)
    requires
        project::sources(columns, map) is Ok,
        ({
            let at = project::sources(columns, map)->Ok_0;
            let given = project::renamed(columns, at, map);
            &&& tests_within(tests, given)
            &&& can_be_compiled(table_tests(tests, given, at, columns), columns)
        }),
    ensures
        ({
            let at = project::sources(columns, map)->Ok_0;
            let given = project::renamed(columns, at, map);
            row::tests_outcome(rows::picked(r, at), given, tests) == Ok::<bool, Fault>(
                scan_laws::meets_all(
                    r,
                    scan::checks_of(columns, table_tests(tests, given, at, columns), ordered),
                ),
            )
        }),
    decreases tests.len(),
{
    let at = project::sources(columns, map)->Ok_0;
    let given = project::renamed(columns, at, map);
    let below = table_tests(tests, given, at, columns);
    let checks = scan::checks_of(columns, below, ordered);
    if tests.len() > 0 {
        let before = tests.drop_last();
        assert(table_tests(before, given, at, columns) =~= below.drop_last());
        assert forall|i: int| 0 <= i < before.len() implies test_within(
            #[trigger] before[i],
            given,
        ) by {
            assert(before[i] == tests[i]);
        }
        assert forall|i: int| 0 <= i < below.drop_last().len() implies scan::check_of(
            columns,
            #[trigger] below.drop_last()[i],
            false,
        ) is Some by {
            assert(below.drop_last()[i] == below[i]);
        }
        filtering_below_a_projection_agrees(before, map, columns, r, ordered);
        let n = tests.len() - 1;
        let test = tests[n];
        assert(test_within(tests[n], given));
        assert(scan::check_of(columns, below[n], false) is Some);
        lemma_table_index(columns, map, test.column);
        match test.value {
            Operand::Column(other) => {
                lemma_table_index(columns, map, other);
            },
            _ => {},
        }
        let c = scan::check_of(columns, below[n], ordered[n])->Some_0;
        let some = scan::checks_of(columns, below.drop_last(), ordered);
        assert(checks == some.push(c));
        let p = rows::picked(r, at);
        assert(row::test_outcome(p, given, test) == Ok::<bool, Fault>(scan_laws::meets(r, c)));
        if scan_laws::meets_all(r, some) && scan_laws::meets(r, c) {
            assert forall|i: int| 0 <= i < checks.len() implies scan_laws::meets(
                r,
                #[trigger] checks[i],
            ) by {
                if i < some.len() {
                    assert(checks[i] == some[i]);
                }
            }
        }
        if scan_laws::meets_all(r, checks) {
            assert forall|i: int| 0 <= i < some.len() implies scan_laws::meets(
                r,
                #[trigger] some[i],
            ) by {
                assert(checks[i] == some[i]);
            }
            assert(checks[some.len() as int] == c);
        }
    }
}

} // verus!
