//! Rewriting of plans: filters move down to the inputs of cross joins, cross joins become
//! hash joins, and sorts without effect are left out.

use vstd::prelude::*;

use crate::error::{DbError, Fault};
use crate::ops::scan::says_ordered;
use crate::query::{
    ComparisionOperator, ComparisionValue, CrossData, DbContext, FilterData, HashJoinData, Operand,
    Plan, Predicate, ProjectData, QueryOp, SortData, SortKey, SortSpec, Stat, Table, Test,
};
use crate::query;
use crate::schema::{find_column, get_schema, Column, ColumnInfo};
use crate::schema;
use crate::seqs;

verus! {

/// The mathematical value of a rewritten plan.
pub open spec fn plan_view(res: Result<QueryOp, DbError>) -> Result<Plan, Fault> {
    match res {
        Ok(op) => Ok(op@),
        Err(e) => Err(e@),
    }
}

// ---- sorts ----

/// Whether the rows of a plan come in ascending order of a column because the table they
/// are of is stored in that order.
pub open spec fn column_ordered(plan: Plan, name: Seq<char>, tables: Seq<Table>) -> bool
    decreases plan,
{
    match plan {
        Plan::Scan(id) => match query::table_index(tables, id) {
            None => false,
            Some(i) => match query::spec_index(tables[i].columns, name) {
                None => false,
                Some(k) => match tables[i].columns[k].stats {
                    None => false,
                    Some(stats) => stats.contains(Stat::PhysicallyOrdered),
                },
            },
        },
        Plan::Filter(_, child) => column_ordered(*child, name, tables),
        Plan::Project(map, child) => match output_index(map, name) {
            None => false,
            Some(i) => column_ordered(*child, map[i].0, tables),
        },
        _ => false,
    }
}

/// The first pair of a projection that gives this column.
pub open spec fn output_index(map: Seq<(Seq<char>, Seq<char>)>, name: Seq<char>) -> Option<int> {
    seqs::first_where(map, |pair: (Seq<char>, Seq<char>)| pair.1 == name)
}

/// Whether a plan gives its rows in the order of these keys without a sort.
pub open spec fn already_sorted(plan: Plan, keys: Seq<SortKey>, tables: Seq<Table>) -> bool {
    keys.len() == 1 && keys[0].ascending && column_ordered(plan, keys[0].column, tables)
}

fn find_output(map: &Vec<(String, String)>, name: &String) -> (res: Option<usize>)
    ensures
        match res {
            Some(i) => output_index(map.deep_view(), name@) == Some(i as int) && i < map@.len(),
            None => output_index(map.deep_view(), name@) is None,
        },
{
    let ghost m = map.deep_view();
    let ghost p = |pair: (Seq<char>, Seq<char>)| pair.1 == name@;
    let mut i: usize = 0;
    while i < map.len()
        invariant
            i <= map@.len(),
            m == map.deep_view(),
            p == (|pair: (Seq<char>, Seq<char>)| pair.1 == name@),
            forall|j: int| 0 <= j < i ==> !p(#[trigger] m[j]),
        decreases map@.len() - i,
    {
        assert(m[i as int] == map@[i as int].deep_view());
        if map[i].1 == *name {
            proof {
                seqs::lemma_first_where_is(m, p, i as int);
            }
            return Some(i);
        }
        i += 1;
    }
    proof {
        seqs::lemma_first_where_none(m, p);
    }
    None
}

fn is_column_ordered(op: &QueryOp, name: &String, ctx: &DbContext) -> (res: bool)
    ensures
        res == column_ordered(op@, name@, ctx@),
    decreases op,
{
    match op {
        QueryOp::Scan(s) => match ctx.find_table(&s.table_id) {
            None => false,
            Some(i) => {
                let table = &ctx.table_specs[i];
                assert(ctx@[i as int] == table.deep_view());
                match table.find_spec(name) {
                    None => false,
                    Some(k) => {
                        let spec = &table.column_specs[k];
                        assert(table.deep_view().columns[k as int] == spec.deep_view());
                        match &spec.stats {
                            None => false,
                            Some(stats) => says_ordered(stats),
                        }
                    },
                }
            },
        },
        QueryOp::Filter(f) => is_column_ordered(&f.underlying, name, ctx),
        QueryOp::Project(p) => match find_output(&p.column_name_map, name) {
            None => false,
            Some(i) => {
                assert(p.column_name_map.deep_view()[i as int]
                    == p.column_name_map@[i as int].deep_view());
                is_column_ordered(&p.underlying, &p.column_name_map[i].0, ctx)
            },
        },
        _ => false,
    }
}

/// Says whether a plan gives its rows in the order of the keys without a sort: where there
/// is one key, in ascending order, and the rows are those of a table that is stored in that
/// order.
pub fn sort_is_physically_ordered(op: &QueryOp, specs: &Vec<SortSpec>, ctx: &DbContext) -> (res: bool)
    ensures
        res == already_sorted(op@, specs.deep_view(), ctx@),
{
    if specs.len() != 1 {
        return false;
    }
    assert(specs.deep_view()[0] == specs@[0].deep_view());
    specs[0].ascending && is_column_ordered(op, &specs[0].column_name, ctx)
}

// ---- filters ----

/// Whether there is a column of this name.
pub open spec fn has_column(columns: Seq<Column>, name: Seq<char>) -> bool {
    schema::column_index(columns, name) is Some
}

/// Whether a test speaks of a column of the left input.
pub open spec fn needs_left(test: Test, left: Seq<Column>) -> bool {
    has_column(left, test.column) || match test.value {
        Operand::Column(other) => has_column(left, other),
        _ => false,
    }
}

/// Whether a test speaks of a column that the right input has and the left input lacks.
pub open spec fn needs_right(test: Test, left: Seq<Column>, right: Seq<Column>) -> bool {
    (!has_column(left, test.column) && has_column(right, test.column)) || match test.value {
        Operand::Column(other) => !has_column(left, other) && has_column(right, other),
        _ => false,
    }
}

/// The tests that the left input can make alone.
pub open spec fn left_tests(tests: Seq<Test>, left: Seq<Column>, right: Seq<Column>) -> Seq<Test> {
    tests.filter(|t: Test| needs_left(t, left) && !needs_right(t, left, right))
}

/// The tests that the right input can make alone.
pub open spec fn right_tests(tests: Seq<Test>, left: Seq<Column>, right: Seq<Column>) -> Seq<Test> {
    tests.filter(|t: Test| needs_right(t, left, right) && !needs_left(t, left))
}

/// The tests that neither input can make alone.
pub open spec fn pair_tests(tests: Seq<Test>, left: Seq<Column>, right: Seq<Column>) -> Seq<Test> {
    tests.filter(|t: Test| needs_left(t, left) == needs_right(t, left, right))
}

/// Whether a test asks that a column of the one input equal a column of the other.
pub open spec fn is_equi_join(test: Test, left: Seq<Column>, right: Seq<Column>) -> bool {
    test.operator == ComparisionOperator::EQ && match test.value {
        Operand::Column(other) => (has_column(left, test.column) && has_column(right, other)) || (
        has_column(right, test.column) && has_column(left, other)),
        _ => false,
    }
}

/// The column that a test compares with.
pub open spec fn other_column(test: Test) -> Seq<char> {
    match test.value {
        Operand::Column(other) => other,
        _ => Seq::empty(),
    }
}

/// Two inputs as a hash join on the columns of a test.
pub open spec fn equi_joined(test: Test, left: Plan, right: Plan, columns: Seq<Column>) -> Plan {
    if has_column(columns, test.column) {
        Plan::HashJoin(Box::new(left), Box::new(right), test.column, other_column(test))
    } else {
        Plan::HashJoin(Box::new(left), Box::new(right), other_column(test), test.column)
    }
}

/// A plan under tests, if there are any.
pub open spec fn under(tests: Seq<Test>, plan: Plan) -> Plan {
    if tests.len() == 0 {
        plan
    } else {
        Plan::Filter(tests, Box::new(plan))
    }
}

/// Two inputs under the tests that neither can make alone. The first of them that asks for
/// equal columns becomes the condition of a hash join.
pub open spec fn joined(
    left: Plan,
    right: Plan,
    tests: Seq<Test>,
    left_columns: Seq<Column>,
    right_columns: Seq<Column>,
) -> Plan {
    match seqs::first_where(tests, |t: Test| is_equi_join(t, left_columns, right_columns)) {
        Some(i) => under(tests.remove(i), equi_joined(tests[i], left, right, left_columns)),
        None => under(tests, Plan::Cross(Box::new(left), Box::new(right))),
    }
}

/// A plan under tests, each moved down to the input that can make it.
pub open spec fn filtered(tests: Seq<Test>, plan: Plan, tables: Seq<Table>) -> Result<Plan, Fault>
    decreases plan,
{
    match plan {
        Plan::Cross(l, r) => match (
            schema::plan_schema(*l, tables),
            schema::plan_schema(*r, tables),
        ) {
            (Err(e), _) => Err(e),
            (Ok(_), Err(e)) => Err(e),
            (Ok(lc), Ok(rc)) => {
                let lt = left_tests(tests, lc, rc);
                let rt = right_tests(tests, lc, rc);
                let left = if lt.len() == 0 {
                    Ok(*l)
                } else {
                    filtered(lt, *l, tables)
                };
                let right = if rt.len() == 0 {
                    Ok(*r)
                } else {
                    filtered(rt, *r, tables)
                };
                match (left, right) {
                    (Err(e), _) => Err(e),
                    (Ok(_), Err(e)) => Err(e),
                    (Ok(l2), Ok(r2)) => Ok(joined(l2, r2, pair_tests(tests, lc, rc), lc, rc)),
                }
            },
        },
        other => Ok(Plan::Filter(tests, Box::new(other))),
    }
}

/// A plan under a sort. A sort directly below is left out, and the sort itself where the
/// rows come in its order anyway.
pub open spec fn resorted(keys: Seq<SortKey>, plan: Plan, tables: Seq<Table>) -> Plan {
    let below = match plan {
        Plan::Sort(_, child) => *child,
        other => other,
    };
    if already_sorted(below, keys, tables) {
        below
    } else {
        Plan::Sort(keys, Box::new(below))
    }
}

/// The rewritten plan.
pub open spec fn rewritten(plan: Plan, tables: Seq<Table>) -> Result<Plan, Fault>
    decreases plan,
{
    match plan {
        Plan::Scan(_) => Ok(plan),
        Plan::Filter(tests, child) => match rewritten(*child, tables) {
            Err(e) => Err(e),
            Ok(c) => filtered(tests, c, tables),
        },
        Plan::Sort(keys, child) => match rewritten(*child, tables) {
            Err(e) => Err(e),
            Ok(c) => Ok(resorted(keys, c, tables)),
        },
        Plan::Project(map, child) => match rewritten(*child, tables) {
            Err(e) => Err(e),
            Ok(c) => Ok(Plan::Project(map, Box::new(c))),
        },
        Plan::Cross(l, r) => match (rewritten(*l, tables), rewritten(*r, tables)) {
            (Err(e), _) => Err(e),
            (Ok(_), Err(e)) => Err(e),
            (Ok(l2), Ok(r2)) => Ok(Plan::Cross(Box::new(l2), Box::new(r2))),
        },
        Plan::HashJoin(l, r, a, b) => match (rewritten(*l, tables), rewritten(*r, tables)) {
            (Err(e), _) => Err(e),
            (Ok(_), Err(e)) => Err(e),
            (Ok(l2), Ok(r2)) => Ok(Plan::HashJoin(Box::new(l2), Box::new(r2), a, b)),
        },
    }
}

/// Says whether there is a column of this name.
pub fn has(columns: &Vec<ColumnInfo>, name: &String) -> (res: bool)
    ensures
        res == has_column(columns.deep_view(), name@),
{
    find_column(columns, name).is_some()
}

/// Which input can make a test alone.
#[derive(Clone, Copy, PartialEq, Eq, Structural)]
enum Side {
    Left,
    Right,
    Neither,
}

spec fn side_of(test: Test, left: Seq<Column>, right: Seq<Column>) -> Side {
    if needs_left(test, left) && !needs_right(test, left, right) {
        Side::Left
    } else if needs_right(test, left, right) && !needs_left(test, left) {
        Side::Right
    } else {
        Side::Neither
    }
}

fn find_side(pred: &Predicate, left: &Vec<ColumnInfo>, right: &Vec<ColumnInfo>) -> (res: Side)
    ensures
        res == side_of(pred.deep_view(), left.deep_view(), right.deep_view()),
{
    let mut on_left: bool = false;
    let mut on_right: bool = false;
    if has(left, &pred.column_name) {
        on_left = true;
    } else if has(right, &pred.column_name) {
        on_right = true;
    }
    match &pred.value {
        ComparisionValue::Column(other) => {
            if has(left, other) {
                on_left = true;
            } else if has(right, other) {
                on_right = true;
            }
        },
        _ => {},
    }
    if on_left && !on_right {
        Side::Left
    } else if on_right && !on_left {
        Side::Right
    } else {
        Side::Neither
    }
}

/// The predicates that one input, or neither, can make alone.
fn take_side(
    predicates: &Vec<Predicate>,
    left: &Vec<ColumnInfo>,
    right: &Vec<ColumnInfo>,
    side: Side,
) -> (res: Vec<Predicate>)
    ensures
        res.deep_view() == predicates.deep_view().filter(
            |t: Test| side_of(t, left.deep_view(), right.deep_view()) == side,
        ),
{
    let ghost t = predicates.deep_view();
    let ghost p = |t: Test| side_of(t, left.deep_view(), right.deep_view()) == side;
    let mut out: Vec<Predicate> = Vec::new();
    let mut i: usize = 0;
    proof {
        reveal(Seq::filter);
        assert(t.take(0).filter(p) =~= Seq::empty());
        assert(out.deep_view() =~= Seq::empty());
    }
    while i < predicates.len()
        invariant
            i <= predicates@.len(),
            t == predicates.deep_view(),
            p == (|t: Test| side_of(t, left.deep_view(), right.deep_view()) == side),
            out.deep_view() == t.take(i as int).filter(p),
        decreases predicates@.len() - i,
    {
        let ghost before = out.deep_view();
        proof {
            reveal(Seq::filter);
            assert(t.take(i + 1).drop_last() =~= t.take(i as int));
            assert(t.take(i + 1).last() == predicates@[i as int].deep_view());
        }
        if find_side(&predicates[i], left, right) == side {
            out.push(predicates[i].clone());
            assert(out.deep_view() =~= before.push(t[i as int]));
        }
        i += 1;
    }
    assert(t.take(i as int) =~= t);
    out
}

proof fn lemma_sides(tests: Seq<Test>, left: Seq<Column>, right: Seq<Column>)
    ensures
        left_tests(tests, left, right) == tests.filter(
            |t: Test| side_of(t, left, right) == Side::Left,
        ),
        right_tests(tests, left, right) == tests.filter(
            |t: Test| side_of(t, left, right) == Side::Right,
        ),
        pair_tests(tests, left, right) == tests.filter(
            |t: Test| side_of(t, left, right) == Side::Neither,
        ),
{
    assert((|t: Test| side_of(t, left, right) == Side::Left) =~= (|t: Test|
        needs_left(t, left) && !needs_right(t, left, right)));
    assert((|t: Test| side_of(t, left, right) == Side::Right) =~= (|t: Test|
        needs_right(t, left, right) && !needs_left(t, left)));
    assert((|t: Test| side_of(t, left, right) == Side::Neither) =~= (|t: Test|
        needs_left(t, left) == needs_right(t, left, right)));
}

/// Says whether a predicate asks that a column of the one input equal a column of the other.
pub fn joins_inputs(pred: &Predicate, left: &Vec<ColumnInfo>, right: &Vec<ColumnInfo>) -> (res: bool)
    ensures
        res == is_equi_join(pred.deep_view(), left.deep_view(), right.deep_view()),
{
    match &pred.value {
        ComparisionValue::Column(other) => pred.operator == ComparisionOperator::EQ && ((has(
            left,
            &pred.column_name,
        ) && has(right, other)) || (has(right, &pred.column_name) && has(left, other))),
        _ => false,
    }
}

/// Finds the first predicate that joins two inputs.
fn find_equi_join(
    predicates: &Vec<Predicate>,
    left: &Vec<ColumnInfo>,
    right: &Vec<ColumnInfo>,
) -> (res: Option<usize>)
    ensures
        match res {
            Some(i) => seqs::first_where(
                predicates.deep_view(),
                |t: Test| is_equi_join(t, left.deep_view(), right.deep_view()),
            ) == Some(i as int) && i < predicates@.len(),
            None => seqs::first_where(
                predicates.deep_view(),
                |t: Test| is_equi_join(t, left.deep_view(), right.deep_view()),
            ) is None,
        },
{
    let ghost t = predicates.deep_view();
    let ghost p = |t: Test| is_equi_join(t, left.deep_view(), right.deep_view());
    let mut i: usize = 0;
    while i < predicates.len()
        invariant
            i <= predicates@.len(),
            t == predicates.deep_view(),
            p == (|t: Test| is_equi_join(t, left.deep_view(), right.deep_view())),
            forall|j: int| 0 <= j < i ==> !p(#[trigger] t[j]),
        decreases predicates@.len() - i,
    {
        assert(t[i as int] == predicates@[i as int].deep_view());
        if joins_inputs(&predicates[i], left, right) {
            proof {
                seqs::lemma_first_where_is(t, p, i as int);
            }
            return Some(i);
        }
        i += 1;
    }
    proof {
        seqs::lemma_first_where_none(t, p);
    }
    None
}

fn put_under(predicates: Vec<Predicate>, op: QueryOp) -> (res: QueryOp)
    ensures
        res@ == under(predicates.deep_view(), op@),
{
    if predicates.len() == 0 {
        op
    } else {
        QueryOp::Filter(FilterData { predicates, underlying: Box::new(op) })
    }
}

/// Joins two inputs under the predicates that neither can make alone.
fn join_inputs(
    left: Box<QueryOp>,
    right: Box<QueryOp>,
    predicates: Vec<Predicate>,
    left_columns: &Vec<ColumnInfo>,
    right_columns: &Vec<ColumnInfo>,
) -> (res: QueryOp)
    ensures
        res@ == joined(
            left@,
            right@,
            predicates.deep_view(),
            left_columns.deep_view(),
            right_columns.deep_view(),
        ),
{
    let ghost t = predicates.deep_view();
    match find_equi_join(&predicates, left_columns, right_columns) {
        None => put_under(predicates, QueryOp::Cross(CrossData { left, right })),
        Some(i) => {
            proof {
                seqs::lemma_first_where(
                    t,
                    |x: Test|
                        is_equi_join(x, left_columns.deep_view(), right_columns.deep_view()),
                );
                assert(t[i as int] == predicates@[i as int].deep_view());
            }
            let mut rest = predicates;
            let pred = rest.remove(i);
            assert(rest.deep_view() =~= t.remove(i as int));
            let other = match pred.value {
                ComparisionValue::Column(c) => c,
                _ => String::new(),
            };
            let first = has(left_columns, &pred.column_name);
            let (left_join_col, right_join_col) = if first {
                (pred.column_name, other)
            } else {
                (other, pred.column_name)
            };
            put_under(
                rest,
                QueryOp::HashJoin(HashJoinData { left, right, left_join_col, right_join_col }),
            )
        },
    }
}

/// Puts predicates on a plan, each on the input that can make it alone.
fn push_filter(predicates: Vec<Predicate>, op: Box<QueryOp>, ctx: &DbContext) -> (res: Result<
    QueryOp,
    DbError,
>)
    ensures
        plan_view(res) == filtered(predicates.deep_view(), op@, ctx@),
    decreases op,
{
    match *op {
        QueryOp::Cross(c) => {
            let left_columns = get_schema(&c.left, ctx)?;
            let right_columns = get_schema(&c.right, ctx)?;
            proof {
                lemma_sides(
                    predicates.deep_view(),
                    left_columns.deep_view(),
                    right_columns.deep_view(),
                );
            }
            let for_left = take_side(&predicates, &left_columns, &right_columns, Side::Left);
            let for_right = take_side(&predicates, &left_columns, &right_columns, Side::Right);
            let for_pairs = take_side(&predicates, &left_columns, &right_columns, Side::Neither);
            let left = if for_left.len() == 0 {
                c.left
            } else {
                Box::new(push_filter(for_left, c.left, ctx)?)
            };
            let right = if for_right.len() == 0 {
                c.right
            } else {
                Box::new(push_filter(for_right, c.right, ctx)?)
            };
            Ok(join_inputs(left, right, for_pairs, &left_columns, &right_columns))
        },
        other => Ok(QueryOp::Filter(FilterData { predicates, underlying: Box::new(other) })),
    }
}

/// Rewrites a plan: predicates move down to the inputs of cross joins, a cross join under
/// a predicate that asks for equal columns becomes a hash join, and sorts without effect
/// are left out.
pub fn optimize_rewrites(op: QueryOp, ctx: &DbContext) -> (res: Result<QueryOp, DbError>)
    ensures
        plan_view(res) == rewritten(op@, ctx@),
    decreases op,
{
    match op {
        QueryOp::Scan(s) => Ok(QueryOp::Scan(s)),
        QueryOp::Filter(f) => {
            let below = optimize_rewrites(*f.underlying, ctx)?;
            push_filter(f.predicates, Box::new(below), ctx)
        },
        QueryOp::Sort(s) => {
            let child = optimize_rewrites(*s.underlying, ctx)?;
            let below = match child {
                QueryOp::Sort(inner) => *inner.underlying,
                other => other,
            };
            if sort_is_physically_ordered(&below, &s.sort_specs, ctx) {
                Ok(below)
            } else {
                Ok(
                    QueryOp::Sort(
                        SortData { sort_specs: s.sort_specs, underlying: Box::new(below) },
                    ),
                )
            }
        },
        QueryOp::Project(p) => {
            let below = optimize_rewrites(*p.underlying, ctx)?;
            Ok(
                QueryOp::Project(
                    ProjectData { column_name_map: p.column_name_map, underlying: Box::new(below) },
                ),
            )
        },
        QueryOp::Cross(c) => {
            let left = optimize_rewrites(*c.left, ctx)?;
            let right = optimize_rewrites(*c.right, ctx)?;
            Ok(QueryOp::Cross(CrossData { left: Box::new(left), right: Box::new(right) }))
        },
        QueryOp::HashJoin(h) => {
            let left = optimize_rewrites(*h.left, ctx)?;
            let right = optimize_rewrites(*h.right, ctx)?;
            Ok(
                QueryOp::HashJoin(
                    HashJoinData {
                        left: Box::new(left),
                        right: Box::new(right),
                        left_join_col: h.left_join_col,
                        right_join_col: h.right_join_col,
                    },
                ),
            )
        },
    }
}

} // verus!
