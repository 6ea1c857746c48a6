//! Projections move down: each scan gives only the columns that are used above it.

use vstd::prelude::*;

use crate::error::{DbError, Fault};
use crate::optimizer::rewrite::has;
use crate::optimizer::rewrite;
use crate::query::{
    ComparisionValue, CrossData, DbContext, FilterData, HashJoinData, Operand, Plan, Predicate,
    ProjectData, QueryOp, ScanData, SortData, SortKey, SortSpec, Table, Test,
};
use crate::schema::{get_schema, Column, ColumnInfo};
use crate::schema;

verus! {

// ---- sets of names ----

/// The names in a sequence, as a set.
pub open spec fn names_in(names: Seq<Seq<char>>) -> Set<Seq<char>> {
    Set::new(|n: Seq<char>| names.contains(n))
}

/// The names that are asked for, as a set. `None` asks for all columns.
pub open spec fn names_view(required: Option<Vec<String>>) -> Option<Set<Seq<char>>> {
    match required {
        Some(v) => Some(names_in(v.deep_view())),
        None => None,
    }
}

/// The names of columns.
pub open spec fn column_names(columns: Seq<Column>) -> Set<Seq<char>> {
    Set::new(|n: Seq<char>| rewrite::has_column(columns, n))
}

/// The columns that tests speak of.
pub open spec fn test_names(tests: Seq<Test>) -> Set<Seq<char>> {
    Set::new(|n: Seq<char>| exists|i: int| 0 <= i < tests.len() && names_column(#[trigger] tests[i], n))
}

/// Whether a test speaks of a column.
pub open spec fn names_column(test: Test, n: Seq<char>) -> bool {
    test.column == n || test.value == Operand::Column(n)
}

/// The columns of sort keys.
pub open spec fn key_names(keys: Seq<SortKey>) -> Set<Seq<char>> {
    Set::new(|n: Seq<char>| exists|i: int| 0 <= i < keys.len() && (#[trigger] keys[i]).column == n)
}

/// The columns that a projection takes.
pub open spec fn source_names(map: Seq<(Seq<char>, Seq<char>)>) -> Set<Seq<char>> {
    Set::new(|n: Seq<char>| exists|i: int| 0 <= i < map.len() && (#[trigger] map[i]).0 == n)
}

// ---- the rewritten plan ----

/// The pairs of a projection whose columns are asked for.
pub open spec fn asked_pairs(
    map: Seq<(Seq<char>, Seq<char>)>,
    required: Option<Set<Seq<char>>>,
) -> Seq<(Seq<char>, Seq<char>)> {
    match required {
        None => map,
        Some(r) => map.filter(|pair: (Seq<char>, Seq<char>)| r.contains(pair.1)),
    }
}

/// More names, where not all columns are asked for.
pub open spec fn and_names(
    required: Option<Set<Seq<char>>>,
    more: Set<Seq<char>>,
) -> Option<Set<Seq<char>>> {
    match required {
        None => None,
        Some(r) => Some(r.union(more)),
    }
}

/// A projection that keeps the names of columns.
pub open spec fn keeping(columns: Seq<Column>) -> Seq<(Seq<char>, Seq<char>)> {
    columns.map_values(|c: Column| (c.name, c.name))
}

/// A scan under a projection to the columns that are asked for. Where these are all
/// columns, or none, the scan stays as it is.
pub open spec fn narrowed(
    id: Seq<char>,
    required: Set<Seq<char>>,
    columns: Seq<Column>,
) -> Plan {
    let used = columns.filter(|c: Column| required.contains(c.name));
    if 0 < used.len() < columns.len() {
        Plan::Project(keeping(used), Box::new(Plan::Scan(id)))
    } else {
        Plan::Scan(id)
    }
}

/// The plan whose scans give only the columns that are used.
pub open spec fn pushed(
    plan: Plan,
    required: Option<Set<Seq<char>>>,
    tables: Seq<Table>,
) -> Result<Plan, Fault>
    decreases plan,
{
    match plan {
        Plan::Scan(id) => match required {
            None => Ok(plan),
            Some(r) => match schema::plan_schema(plan, tables) {
                Err(e) => Err(e),
                Ok(columns) => Ok(narrowed(id, r, columns)),
            },
        },
        Plan::Project(map, child) => {
            let pairs = asked_pairs(map, required);
            match pushed(*child, Some(source_names(pairs)), tables) {
                Err(e) => Err(e),
                Ok(c) => Ok(Plan::Project(pairs, Box::new(c))),
            }
        },
        Plan::Filter(tests, child) => match pushed(
            *child,
            and_names(required, test_names(tests)),
            tables,
        ) {
            Err(e) => Err(e),
            Ok(c) => Ok(Plan::Filter(tests, Box::new(c))),
        },
        Plan::Sort(keys, child) => match pushed(
            *child,
            and_names(required, key_names(keys)),
            tables,
        ) {
            Err(e) => Err(e),
            Ok(c) => Ok(Plan::Sort(keys, Box::new(c))),
        },
        Plan::Cross(l, r) => match names_for_inputs(*l, *r, required, tables) {
            Err(e) => Err(e),
            Ok((lr, rr)) => match (pushed(*l, lr, tables), pushed(*r, rr, tables)) {
                (Err(e), _) => Err(e),
                (Ok(_), Err(e)) => Err(e),
                (Ok(l2), Ok(r2)) => Ok(Plan::Cross(Box::new(l2), Box::new(r2))),
            },
        },
        Plan::HashJoin(l, r, a, b) => match names_for_inputs(*l, *r, required, tables) {
            Err(e) => Err(e),
            Ok((lr, rr)) => match (
                pushed(*l, and_names(lr, Set::empty().insert(a)), tables),
                pushed(*r, and_names(rr, Set::empty().insert(b)), tables),
            ) {
                (Err(e), _) => Err(e),
                (Ok(_), Err(e)) => Err(e),
                (Ok(l2), Ok(r2)) => Ok(Plan::HashJoin(Box::new(l2), Box::new(r2), a, b)),
            },
        },
    }
}

/// What is asked of the inputs of a join: of each its columns among those that are asked
/// for.
pub open spec fn names_for_inputs(
    left: Plan,
    right: Plan,
    required: Option<Set<Seq<char>>>,
    tables: Seq<Table>,
) -> Result<(Option<Set<Seq<char>>>, Option<Set<Seq<char>>>), Fault> {
    match required {
        None => Ok((None, None)),
        Some(r) => match (schema::plan_schema(left, tables), schema::plan_schema(right, tables)) {
            (Err(e), _) => Err(e),
            (Ok(_), Err(e)) => Err(e),
            (Ok(lc), Ok(rc)) => Ok(
                (Some(r.intersect(column_names(lc))), Some(r.intersect(column_names(rc)))),
            ),
        },
    }
}

// ---- the rewriting ----

fn is_among(names: &Vec<String>, name: &String) -> (res: bool)
    ensures
        res == names_in(names.deep_view()).contains(name@),
{
    let ghost n = names.deep_view();
    let mut i: usize = 0;
    while i < names.len()
        invariant
            i <= names@.len(),
            n == names.deep_view(),
            forall|j: int| 0 <= j < i ==> #[trigger] n[j] != name@,
        decreases names@.len() - i,
    {
        assert(n[i as int] == names@[i as int]@);
        if names[i] == *name {
            assert(n.contains(n[i as int]));
            return true;
        }
        i += 1;
    }
    false
}

fn put_name(names: &mut Vec<String>, name: &String)
    ensures
        names_in(final(names).deep_view()) == names_in(old(names).deep_view()).insert(name@),
{
    let ghost before = names.deep_view();
    names.push(name.clone());
    proof {
        let after = names.deep_view();
        assert(after =~= before.push(name@));
        assert forall|n: Seq<char>|
            #![auto]
            after.contains(n) <==> (before.contains(n) || n == name@) by {
            if before.contains(n) {
                let k = choose|k: int| 0 <= k < before.len() && before[k] == n;
                assert(after[k] == n);
            }
            if n == name@ {
                assert(after[before.len() as int] == n);
            }
        }
        assert(names_in(after) =~= names_in(before).insert(name@));
    }
}

fn put_test_names(names: &mut Vec<String>, predicates: &Vec<Predicate>)
    ensures
        names_in(final(names).deep_view()) == names_in(old(names).deep_view()).union(
            test_names(predicates.deep_view()),
        ),
{
    let ghost start = names_in(names.deep_view());
    let ghost t = predicates.deep_view();
    let mut i: usize = 0;
    assert(start.union(test_names(t.take(0))) =~= start);
    while i < predicates.len()
        invariant
            i <= predicates@.len(),
            t == predicates.deep_view(),
            names_in(names.deep_view()) == start.union(test_names(t.take(i as int))),
        decreases predicates@.len() - i,
    {
        let ghost done = names_in(names.deep_view());
        let ghost test = t[i as int];
        assert(test == predicates@[i as int].deep_view());
        put_name(names, &predicates[i].column_name);
        match &predicates[i].value {
            ComparisionValue::Column(c) => {
                put_name(names, c);
            },
            _ => {},
        }
        proof {
            let (now, next) = (t.take(i as int), t.take(i + 1));
            assert forall|n: Seq<char>|
                #![auto]
                test_names(next).contains(n) <==> (test_names(now).contains(n) || names_column(test, n)) by {
                if test_names(next).contains(n) {
                    let k = choose|k: int| 0 <= k < next.len() && names_column(#[trigger] next[k], n);
                    if k < i {
                        assert(now[k] == next[k]);
                    }
                }
                if test_names(now).contains(n) {
                    let k = choose|k: int| 0 <= k < now.len() && names_column(#[trigger] now[k], n);
                    assert(next[k] == now[k]);
                }
                if names_column(test, n) {
                    assert(next[i as int] == test);
                }
            }
            assert(names_in(names.deep_view()) =~= start.union(test_names(next)));
        }
        i += 1;
    }
    assert(t.take(i as int) =~= t);
}

fn put_key_names(names: &mut Vec<String>, specs: &Vec<SortSpec>)
    ensures
        names_in(final(names).deep_view()) == names_in(old(names).deep_view()).union(
            key_names(specs.deep_view()),
        ),
{
    let ghost start = names_in(names.deep_view());
    let ghost t = specs.deep_view();
    let mut i: usize = 0;
    assert(start.union(key_names(t.take(0))) =~= start);
    while i < specs.len()
        invariant
            i <= specs@.len(),
            t == specs.deep_view(),
            names_in(names.deep_view()) == start.union(key_names(t.take(i as int))),
        decreases specs@.len() - i,
    {
        assert(t[i as int] == specs@[i as int].deep_view());
        put_name(names, &specs[i].column_name);
        proof {
            let (now, next) = (t.take(i as int), t.take(i + 1));
            assert forall|n: Seq<char>|
                #![auto]
                key_names(next).contains(n) <==> (key_names(now).contains(n) || t[i as int].column == n) by {
                if key_names(next).contains(n) {
                    let k = choose|k: int| 0 <= k < next.len() && (#[trigger] next[k]).column == n;
                    if k < i {
                        assert(now[k] == next[k]);
                    }
                }
                if key_names(now).contains(n) {
                    let k = choose|k: int| 0 <= k < now.len() && (#[trigger] now[k]).column == n;
                    assert(next[k] == now[k]);
                }
                if t[i as int].column == n {
                    assert(next[i as int].column == n);
                }
            }
            assert(names_in(names.deep_view()) =~= start.union(key_names(next)));
        }
        i += 1;
    }
    assert(t.take(i as int) =~= t);
}

/// The pairs of a projection whose columns are asked for.
fn take_pairs(map: &Vec<(String, String)>, required: &Option<Vec<String>>) -> (res: Vec<
    (String, String),
>)
    ensures
        res.deep_view() == asked_pairs(map.deep_view(), names_view(*required)),
{
    let ghost m = map.deep_view();
    let ghost asked = names_view(*required);
    let mut out: Vec<(String, String)> = Vec::new();
    let mut i: usize = 0;
    proof {
        reveal(Seq::filter);
        assert(out.deep_view() =~= asked_pairs(m.take(0), asked));
    }
    while i < map.len()
        invariant
            i <= map@.len(),
            m == map.deep_view(),
            asked == names_view(*required),
            out.deep_view() == asked_pairs(m.take(i as int), asked),
        decreases map@.len() - i,
    {
        let ghost before = out.deep_view();
        proof {
            reveal(Seq::filter);
            assert(m.take(i + 1).drop_last() =~= m.take(i as int));
            assert(m.take(i + 1).last() == map@[i as int].deep_view());
        }
        let wanted = match required {
            None => true,
            Some(r) => is_among(r, &map[i].1),
        };
        if wanted {
            out.push((map[i].0.clone(), map[i].1.clone()));
            assert(out.deep_view() =~= before.push(m[i as int]));
        }
        assert(out.deep_view() =~= asked_pairs(m.take(i + 1), asked));
        i += 1;
    }
    assert(m.take(i as int) =~= m);
    out
}

/// The columns that a projection takes.
fn take_sources(map: &Vec<(String, String)>) -> (res: Vec<String>)
    ensures
        names_in(res.deep_view()) == source_names(map.deep_view()),
{
    let ghost m = map.deep_view();
    let mut out: Vec<String> = Vec::new();
    let mut i: usize = 0;
    assert(names_in(out.deep_view()) =~= source_names(m.take(0)));
    while i < map.len()
        invariant
            i <= map@.len(),
            m == map.deep_view(),
            names_in(out.deep_view()) == source_names(m.take(i as int)),
        decreases map@.len() - i,
    {
        assert(m[i as int] == map@[i as int].deep_view());
        put_name(&mut out, &map[i].0);
        proof {
            let (now, next) = (m.take(i as int), m.take(i + 1));
            assert forall|n: Seq<char>|
                #![auto]
                source_names(next).contains(n) <==> (source_names(now).contains(n) || m[i as int].0 == n) by {
                if source_names(next).contains(n) {
                    let k = choose|k: int| 0 <= k < next.len() && (#[trigger] next[k]).0 == n;
                    if k < i {
                        assert(now[k] == next[k]);
                    }
                }
                if source_names(now).contains(n) {
                    let k = choose|k: int| 0 <= k < now.len() && (#[trigger] now[k]).0 == n;
                    assert(next[k] == now[k]);
                }
                if m[i as int].0 == n {
                    assert(next[i as int].0 == n);
                }
            }
            assert(names_in(out.deep_view()) =~= source_names(next));
        }
        i += 1;
    }
    assert(m.take(i as int) =~= m);
    out
}

/// The names that columns have.
fn take_columns(names: &Vec<String>, columns: &Vec<ColumnInfo>) -> (res: Vec<String>)
    ensures
        names_in(res.deep_view()) == names_in(names.deep_view()).intersect(
            column_names(columns.deep_view()),
        ),
{
    let ghost m = names.deep_view();
    let ghost c = columns.deep_view();
    let mut out: Vec<String> = Vec::new();
    let mut i: usize = 0;
    assert(names_in(out.deep_view()) =~= names_in(m.take(0)).intersect(column_names(c)));
    while i < names.len()
        invariant
            i <= names@.len(),
            m == names.deep_view(),
            c == columns.deep_view(),
            names_in(out.deep_view()) == names_in(m.take(i as int)).intersect(column_names(c)),
        decreases names@.len() - i,
    {
        assert(m[i as int] == names@[i as int]@);
        if has(columns, &names[i]) {
            put_name(&mut out, &names[i]);
        }
        proof {
            let (now, next) = (m.take(i as int), m.take(i + 1));
            assert forall|n: Seq<char>|
                #![auto]
                next.contains(n) <==> (now.contains(n) || m[i as int] == n) by {
                if next.contains(n) {
                    let k = choose|k: int| 0 <= k < next.len() && next[k] == n;
                    if k < i {
                        assert(now[k] == next[k]);
                    }
                }
                if now.contains(n) {
                    let k = choose|k: int| 0 <= k < now.len() && now[k] == n;
                    assert(next[k] == now[k]);
                }
                if m[i as int] == n {
                    assert(next[i as int] == n);
                }
            }
            assert(names_in(out.deep_view()) =~= names_in(next).intersect(column_names(c)));
        }
        i += 1;
    }
    assert(m.take(i as int) =~= m);
    out
}

/// The projection that keeps the columns that are asked for.
fn keep_columns(columns: &Vec<ColumnInfo>, required: &Vec<String>) -> (res: Vec<(String, String)>)
    ensures
        res.deep_view() == keeping(
            columns.deep_view().filter(
                |c: Column| names_in(required.deep_view()).contains(c.name),
            ),
        ),
{
    let ghost c = columns.deep_view();
    let ghost p = |c: Column| names_in(required.deep_view()).contains(c.name);
    let mut out: Vec<(String, String)> = Vec::new();
    let mut i: usize = 0;
    proof {
        reveal(Seq::filter);
        assert(out.deep_view() =~= keeping(c.take(0).filter(p)));
    }
    while i < columns.len()
        invariant
            i <= columns@.len(),
            c == columns.deep_view(),
            p == (|c: Column| names_in(required.deep_view()).contains(c.name)),
            out.deep_view() == keeping(c.take(i as int).filter(p)),
        decreases columns@.len() - i,
    {
        let ghost before = out.deep_view();
        proof {
            reveal(Seq::filter);
            assert(c.take(i + 1).drop_last() =~= c.take(i as int));
            assert(c.take(i + 1).last() == columns@[i as int].deep_view());
        }
        if is_among(required, &columns[i].name) {
            let name = &columns[i].name;
            out.push((name.clone(), name.clone()));
            proof {
                let kept = c.take(i as int).filter(p);
                assert(out.deep_view() =~= before.push((c[i as int].name, c[i as int].name)));
                assert(keeping(kept.push(c[i as int])) =~= keeping(kept).push(
                    (c[i as int].name, c[i as int].name),
                ));
            }
        }
        i += 1;
    }
    assert(c.take(i as int) =~= c);
    out
}

/// Narrows a scan to the columns that are asked for.
fn narrow_scan(scan: ScanData, required: &Vec<String>, ctx: &DbContext) -> (res: Result<
    QueryOp,
    DbError,
>)
    ensures
        rewrite::plan_view(res) == pushed(
            Plan::Scan(scan.table_id@),
            Some(names_in(required.deep_view())),
            ctx@,
        ),
{
    let op = QueryOp::Scan(scan);
    let columns = get_schema(&op, ctx)?;
    let column_name_map = keep_columns(&columns, required);
    proof {
        let used = columns.deep_view().filter(
            |c: Column| names_in(required.deep_view()).contains(c.name),
        );
        assert(keeping(used).len() == used.len());
        assert(column_name_map.deep_view().len() == used.len());
    }
    if column_name_map.len() < columns.len() && column_name_map.len() > 0 {
        Ok(QueryOp::Project(ProjectData { column_name_map, underlying: Box::new(op) }))
    } else {
        Ok(op)
    }
}

/// What is asked of the inputs of a join.
fn split_names(
    left: &QueryOp,
    right: &QueryOp,
    required: Option<Vec<String>>,
    ctx: &DbContext,
) -> (res: Result<(Option<Vec<String>>, Option<Vec<String>>), DbError>)
    ensures
        match res {
            Ok((l, r)) => names_for_inputs(left@, right@, names_view(required), ctx@) == Ok::<
                _,
                Fault,
            >((names_view(l), names_view(r))),
            Err(e) => names_for_inputs(left@, right@, names_view(required), ctx@) == Err::<
                (Option<Set<Seq<char>>>, Option<Set<Seq<char>>>),
                Fault,
            >(e@),
        },
{
    match required {
        None => Ok((None, None)),
        Some(names) => {
            let left_columns = get_schema(left, ctx)?;
            let right_columns = get_schema(right, ctx)?;
            Ok(
                (
                    Some(take_columns(&names, &left_columns)),
                    Some(take_columns(&names, &right_columns)),
                ),
            )
        },
    }
}

fn with_name(required: Option<Vec<String>>, name: &String) -> (res: Option<Vec<String>>)
    ensures
        names_view(res) == and_names(names_view(required), Set::empty().insert(name@)),
{
    match required {
        None => None,
        Some(names) => {
            let ghost before = names_in(names.deep_view());
            let mut more = names;
            put_name(&mut more, name);
            assert(before.insert(name@) =~= before.union(Set::empty().insert(name@)));
            Some(more)
        },
    }
}

/// Moves projections down so that each scan gives only the columns that are used above it.
/// `required_cols` names the columns that are asked for; `None` asks for all.
pub fn pushdown_projections(op: QueryOp, required_cols: Option<Vec<String>>, ctx: &DbContext) -> (res:
    Result<QueryOp, DbError>)
    ensures
        rewrite::plan_view(res) == pushed(op@, names_view(required_cols), ctx@),
    decreases op,
{
    match op {
        QueryOp::Scan(s) => match required_cols {
            None => Ok(QueryOp::Scan(s)),
            Some(names) => narrow_scan(s, &names, ctx),
        },
        QueryOp::Project(p) => {
            let column_name_map = take_pairs(&p.column_name_map, &required_cols);
            let names = take_sources(&column_name_map);
            let below = pushdown_projections(*p.underlying, Some(names), ctx)?;
            Ok(QueryOp::Project(ProjectData { column_name_map, underlying: Box::new(below) }))
        },
        QueryOp::Filter(f) => {
            let next = match required_cols {
                None => None,
                Some(names) => {
                    let mut more = names;
                    put_test_names(&mut more, &f.predicates);
                    Some(more)
                },
            };
            let below = pushdown_projections(*f.underlying, next, ctx)?;
            Ok(
                QueryOp::Filter(
                    FilterData { predicates: f.predicates, underlying: Box::new(below) },
                ),
            )
        },
        QueryOp::Sort(s) => {
            let next = match required_cols {
                None => None,
                Some(names) => {
                    let mut more = names;
                    put_key_names(&mut more, &s.sort_specs);
                    Some(more)
                },
            };
            let below = pushdown_projections(*s.underlying, next, ctx)?;
            Ok(
                QueryOp::Sort(SortData { sort_specs: s.sort_specs, underlying: Box::new(below) }),
            )
        },
        QueryOp::Cross(c) => {
            let (for_left, for_right) = split_names(&c.left, &c.right, required_cols, ctx)?;
            let left = pushdown_projections(*c.left, for_left, ctx)?;
            let right = pushdown_projections(*c.right, for_right, ctx)?;
            Ok(QueryOp::Cross(CrossData { left: Box::new(left), right: Box::new(right) }))
        },
        QueryOp::HashJoin(h) => {
            let (for_left, for_right) = split_names(&h.left, &h.right, required_cols, ctx)?;
            let left = pushdown_projections(*h.left, with_name(for_left, &h.left_join_col), ctx)?;
            let right = pushdown_projections(
                *h.right,
                with_name(for_right, &h.right_join_col),
                ctx,
            )?;
            Ok(
                QueryOp::HashJoin(
                    HashJoinData {
                        left: Box::new(left),
                        right: Box::new(right),
                        left_join_col: h.left_join_col,
                        right_join_col: h.right_join_col,
                    },
                ),
            )
        },
    }
}

} // verus!
