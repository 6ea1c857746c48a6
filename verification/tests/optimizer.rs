use std::collections::HashMap;

use database::error::DbError;
use database::ops::rows::{clone_row, join_row, pick};
use database::ops::sort::{find_sort_keys, sort_positions};
use database::optimizer::benchmark::{benchmark_queries, find_known_order, find_known_table, Known};
use database::optimizer::estimate::{estimate_cardinality, estimate_selectivity};
use database::optimizer::join_order::find_best_join_order;
use database::optimizer::pushdown::pushdown_projections;
use database::optimizer::reorder::{
    count_cross_leaves, flatten_crosses, is_pure_cross_tree, joins_fit, reorder_joins,
};
use database::optimizer::rewrite::{optimize_rewrites, sort_is_physically_ordered};
use database::optimizer::swap::optimize_join_order;
use database::optimizer::{max_concurrent_heavy_ops, optimize};
use database::query::ComparisionOperator::{self, EQ, GT, GTE, LT, LTE, NE};
use database::query::{
    ColumnSpec, ColumnStat, ComparisionValue, CrossData, DbContext, FilterData, HashJoinData,
    Predicate, ProjectData, QueryOp, RangeStat, ScanData, SortData, SortSpec, TableSpec,
};
use database::row::apply_predicates;
use database::schema::{get_schema, ColumnInfo};
use database::value::{Data, DataType};

fn name(s: &str) -> String {
    s.to_string()
}

fn scan(id: &str) -> QueryOp {
    QueryOp::Scan(ScanData { table_id: name(id) })
}

fn filter(predicates: Vec<Predicate>, underlying: QueryOp) -> QueryOp {
    QueryOp::Filter(FilterData { predicates, underlying: Box::new(underlying) })
}

fn project(map: &[(&str, &str)], underlying: QueryOp) -> QueryOp {
    QueryOp::Project(ProjectData {
        column_name_map: map.iter().map(|(a, b)| (name(a), name(b))).collect(),
        underlying: Box::new(underlying),
    })
}

fn cross(left: QueryOp, right: QueryOp) -> QueryOp {
    QueryOp::Cross(CrossData { left: Box::new(left), right: Box::new(right) })
}

fn join(left: QueryOp, right: QueryOp, left_col: &str, right_col: &str) -> QueryOp {
    QueryOp::HashJoin(HashJoinData {
        left: Box::new(left),
        right: Box::new(right),
        left_join_col: name(left_col),
        right_join_col: name(right_col),
    })
}

fn sort(specs: &[(&str, bool)], underlying: QueryOp) -> QueryOp {
    QueryOp::Sort(SortData {
        sort_specs: specs
            .iter()
            .map(|(c, ascending)| SortSpec { column_name: name(c), ascending: *ascending })
            .collect(),
        underlying: Box::new(underlying),
    })
}

fn pred(column: &str, operator: ComparisionOperator, value: ComparisionValue) -> Predicate {
    Predicate { column_name: name(column), operator, value }
}

fn same(column: &str, other: &str) -> Predicate {
    pred(column, EQ, ComparisionValue::Column(name(other)))
}

fn shown(op: &QueryOp) -> String {
    format!("{:?}", op)
}

fn column(column_name: &str, stats: Vec<ColumnStat>) -> ColumnSpec {
    ColumnSpec { column_name: name(column_name), data_type: DataType::Int32, stats: Some(stats) }
}

fn range(low: i32, high: i32) -> ColumnStat {
    ColumnStat::RangeStat(RangeStat {
        lower_bound: Data::Int32(low),
        upper_bound: Data::Int32(high),
    })
}

fn density(d: f32) -> ColumnStat {
    ColumnStat::DensityStat(d.to_bits())
}

/// Three tables: `r` with the columns a and b, `s` with c and d, `t` with e and f.
fn catalog() -> DbContext {
    let table = |id: &str, rows: u64, x: &str, y: &str| TableSpec {
        file_id: name(id),
        column_specs: vec![
            column(
                x,
                vec![
                    ColumnStat::CardinalityStat(rows),
                    ColumnStat::IsPhysicallyOrdered,
                    range(0, 100),
                ],
            ),
            column(y, vec![density(0.25)]),
        ],
    };
    DbContext {
        table_specs: vec![
            table("r", 500, "a", "b"),
            table("s", 40, "c", "d"),
            table("t", 3000, "e", "f"),
        ],
    }
}

fn stored(id: &str) -> Vec<Vec<Data>> {
    let (n, m) = match id {
        "r" => (12, 5),
        "s" => (6, 4),
        _ => (15, 3),
    };
    (0..n).map(|i| vec![Data::Int32(i), Data::Int32((i * 7) % m)]).collect()
}

/// The rows of a plan, taken by its meaning.
fn answer(op: &QueryOp, ctx: &DbContext) -> Vec<Vec<Data>> {
    let schema = get_schema(op, ctx).unwrap();
    let at = |columns: &Vec<ColumnInfo>, c: &String| {
        columns.iter().position(|x| x.name == *c).unwrap()
    };
    match op {
        QueryOp::Scan(s) => stored(&s.table_id),
        QueryOp::Filter(f) => answer(&f.underlying, ctx)
            .into_iter()
            .filter(|r| apply_predicates(r, &schema, &f.predicates).unwrap())
            .collect(),
        QueryOp::Project(p) => {
            let below = get_schema(&p.underlying, ctx).unwrap();
            let from: Vec<usize> = p.column_name_map.iter().map(|(c, _)| at(&below, c)).collect();
            answer(&p.underlying, ctx).iter().map(|r| pick(r, &from)).collect()
        }
        QueryOp::Cross(c) => {
            let right = answer(&c.right, ctx);
            let pairs = |l: &Vec<Data>| right.iter().map(|r| join_row(l, r)).collect::<Vec<_>>();
            answer(&c.left, ctx).iter().flat_map(pairs).collect()
        }
        QueryOp::HashJoin(h) => {
            let lk = at(&get_schema(&h.left, ctx).unwrap(), &h.left_join_col);
            let rk = at(&get_schema(&h.right, ctx).unwrap(), &h.right_join_col);
            let right = answer(&h.right, ctx);
            let mut out = Vec::new();
            for l in answer(&h.left, ctx) {
                out.extend(
                    right.iter().filter(|r| l[lk].equals(&r[rk])).map(|r| join_row(&l, r)),
                );
            }
            out
        }
        QueryOp::Sort(s) => {
            let rows = answer(&s.underlying, ctx);
            let keys = find_sort_keys(&schema, &s.sort_specs).unwrap();
            sort_positions(&rows, &keys).into_iter().map(|i| clone_row(&rows[i])).collect()
        }
    }
}

/// The rows of a plan, each as its columns by name, in no order.
fn records(op: &QueryOp, ctx: &DbContext) -> Vec<String> {
    let names: Vec<String> = get_schema(op, ctx).unwrap().into_iter().map(|c| c.name).collect();
    let mut out: Vec<String> = answer(op, ctx)
        .iter()
        .map(|r| {
            let mut fields: Vec<String> =
                names.iter().zip(r.iter()).map(|(n, v)| format!("{}={:?}", n, v)).collect();
            fields.sort();
            fields.join(",")
        })
        .collect();
    out.sort();
    out
}

// ---- estimates ----

#[test]
fn tables_have_an_estimated_size() {
    let ctx = catalog();
    assert_eq!(estimate_cardinality(&scan("r"), &ctx), 500);
    assert_eq!(estimate_cardinality(&scan("unknown"), &ctx), 1000);
    let dense = DbContext {
        table_specs: vec![TableSpec {
            file_id: name("x"),
            column_specs: vec![column("k", vec![density(0.25), ColumnStat::CardinalityStat(10)])],
        }],
    };
    assert_eq!(estimate_cardinality(&scan("x"), &dense), 40);
    assert_eq!(estimate_cardinality(&cross(scan("r"), scan("s")), &ctx), 20000);
    assert_eq!(estimate_cardinality(&join(scan("r"), scan("s"), "a", "c"), &ctx), 500);
    assert_eq!(estimate_cardinality(&sort(&[("a", true)], scan("r")), &ctx), 500);
    assert_eq!(estimate_cardinality(&project(&[("a", "a")], scan("s")), &ctx), 40);
}

#[test]
fn filters_have_an_estimated_share() {
    let ctx = catalog();
    let share = |p: Predicate| f64::from_bits(estimate_selectivity(&p, &scan("r"), &ctx));
    assert_eq!(share(pred("b", EQ, ComparisionValue::I32(1))), 0.25);
    assert_eq!(share(pred("a", LT, ComparisionValue::I32(30))), 0.3);
    assert_eq!(share(pred("a", GTE, ComparisionValue::I64(30))), 1.0 - 0.3);
    assert_eq!(share(pred("a", LTE, ComparisionValue::F64(250.0f64.to_bits()))), 1.0);
    assert_eq!(share(pred("a", GT, ComparisionValue::F32((-1.0f32).to_bits()))), 1.0);
    for v in -5..105 {
        let less = share(pred("a", LT, ComparisionValue::I32(v)));
        assert!((0.0..=1.0).contains(&less));
        assert!(less <= share(pred("a", LTE, ComparisionValue::I32(v + 1))));
        assert_eq!(share(pred("a", GT, ComparisionValue::I32(v))), 1.0 - less);
    }
    assert_eq!(share(pred("a", NE, ComparisionValue::I32(30))), 0.1);
    assert_eq!(share(pred("a", LT, ComparisionValue::String(name("x")))), 0.1);
    assert_eq!(share(pred("nowhere", EQ, ComparisionValue::I32(1))), 0.1);
    let both = vec![pred("b", EQ, ComparisionValue::I32(1)), same("a", "b")];
    assert_eq!(
        estimate_cardinality(&filter(both, scan("r")), &ctx),
        (500.0 * (0.25 * 0.1)) as usize
    );
    let few = vec![pred("a", LT, ComparisionValue::I32(0))];
    assert_eq!(estimate_cardinality(&filter(few, scan("r")), &ctx), 1);
    let nowhere = vec![pred("a", LT, ComparisionValue::I32(i32::MIN))];
    assert_eq!(estimate_cardinality(&filter(nowhere, scan("r")), &ctx), 1);
}

// ---- rewriting ----

#[test]
fn predicates_go_below_a_cross_join() {
    let ctx = catalog();
    let left = pred("a", GT, ComparisionValue::I32(3));
    let right = pred("c", LT, ComparisionValue::I32(5));
    let op = filter(vec![left.clone(), right.clone()], cross(scan("r"), scan("s")));
    let expected = cross(filter(vec![left], scan("r")), filter(vec![right], scan("s")));
    let got = optimize_rewrites(op, &ctx).unwrap();
    assert_eq!(shown(&got), shown(&expected));
}

#[test]
fn a_cross_join_on_a_condition_becomes_a_hash_join() {
    let ctx = catalog();
    let op = filter(vec![same("c", "a")], cross(scan("r"), scan("s")));
    let got = optimize_rewrites(op, &ctx).unwrap();
    assert_eq!(shown(&got), shown(&join(scan("r"), scan("s"), "a", "c")));
    let rest = pred("b", LT, ComparisionValue::Column(name("d")));
    let op = filter(vec![rest.clone(), same("a", "c")], cross(scan("r"), scan("s")));
    let got = optimize_rewrites(op, &ctx).unwrap();
    assert_eq!(
        shown(&got),
        shown(&filter(vec![rest], join(scan("r"), scan("s"), "a", "c")))
    );
}

#[test]
fn a_sort_of_sorted_rows_is_left_out() {
    let ctx = catalog();
    let specs = |c: &str, ascending: bool| vec![SortSpec { column_name: name(c), ascending }];
    assert!(sort_is_physically_ordered(&scan("r"), &specs("a", true), &ctx));
    assert!(!sort_is_physically_ordered(&scan("r"), &specs("a", false), &ctx));
    assert!(!sort_is_physically_ordered(&scan("r"), &specs("b", true), &ctx));
    let renamed = || project(&[("b", "x"), ("a", "y")], scan("r"));
    assert!(sort_is_physically_ordered(&renamed(), &specs("y", true), &ctx));
    assert!(!sort_is_physically_ordered(&renamed(), &specs("a", true), &ctx));
    let got = optimize_rewrites(sort(&[("y", true)], renamed()), &ctx).unwrap();
    assert_eq!(shown(&got), shown(&renamed()));
    let kept = || sort(&[("y", true), ("x", true)], renamed());
    let got = optimize_rewrites(kept(), &ctx).unwrap();
    assert_eq!(shown(&got), shown(&kept()));
}

#[test]
fn rewriting_twice_is_rewriting_once() {
    let ctx = catalog();
    let op = || {
        filter(
            vec![
                same("a", "c"),
                pred("d", NE, ComparisionValue::I32(1)),
                same("b", "d"),
                pred("a", LT, ComparisionValue::I32(9)),
            ],
            cross(scan("r"), scan("s")),
        )
    };
    let once = optimize_rewrites(op(), &ctx).unwrap();
    let twice = optimize_rewrites(optimize_rewrites(op(), &ctx).unwrap(), &ctx).unwrap();
    assert_eq!(shown(&once), shown(&twice));
    assert_eq!(records(&once, &ctx), records(&op(), &ctx));
}

#[test]
fn rewriting_needs_the_tables() {
    let op = filter(vec![same("a", "c")], cross(scan("r"), scan("missing")));
    let e = optimize_rewrites(op, &catalog());
    assert!(matches!(e, Err(DbError::TableNotFound(n)) if n == "missing"));
}

// ---- projections ----

#[test]
fn only_needed_columns_are_scanned() {
    let ctx = catalog();
    let op = project(&[("b", "x")], join(scan("r"), scan("s"), "a", "c"));
    let got = pushdown_projections(op, None, &ctx).unwrap();
    let expected = project(
        &[("b", "x")],
        join(scan("r"), project(&[("c", "c")], scan("s")), "a", "c"),
    );
    assert_eq!(shown(&got), shown(&expected));
    let all = pushdown_projections(scan("r"), None, &ctx).unwrap();
    assert_eq!(shown(&all), shown(&scan("r")));
    let some = pushdown_projections(scan("r"), Some(vec![name("b")]), &ctx).unwrap();
    assert_eq!(shown(&some), shown(&project(&[("b", "b")], scan("r"))));
    let none = pushdown_projections(scan("r"), Some(vec![name("zzz")]), &ctx).unwrap();
    assert_eq!(shown(&none), shown(&scan("r")));
}

// ---- sides ----

#[test]
fn the_smaller_side_goes_right() {
    let ctx = catalog();
    let kept = optimize_join_order(cross(scan("r"), scan("s")), &ctx).unwrap();
    assert_eq!(shown(&kept), shown(&cross(scan("r"), scan("s"))));
    let swapped = optimize_join_order(join(scan("s"), scan("r"), "c", "a"), &ctx).unwrap();
    let expected = project(
        &[("c", "c"), ("d", "d"), ("a", "a"), ("b", "b")],
        join(scan("r"), scan("s"), "a", "c"),
    );
    assert_eq!(shown(&swapped), shown(&expected));
    let op = join(scan("s"), scan("r"), "c", "a");
    assert_eq!(records(&swapped, &ctx), records(&op, &ctx));
}

// ---- orders ----

#[test]
fn cross_trees_are_taken_apart() {
    let tree = || cross(cross(scan("r"), scan("s")), scan("t"));
    assert!(is_pure_cross_tree(&tree()));
    assert!(!is_pure_cross_tree(&project(&[], scan("r"))));
    assert!(!is_pure_cross_tree(&cross(scan("r"), filter(Vec::new(), scan("s")))));
    assert_eq!(count_cross_leaves(&tree()), 3);
    let mut tables = Vec::new();
    flatten_crosses(tree(), &mut tables);
    assert_eq!(tables.len(), 3);
    assert_eq!(shown(&tables[0]), shown(&scan("r")));
    assert_eq!(shown(&tables[2]), shown(&scan("t")));
    assert!(!is_pure_cross_tree(&cross(scan("r"), join(scan("s"), scan("t"), "c", "e"))));
    assert!(joins_fit(&filter(Vec::new(), tree())));
}

fn cards(values: &[f64]) -> Vec<u64> {
    values.iter().map(|v| v.to_bits()).collect()
}

fn edges(n: usize, joined: &[(usize, usize)]) -> Vec<Vec<bool>> {
    let mut out = vec![vec![false; n]; n];
    for (i, j) in joined {
        out[*i][*j] = true;
        out[*j][*i] = true;
    }
    out
}

#[test]
fn the_cheapest_order_is_found() {
    assert_eq!(find_best_join_order(0, &Vec::new(), &Vec::new()), Vec::<usize>::new());
    assert_eq!(find_best_join_order(1, &edges(1, &[]), &cards(&[5.0])), vec![0]);
    let chain = edges(3, &[(0, 1), (1, 2)]);
    assert_eq!(find_best_join_order(3, &chain, &cards(&[1000.0, 100.0, 10.0])), vec![2, 1, 0]);
    let mut order = find_best_join_order(4, &edges(4, &[(0, 3), (3, 1)]), &cards(&[9.0; 4]));
    assert_eq!(*order.last().unwrap(), 2);
    order.sort();
    assert_eq!(order, vec![0, 1, 2, 3]);
}

#[test]
fn joins_are_put_in_order() {
    let ctx = catalog();
    let op = || {
        filter(
            vec![same("a", "e"), same("c", "f"), pred("d", EQ, ComparisionValue::I32(1))],
            cross(cross(scan("r"), scan("s")), scan("t")),
        )
    };
    let got = reorder_joins(op(), &ctx).unwrap();
    let expected = filter(
        vec![same("a", "e"), same("c", "f"), pred("d", EQ, ComparisionValue::I32(1))],
        cross(cross(scan("s"), scan("t")), scan("r")),
    );
    assert_eq!(shown(&got), shown(&expected));
    assert_eq!(records(&got, &ctx), records(&op(), &ctx));
    let two = filter(vec![same("a", "c")], cross(scan("r"), scan("s")));
    let kept = filter(vec![same("a", "c")], cross(scan("r"), scan("s")));
    assert_eq!(shown(&reorder_joins(two, &ctx).unwrap()), shown(&kept));
}

#[test]
fn heavy_operators_are_counted() {
    let op = sort(
        &[("a", true)],
        filter(Vec::new(), cross(join(scan("r"), scan("s"), "a", "c"), scan("t"))),
    );
    assert_eq!(max_concurrent_heavy_ops(&op), 3);
    assert_eq!(max_concurrent_heavy_ops(&project(&[], scan("r"))), 0);
}

// ---- known queries ----

fn infos(names: &[&str]) -> Vec<ColumnInfo> {
    names
        .iter()
        .map(|n| ColumnInfo { name: name(n), data_type: DataType::Int32 })
        .collect()
}

#[test]
fn known_tables_are_recognised() {
    assert_eq!(find_known_table(&infos(&["x", "c_custkey"])), Some(Known::Customer));
    assert_eq!(find_known_table(&infos(&["l_orderkey"])), Some(Known::Lineitem));
    assert_eq!(find_known_table(&infos(&["l1.l_orderkey", "l_orderkey"])), Some(Known::FirstLineitem));
    assert_eq!(find_known_table(&infos(&["cn.n_nationkey"])), Some(Known::CustomerNation));
    assert_eq!(find_known_table(&infos(&["sr.r_regionkey"])), Some(Known::SupplierRegion));
    assert_eq!(find_known_table(&infos(&["x"])), None);
}

#[test]
fn known_queries_have_a_fixed_order() {
    let building = || {
        vec![pred("c_mktsegment", EQ, ComparisionValue::String(name("BUILDING")))]
    };
    let known = vec![Some(Known::Lineitem), Some(Known::Customer), Some(Known::Orders)];
    assert_eq!(find_known_order(&known, &building()), Some(vec![1, 2, 0]));
    assert_eq!(find_known_order(&known, &Vec::new()), None);
    let other = vec![pred("c_mktsegment", EQ, ComparisionValue::String(name("FURNITURE")))];
    assert_eq!(find_known_order(&known, &other), None);
    let unknown = vec![Some(Known::Lineitem), None, Some(Known::Orders)];
    assert_eq!(find_known_order(&unknown, &building()), None);
    let europe = vec![pred("r_name", EQ, ComparisionValue::String(name("EUROPE")))];
    let five = vec![
        Some(Known::Region),
        Some(Known::Nation),
        Some(Known::Supplier),
        Some(Known::Partsupp),
        Some(Known::Part),
    ];
    assert_eq!(find_known_order(&five, &europe), Some(vec![4, 3, 2, 1, 0]));
}

#[test]
fn every_known_order_takes_each_table_once() {
    for query in benchmark_queries() {
        let known: Vec<Option<Known>> = query.order.iter().map(|k| Some(*k)).collect();
        let p = vec![pred(&query.column, EQ, ComparisionValue::String(query.text.clone()))];
        let order = find_known_order(&known, &p);
        if let Some(mut order) = order {
            order.sort();
            assert_eq!(order, (0..known.len()).collect::<Vec<_>>());
        }
    }
}

// ---- all together ----

#[test]
fn optimizing_keeps_the_records() {
    let ctx = catalog();
    let plans: Vec<fn() -> QueryOp> = vec![
        || {
            filter(
                vec![
                    same("a", "e"),
                    same("c", "f"),
                    pred("b", NE, ComparisionValue::I32(2)),
                    pred("a", GT, ComparisionValue::Column(name("d"))),
                ],
                cross(cross(scan("r"), scan("s")), scan("t")),
            )
        },
        || sort(&[("a", false)], filter(vec![same("b", "d")], cross(scan("s"), scan("r")))),
        || project(&[("f", "x"), ("f", "y"), ("c", "z")], cross(scan("t"), scan("s"))),
        || {
            project(
                &[("a", "a")],
                filter(
                    vec![same("a", "c"), same("c", "e")],
                    cross(scan("r"), cross(scan("s"), scan("t"))),
                ),
            )
        },
    ];
    for plan in plans {
        assert!(joins_fit(&plan()));
        let better = optimize(plan(), &ctx).unwrap();
        assert_eq!(records(&better, &ctx), records(&plan(), &ctx));
    }
}

#[test]
fn optimizing_a_projection_keeps_the_order_of_columns() {
    let ctx = catalog();
    let op = || {
        project(
            &[("f", "x"), ("a", "y"), ("c", "z")],
            filter(vec![same("a", "c"), same("c", "e")], cross(scan("r"), cross(scan("s"), scan("t")))),
        )
    };
    let names = |op: &QueryOp| {
        get_schema(op, &ctx).unwrap().into_iter().map(|c| c.name).collect::<Vec<_>>()
    };
    let better = optimize(op(), &ctx).unwrap();
    assert_eq!(names(&better), names(&op()));
    assert_eq!(names(&better), vec![name("x"), name("y"), name("z")]);
}

#[test]
fn schemas_follow_the_plan() {
    let ctx = catalog();
    let names = |op: &QueryOp| -> Result<Vec<String>, DbError> {
        Ok(get_schema(op, &ctx)?.into_iter().map(|c| c.name).collect())
    };
    let op = sort(&[("y", true)], project(&[("d", "y"), ("a", "x")], cross(scan("r"), scan("s"))));
    assert_eq!(names(&op).unwrap(), vec![name("y"), name("x")]);
    assert!(matches!(names(&scan("zz")), Err(DbError::TableNotFound(n)) if n == "zz"));
    let e = names(&project(&[("a", "x"), ("q", "y")], scan("r")));
    assert!(matches!(e, Err(DbError::ProjectColumn(n)) if n == "q"));
    let seen: HashMap<String, DataType> =
        get_schema(&scan("s"), &ctx).unwrap().into_iter().map(|c| (c.name, c.data_type)).collect();
    assert_eq!(seen[&name("d")], DataType::Int32);
}
