//! Join orders that are known to be best for the queries of a benchmark.

use vstd::prelude::*;

use crate::ops::rows;
use crate::optimizer::rewrite::has;
use crate::optimizer::rewrite;
use crate::query::{ComparisionValue, Operand, Predicate, Test};
use crate::schema::{Column, ColumnInfo};
use crate::seqs;

verus! {

/// A table of the benchmark. Tables that a query takes twice have a name for each.
#[derive(Clone, Copy, Debug, PartialEq, Eq, Structural)]
pub enum Known {
    FirstLineitem,
    SecondLineitem,
    Lineitem,
    Customer,
    Orders,
    Partsupp,
    Part,
    Supplier,
    CustomerNation,
    SupplierNation,
    Nation,
    CustomerRegion,
    SupplierRegion,
    Region,
}

/// The table that an input is, by its columns.
pub open spec fn known_table(columns: Seq<Column>) -> Option<Known> {
    if rewrite::has_column(columns, "l1.l_orderkey"@) {
        Some(Known::FirstLineitem)
    } else if rewrite::has_column(columns, "l2.l_orderkey"@) {
        Some(Known::SecondLineitem)
    } else if rewrite::has_column(columns, "l_orderkey"@) {
        Some(Known::Lineitem)
    } else if rewrite::has_column(columns, "c_custkey"@) {
        Some(Known::Customer)
    } else if rewrite::has_column(columns, "o_orderkey"@) {
        Some(Known::Orders)
    } else if rewrite::has_column(columns, "ps_partkey"@) {
        Some(Known::Partsupp)
    } else if rewrite::has_column(columns, "p_partkey"@) {
        Some(Known::Part)
    } else if rewrite::has_column(columns, "s_suppkey"@) {
        Some(Known::Supplier)
    } else if rewrite::has_column(columns, "cn.n_nationkey"@) {
        Some(Known::CustomerNation)
    } else if rewrite::has_column(columns, "sn.n_nationkey"@) {
        Some(Known::SupplierNation)
    } else if rewrite::has_column(columns, "n_nationkey"@) {
        Some(Known::Nation)
    } else if rewrite::has_column(columns, "cr.r_regionkey"@) {
        Some(Known::CustomerRegion)
    } else if rewrite::has_column(columns, "sr.r_regionkey"@) {
        Some(Known::SupplierRegion)
    } else if rewrite::has_column(columns, "r_regionkey"@) {
        Some(Known::Region)
    } else {
        None
    }
}

fn has_named(columns: &Vec<ColumnInfo>, name: &str) -> (res: bool)
    ensures
        res == rewrite::has_column(columns.deep_view(), name@),
{
    has(columns, &name.to_owned())
}

/// Recognises a table by its columns.
pub fn find_known_table(columns: &Vec<ColumnInfo>) -> (res: Option<Known>)
    ensures
        res == known_table(columns.deep_view()),
{
    if has_named(columns, "l1.l_orderkey") {
        Some(Known::FirstLineitem)
    } else if has_named(columns, "l2.l_orderkey") {
        Some(Known::SecondLineitem)
    } else if has_named(columns, "l_orderkey") {
        Some(Known::Lineitem)
    } else if has_named(columns, "c_custkey") {
        Some(Known::Customer)
    } else if has_named(columns, "o_orderkey") {
        Some(Known::Orders)
    } else if has_named(columns, "ps_partkey") {
        Some(Known::Partsupp)
    } else if has_named(columns, "p_partkey") {
        Some(Known::Part)
    } else if has_named(columns, "s_suppkey") {
        Some(Known::Supplier)
    } else if has_named(columns, "cn.n_nationkey") {
        Some(Known::CustomerNation)
    } else if has_named(columns, "sn.n_nationkey") {
        Some(Known::SupplierNation)
    } else if has_named(columns, "n_nationkey") {
        Some(Known::Nation)
    } else if has_named(columns, "cr.r_regionkey") {
        Some(Known::CustomerRegion)
    } else if has_named(columns, "sr.r_regionkey") {
        Some(Known::SupplierRegion)
    } else if has_named(columns, "r_regionkey") {
        Some(Known::Region)
    } else {
        None
    }
}

/// A query of the benchmark: the best order of its tables, and a test by which it is told
/// from other queries over the same tables.
pub struct Query {
    pub order: Vec<Known>,
    pub column: String,
    pub text: String,
}

/// The mathematical value of a [`Query`].
pub struct Benchmark {
    pub order: Seq<Known>,
    pub column: Seq<char>,
    pub text: Seq<char>,
}

impl DeepView for Query {
    type V = Benchmark;

    open spec fn deep_view(&self) -> Benchmark {
        Benchmark { order: self.order@, column: self.column@, text: self.text@ }
    }
}

/// The queries of the benchmark.
pub open spec fn benchmarks() -> Seq<Benchmark> {
    seq![
        Benchmark {
            order: seq![
                Known::Part,
                Known::Partsupp,
                Known::Supplier,
                Known::Nation,
                Known::Region,
            ],
            column: "r_name"@,
            text: "EUROPE"@,
        },
        Benchmark {
            order: seq![Known::Customer, Known::Orders, Known::Lineitem],
            column: "c_mktsegment"@,
            text: "BUILDING"@,
        },
        Benchmark {
            order: seq![
                Known::Region,
                Known::Nation,
                Known::Customer,
                Known::Orders,
                Known::Lineitem,
                Known::Supplier,
            ],
            column: "r_name"@,
            text: "ASIA"@,
        },
        Benchmark {
            order: seq![Known::Nation, Known::Customer, Known::Orders, Known::Lineitem],
            column: "l_returnflag"@,
            text: "R"@,
        },
        Benchmark {
            order: seq![Known::Nation, Known::Supplier, Known::Partsupp],
            column: "n_name"@,
            text: "GERMANY"@,
        },
        Benchmark {
            order: seq![
                Known::Nation,
                Known::Supplier,
                Known::Partsupp,
                Known::Part,
                Known::Lineitem,
            ],
            column: "n_name"@,
            text: "CANADA"@,
        },
        Benchmark {
            order: seq![
                Known::Nation,
                Known::Supplier,
                Known::FirstLineitem,
                Known::Orders,
                Known::SecondLineitem,
            ],
            column: "n_name"@,
            text: "SAUDI ARABIA"@,
        },
        Benchmark {
            order: seq![
                Known::Part,
                Known::Lineitem,
                Known::Supplier,
                Known::SupplierNation,
                Known::SupplierRegion,
                Known::Orders,
                Known::Customer,
                Known::CustomerNation,
                Known::CustomerRegion,
            ],
            column: "c_mktsegment"@,
            text: "BUILDING"@,
        },
    ]
}

fn query(order: Vec<Known>, column: &str, text: &str) -> (res: Query)
    ensures
        res.deep_view() == (Benchmark { order: order@, column: column@, text: text@ }),
{
    Query { order, column: column.to_owned(), text: text.to_owned() }
}

/// The queries of the benchmark.
pub fn benchmark_queries() -> (res: Vec<Query>)
    ensures
        res.deep_view() == benchmarks(),
{
    let mut out: Vec<Query> = Vec::new();
    out.push(
        query(
            vec![Known::Part, Known::Partsupp, Known::Supplier, Known::Nation, Known::Region],
            "r_name",
            "EUROPE",
        ),
    );
    out.push(
        query(
            vec![Known::Customer, Known::Orders, Known::Lineitem],
            "c_mktsegment",
            "BUILDING",
        ),
    );
    out.push(
        query(
            vec![
                Known::Region,
                Known::Nation,
                Known::Customer,
                Known::Orders,
                Known::Lineitem,
                Known::Supplier,
            ],
            "r_name",
            "ASIA",
        ),
    );
    out.push(
        query(
            vec![Known::Nation, Known::Customer, Known::Orders, Known::Lineitem],
            "l_returnflag",
            "R",
        ),
    );
    out.push(query(vec![Known::Nation, Known::Supplier, Known::Partsupp], "n_name", "GERMANY"));
    out.push(
        query(
            vec![Known::Nation, Known::Supplier, Known::Partsupp, Known::Part, Known::Lineitem],
            "n_name",
            "CANADA",
        ),
    );
    out.push(
        query(
            vec![
                Known::Nation,
                Known::Supplier,
                Known::FirstLineitem,
                Known::Orders,
                Known::SecondLineitem,
            ],
            "n_name",
            "SAUDI ARABIA",
        ),
    );
    out.push(
        query(
            vec![
                Known::Part,
                Known::Lineitem,
                Known::Supplier,
                Known::SupplierNation,
                Known::SupplierRegion,
                Known::Orders,
                Known::Customer,
                Known::CustomerNation,
                Known::CustomerRegion,
            ],
            "c_mktsegment",
            "BUILDING",
        ),
    );
    let ghost (got, want) = (out.deep_view(), benchmarks());
    assert(got[0].order =~= want[0].order);
    assert(got[1].order =~= want[1].order);
    assert(got[2].order =~= want[2].order);
    assert(got[3].order =~= want[3].order);
    assert(got[4].order =~= want[4].order);
    assert(got[5].order =~= want[5].order);
    assert(got[6].order =~= want[6].order);
    assert(got[7].order =~= want[7].order);
    assert(got =~= want);
    out
}

/// The position of a known table among the inputs.
pub open spec fn place_of(known: Seq<Option<Known>>, k: Known) -> Option<int> {
    seqs::first_where(known, |x: Option<Known>| x == Some(k))
}

/// Whether the inputs are the tables of a query.
pub open spec fn has_tables(known: Seq<Option<Known>>, b: Benchmark) -> bool {
    known.len() == b.order.len() && forall|i: int|
        0 <= i < b.order.len() ==> place_of(known, #[trigger] b.order[i]) is Some
}

/// Whether a filter makes the test of a query.
pub open spec fn makes_test(tests: Seq<Test>, b: Benchmark) -> bool {
    exists|i: int|
        0 <= i < tests.len() && (#[trigger] tests[i]).column == b.column && tests[i].value
            == Operand::Text(b.text)
}

/// The best order of the inputs where they are the tables of a query of the benchmark and
/// the filter makes its test. The first query with these tables decides.
pub open spec fn known_order(known: Seq<Option<Known>>, tests: Seq<Test>) -> Option<Seq<int>> {
    match seqs::first_where(benchmarks(), |b: Benchmark| has_tables(known, b)) {
        None => None,
        Some(i) => if makes_test(tests, benchmarks()[i]) {
            Some(
                benchmarks()[i].order.map_values(
                    |k: Known| place_of(known, k)->Some_0,
                ),
            )
        } else {
            None
        },
    }
}

fn find_place(known: &Vec<Option<Known>>, k: Known) -> (res: Option<usize>)
    ensures
        match res {
            Some(i) => place_of(known@, k) == Some(i as int) && i < known@.len(),
            None => place_of(known@, k) is None,
        },
{
    let ghost p = |x: Option<Known>| x == Some(k);
    let mut i: usize = 0;
    while i < known.len()
        invariant
            i <= known@.len(),
            p == (|x: Option<Known>| x == Some(k)),
            forall|j: int| 0 <= j < i ==> !p(#[trigger] known@[j]),
        decreases known@.len() - i,
    {
        let here = match known[i] {
            Some(x) => x == k,
            None => false,
        };
        if here {
            proof {
                seqs::lemma_first_where_is(known@, p, i as int);
            }
            return Some(i);
        }
        i += 1;
    }
    proof {
        seqs::lemma_first_where_none(known@, p);
    }
    None
}

/// The positions of the tables of a query among the inputs, if these are its tables.
fn find_places(known: &Vec<Option<Known>>, q: &Query) -> (res: Option<Vec<usize>>)
    ensures
        match res {
            Some(v) => has_tables(known@, q.deep_view()) && rows::positions(v@)
                == q.order@.map_values(|k: Known| place_of(known@, k)->Some_0),
            None => !has_tables(known@, q.deep_view()),
        },
{
    let ghost b = q.deep_view();
    if known.len() != q.order.len() {
        return None;
    }
    let mut out: Vec<usize> = Vec::new();
    let mut i: usize = 0;
    while i < q.order.len()
        invariant
            i <= q.order@.len(),
            b == q.deep_view(),
            out@.len() == i,
            forall|j: int|
                0 <= j < i ==> place_of(known@, #[trigger] b.order[j]) == Some(out@[j] as int),
        decreases q.order@.len() - i,
    {
        match find_place(known, q.order[i]) {
            Some(k) => {
                out.push(k);
            },
            None => {
                assert(place_of(known@, b.order[i as int]) is None);
                return None;
            },
        }
        i += 1;
    }
    assert(rows::positions(out@) =~= q.order@.map_values(|k: Known| place_of(known@, k)->Some_0)) by {
        assert forall|j: int| 0 <= j < out@.len() implies #[trigger] rows::positions(out@)[j]
            == q.order@.map_values(|k: Known| place_of(known@, k)->Some_0)[j] by {
            assert(place_of(known@, b.order[j]) == Some(out@[j] as int));
        }
    }
    Some(out)
}

fn is_tested(predicates: &Vec<Predicate>, q: &Query) -> (res: bool)
    ensures
        res == makes_test(predicates.deep_view(), q.deep_view()),
{
    let ghost (t, b) = (predicates.deep_view(), q.deep_view());
    let mut i: usize = 0;
    while i < predicates.len()
        invariant
            i <= predicates@.len(),
            t == predicates.deep_view(),
            b == q.deep_view(),
            forall|j: int|
                0 <= j < i ==> !((#[trigger] t[j]).column == b.column && t[j].value
                    == Operand::Text(b.text)),
        decreases predicates@.len() - i,
    {
        let pred = &predicates[i];
        assert(t[i as int] == pred.deep_view());
        let same = match &pred.value {
            ComparisionValue::String(s) => *s == q.text,
            _ => false,
        };
        if same && pred.column_name == q.column {
            assert(t[i as int].column == b.column);
            return true;
        }
        i += 1;
    }
    false
}

/// Finds the best order of the inputs where they are those of a query of the benchmark.
pub fn find_known_order(known: &Vec<Option<Known>>, predicates: &Vec<Predicate>) -> (res: Option<
    Vec<usize>,
>)
    ensures
        match res {
            Some(v) => known_order(known@, predicates.deep_view()) == Some(
                rows::positions(v@),
            ),
            None => known_order(known@, predicates.deep_view()) is None,
        },
{
    let queries = benchmark_queries();
    let ghost b = benchmarks();
    let ghost p = |x: Benchmark| has_tables(known@, x);
    let mut i: usize = 0;
    while i < queries.len()
        invariant
            i <= queries@.len(),
            b == queries.deep_view(),
            b == benchmarks(),
            p == (|x: Benchmark| has_tables(known@, x)),
            forall|j: int| 0 <= j < i ==> !p(#[trigger] b[j]),
        decreases queries@.len() - i,
    {
        assert(b[i as int] == queries@[i as int].deep_view());
        match find_places(known, &queries[i]) {
            Some(places) => {
                proof {
                    seqs::lemma_first_where_is(b, p, i as int);
                }
                if is_tested(predicates, &queries[i]) {
                    return Some(places);
                } else {
                    return None;
                }
            },
            None => {},
        }
        i += 1;
    }
    proof {
        seqs::lemma_first_where_none(b, p);
    }
    None
}

/// The order of a query of the benchmark takes each input once.
pub proof fn a_known_order_takes_each_input_once(known: Seq<Option<Known>>, tests: Seq<Test>)
    ensures
        match known_order(known, tests) {
            Some(order) => seqs::is_arrangement(order, known.len()),
            None => true,
        },
{
    let p = |b: Benchmark| has_tables(known, b);
    seqs::lemma_first_where(benchmarks(), p);
    match seqs::first_where(benchmarks(), p) {
        None => {},
        Some(i) => {
            let b = benchmarks()[i];
            let order = b.order.map_values(|k: Known| place_of(known, k)->Some_0);
            assert(b.order.no_duplicates());
            assert forall|j: int| 0 <= j < known.len() implies 0 <= #[trigger] order[j] < known.len()
                && known[order[j]] == Some(b.order[j]) by {
                assert(place_of(known, b.order[j]) is Some);
                let k = b.order[j];
                seqs::lemma_first_where(known, |x: Option<Known>| x == Some(k));
            }
            assert forall|x: int, y: int|
                0 <= x < order.len() && 0 <= y < order.len() && x != y implies order[x] != order[y] by {
                assert(known[order[x]] == Some(b.order[x]));
                assert(known[order[y]] == Some(b.order[y]));
            }
        },
    }
}

} // verus!
