//! Laws of the choices of the optimizer: what tables are known, how rows are estimated, and in
//! which order tables are joined.

use vstd::prelude::*;
use vstd::string::*;

use crate::float;
use crate::optimizer::benchmark::{Benchmark, Known};
use crate::optimizer::benchmark;
use crate::optimizer::estimate::{ONE, TENTH, UNKNOWN_ROWS};
use crate::optimizer::estimate;
use crate::optimizer::join_order::{Best, CROSS_PENALTY};
use crate::optimizer::join_order;
use crate::optimizer::join_order_laws;
use crate::optimizer::reorder;
use crate::optimizer::rewrite;
use crate::query::{ComparisionOperator, Operand, Plan, Range, Stat, Table, Test};
use crate::query;
use crate::row;
use crate::schema::Column;
use crate::seqs;
use crate::value::{Val, F64_INF};
use crate::value;

verus! {

// ---- known tables and queries ----

/// The column by which a table of the benchmark is known.
pub open spec fn key_column(k: Known) -> Seq<char> {
    match k {
        Known::FirstLineitem => "l1.l_orderkey"@,
        Known::SecondLineitem => "l2.l_orderkey"@,
        Known::Lineitem => "l_orderkey"@,
        Known::Customer => "c_custkey"@,
        Known::Orders => "o_orderkey"@,
        Known::Partsupp => "ps_partkey"@,
        Known::Part => "p_partkey"@,
        Known::Supplier => "s_suppkey"@,
        Known::CustomerNation => "cn.n_nationkey"@,
        Known::SupplierNation => "sn.n_nationkey"@,
        Known::Nation => "n_nationkey"@,
        Known::CustomerRegion => "cr.r_regionkey"@,
        Known::SupplierRegion => "sr.r_regionkey"@,
        Known::Region => "r_regionkey"@,
    }
}

/// The place of a table among those of the benchmark, by which it is recognised before others.
pub open spec fn place_in_line(k: Known) -> int {
    match k {
        Known::FirstLineitem => 0,
        Known::SecondLineitem => 1,
        Known::Lineitem => 2,
        Known::Customer => 3,
        Known::Orders => 4,
        Known::Partsupp => 5,
        Known::Part => 6,
        Known::Supplier => 7,
        Known::CustomerNation => 8,
        Known::SupplierNation => 9,
        Known::Nation => 10,
        Known::CustomerRegion => 11,
        Known::SupplierRegion => 12,
        Known::Region => 13,
    }
}

/// A table of the benchmark is known by its key column, and an input without any such column is
/// not known. Where an input has several, as no table does, the first of them in the order in
/// which the tables are named decides.
pub proof fn tables_are_known_by_their_keys(columns: Seq<Column>, other: Known)
    ensures
        match benchmark::known_table(columns) {
            Some(k) => rewrite::has_column(columns, key_column(k)) && (place_in_line(other)
                < place_in_line(k) ==> !rewrite::has_column(columns, key_column(other))),
            None => !rewrite::has_column(columns, key_column(other)),
        },
        (forall|k: Known| #[trigger] rewrite::has_column(columns, key_column(k)) ==> k == other)
            && rewrite::has_column(columns, key_column(other)) ==> benchmark::known_table(columns)
            == Some(other),
{
    if (forall|k: Known| #[trigger] rewrite::has_column(columns, key_column(k)) ==> k == other)
        && rewrite::has_column(columns, key_column(other)) {
        let k = benchmark::known_table(columns);
        if k is None {
            assert(!rewrite::has_column(columns, key_column(other)));
        } else {
            assert(rewrite::has_column(columns, key_column(k->Some_0)));
        }
    }
}

/// Whether inputs are tables, each once.
pub open spec fn inputs_are(known: Seq<Option<Known>>, tables: Seq<Known>) -> bool {
    &&& known.len() == tables.len()
    &&& forall|i: int| 0 <= i < tables.len() ==> known.contains(Some(#[trigger] tables[i]))
    &&& forall|i: int|
        0 <= i < known.len() ==> (#[trigger] known[i] matches Some(k) && tables.contains(k))
}

/// Whether a filter asks that a column equal a text, or compares it with the text.
pub open spec fn asks_for(tests: Seq<Test>, column: Seq<char>, t: Seq<char>) -> bool {
    exists|i: int|
        0 <= i < tests.len() && (#[trigger] tests[i]).column == column && tests[i].value
            == Operand::Text(t)
}

/// Whether inputs are joined in the order of tables.
pub open spec fn joined_in(known: Seq<Option<Known>>, tests: Seq<Test>, tables: Seq<Known>) -> bool {
    benchmark::known_order(known, tests) matches Some(order) && order.len() == tables.len()
        && forall|i: int|
        0 <= i < tables.len() ==> 0 <= #[trigger] order[i] < known.len() && known[order[i]] == Some(
            tables[i],
        )
}

proof fn lemma_place(known: Seq<Option<Known>>, k: Known)
    ensures
        match benchmark::place_of(known, k) {
            Some(i) => 0 <= i < known.len() && known[i] == Some(k),
            None => !known.contains(Some(k)),
        },
{
    let p = |x: Option<Known>| x == Some(k);
    seqs::lemma_first_where(known, p);
    if benchmark::place_of(known, k) is None && known.contains(Some(k)) {
        let i = choose|i: int| 0 <= i < known.len() && known[i] == Some(k);
        assert(!p(known[i]));
    }
}

/// A table that is not among the tables of a query is not among inputs that are these.
proof fn lemma_absent(known: Seq<Option<Known>>, tables: Seq<Known>, b: Benchmark, i: int)
    requires
        inputs_are(known, tables),
        0 <= i < b.order.len(),
        !tables.contains(b.order[i]),
    ensures
        !benchmark::has_tables(known, b),
{
    lemma_place(known, b.order[i]);
    if known.contains(Some(b.order[i])) {
        let j = choose|j: int| 0 <= j < known.len() && known[j] == Some(b.order[i]);
        assert(known[j] matches Some(k) && tables.contains(k));
    }
}

proof fn lemma_query(known: Seq<Option<Known>>, tests: Seq<Test>, n: int)
    requires
        0 <= n < 8,
        inputs_are(known, benchmark::benchmarks()[n].order),
        benchmark::makes_test(tests, benchmark::benchmarks()[n]),
    ensures
        joined_in(known, tests, benchmark::benchmarks()[n].order),
{
    let all = benchmark::benchmarks();
    let b = all[n];
    let p = |x: Benchmark| benchmark::has_tables(known, x);
    assert(p(b)) by {
        assert forall|i: int| 0 <= i < b.order.len() implies benchmark::place_of(
            known,
            #[trigger] b.order[i],
        ) is Some by {
            lemma_place(known, b.order[i]);
            assert(known.contains(Some(b.order[i])));
        }
    }
    assert forall|j: int| 0 <= j < n implies !p(#[trigger] all[j]) by {
        if all[j].order.len() == b.order.len() {
            if j == 0 {
                assert(all[0].order[4] == Known::Region);
                assert(!b.order.contains(Known::Region));
                lemma_absent(known, b.order, all[0], 4);
            } else if j == 1 {
                assert(all[1].order[0] == Known::Customer);
                assert(!b.order.contains(Known::Customer));
                lemma_absent(known, b.order, all[1], 0);
            } else {
                assert(j == 5);
                assert(all[5].order[3] == Known::Part);
                assert(!b.order.contains(Known::Part));
                lemma_absent(known, b.order, all[5], 3);
            }
        }
    }
    seqs::lemma_first_where_is(all, p, n);
    let order = benchmark::known_order(known, tests)->Some_0;
    assert forall|i: int| 0 <= i < b.order.len() implies 0 <= #[trigger] order[i] < known.len()
        && known[order[i]] == Some(b.order[i]) by {
        lemma_place(known, b.order[i]);
        assert(benchmark::place_of(known, b.order[i]) is Some);
    }
}

/// The queries of the benchmark are joined in their own orders, in whatever order their tables
/// stand in the query.
pub proof fn queries_of_the_benchmark_are_joined_in_their_orders(
    known: Seq<Option<Known>>,
    tests: Seq<Test>,
)
    ensures
        ({
            let tables = seq![
                Known::Part,
                Known::Partsupp,
                Known::Supplier,
                Known::Nation,
                Known::Region,
            ];
            inputs_are(known, tables) && asks_for(tests, "r_name"@, "EUROPE"@) ==> joined_in(
                known,
                tests,
                tables,
            )
        }),
        ({
            let tables = seq![Known::Customer, Known::Orders, Known::Lineitem];
            inputs_are(known, tables) && asks_for(tests, "c_mktsegment"@, "BUILDING"@) ==> joined_in(
                known,
                tests,
                tables,
            )
        }),
        ({
            let tables = seq![
                Known::Region,
                Known::Nation,
                Known::Customer,
                Known::Orders,
                Known::Lineitem,
                Known::Supplier,
            ];
            inputs_are(known, tables) && asks_for(tests, "r_name"@, "ASIA"@) ==> joined_in(
                known,
                tests,
                tables,
            )
        }),
        ({
            let tables = seq![Known::Nation, Known::Customer, Known::Orders, Known::Lineitem];
            inputs_are(known, tables) && asks_for(tests, "l_returnflag"@, "R"@) ==> joined_in(
                known,
                tests,
                tables,
            )
        }),
        ({
            let tables = seq![Known::Nation, Known::Supplier, Known::Partsupp];
            inputs_are(known, tables) && asks_for(tests, "n_name"@, "GERMANY"@) ==> joined_in(
                known,
                tests,
                tables,
            )
        }),
        ({
            let tables = seq![
                Known::Nation,
                Known::Supplier,
                Known::Partsupp,
                Known::Part,
                Known::Lineitem,
            ];
            inputs_are(known, tables) && asks_for(tests, "n_name"@, "CANADA"@) ==> joined_in(
                known,
                tests,
                tables,
            )
        }),
        ({
            let tables = seq![
                Known::Nation,
                Known::Supplier,
                Known::FirstLineitem,
                Known::Orders,
                Known::SecondLineitem,
            ];
            inputs_are(known, tables) && asks_for(tests, "n_name"@, "SAUDI ARABIA"@) ==> joined_in(
                known,
                tests,
                tables,
            )
        }),
        ({
            let tables = seq![
                Known::Part,
                Known::Lineitem,
                Known::Supplier,
                Known::SupplierNation,
                Known::SupplierRegion,
                Known::Orders,
                Known::Customer,
                Known::CustomerNation,
                Known::CustomerRegion,
            ];
            inputs_are(known, tables) && asks_for(tests, "c_mktsegment"@, "BUILDING"@) ==> joined_in(
                known,
                tests,
                tables,
            )
        }),
{
    let all = benchmark::benchmarks();
    assert forall|n: int| 0 <= n < 8 && inputs_are(known, (#[trigger] all[n]).order) && asks_for(
        tests,
        all[n].column,
        all[n].text,
    ) implies joined_in(known, tests, all[n].order) by {
        lemma_query(known, tests, n);
    }
    assert(all[0].text == "EUROPE"@);
    assert(all[1].text == "BUILDING"@);
    assert(all[2].text == "ASIA"@);
    assert(all[3].text == "R"@);
    assert(all[4].text == "GERMANY"@);
    assert(all[5].text == "CANADA"@);
    assert(all[6].text == "SAUDI ARABIA"@);
    assert(all[7].text == "BUILDING"@);
}

/// An order that is known takes the tables of a query of the benchmark, whose test the filter
/// makes. Other inputs, and filters without the test, have no known order.
pub proof fn only_queries_of_the_benchmark_have_known_orders(
    known: Seq<Option<Known>>,
    tests: Seq<Test>,
)
    ensures
        benchmark::known_order(known, tests) is Some ==> exists|i: int|
            {
                &&& 0 <= i < benchmark::benchmarks().len()
                &&& benchmark::has_tables(known, #[trigger] benchmark::benchmarks()[i])
                &&& asks_for(
                    tests,
                    benchmark::benchmarks()[i].column,
                    benchmark::benchmarks()[i].text,
                )
            },
        tests.len() == 0 ==> benchmark::known_order(known, tests) is None,
{
    let p = |b: Benchmark| benchmark::has_tables(known, b);
    seqs::lemma_first_where(benchmark::benchmarks(), p);
    match seqs::first_where(benchmark::benchmarks(), p) {
        Some(i) => {
            assert(p(benchmark::benchmarks()[i]));
        },
        None => {},
    }
}

// ---- the order of joins ----

/// A join with a condition gives as many rows as its larger input, and one without all pairs. Each
/// costs the rows that it gives, and one without a condition a penalty besides. So a condition
/// makes no more rows and no greater cost.
pub proof fn a_condition_makes_a_join_no_dearer(
    b: Best,
    s: Set<int>,
    t: int,
    edges: Seq<Seq<bool>>,
    others: Seq<Seq<bool>>,
    cards: Seq<u64>,
)
    requires
        join_order::connected(s, t, edges),
        !join_order::connected(s, t, others),
        ONE <= b.card <= F64_INF,
        ONE <= cards[t] <= F64_INF,
        b.cost <= F64_INF,
    ensures
        ({
            let (x, y) = (
                join_order::extended(b, s, t, edges, cards),
                join_order::extended(b, s, t, others, cards),
            );
            &&& x.last == t && y.last == t
            &&& x.card <= y.card
            &&& x.cost <= y.cost
            &&& b.cost <= x.cost
            &&& x.card == b.card || x.card == cards[t]
            &&& b.card <= x.card && cards[t] <= x.card
            &&& CROSS_PENALTY <= y.cost
            &&& y.card == float::f64_product(b.card, cards[t])
            &&& x.cost == float::f64_total(b.cost, x.card)
            &&& y.cost == float::f64_total(b.cost, float::f64_total(y.card, CROSS_PENALTY))
        }),
{
    let card = float::f64_greater(b.card, cards[t]);
    let all = float::f64_product(b.card, cards[t]);
    float::a_product_is_not_less(b.card, cards[t]);
    float::a_sum_is_not_less(b.cost, card);
    float::a_sum_is_not_less(all, CROSS_PENALTY);
    let more = float::f64_total(all, CROSS_PENALTY);
    float::a_sum_is_not_less(b.cost, more);
    lemma_totals(b.cost, card, more);
}

proof fn lemma_totals(a: u64, x: u64, y: u64)
    requires
        a <= F64_INF,
        x <= y <= F64_INF,
    ensures
        float::f64_total(a, x) <= float::f64_total(a, y),
{
    float::sums_keep_the_order(x, y, a);
    lemma_sum_in_turn(a, x);
    lemma_sum_in_turn(a, y);
}

/// Numbers that are not negative have the same sum in either order.
proof fn lemma_sum_in_turn(a: u64, b: u64)
    requires
        a <= F64_INF,
        b <= F64_INF,
    ensures
        float::f64_total(a, b) == float::f64_total(b, a),
{
}

proof fn lemma_later_is_dearer(
    s: Set<int>,
    from: int,
    t: int,
    edges: Seq<Seq<bool>>,
    cards: Seq<u64>,
)
    requires
        s.finite(),
        s.contains(t),
        0 <= from <= t < cards.len(),
        forall|x: int|
            s.contains(x) ==> !value::f64_is_nan(
                (#[trigger] join_order::ending_with(s, x, edges, cards)).cost,
            ),
        join_order::best_from(s, from, edges, cards) matches Some(b) && b.last < t,
    ensures
        float::f64_less(
            join_order::best_from(s, from, edges, cards)->Some_0.cost,
            join_order::ending_with(s, t, edges, cards).cost,
        ),
    decreases cards.len() - from,
{
    let b = join_order::best_from(s, from, edges, cards)->Some_0;
    join_order::lemma_best_from(s, from, edges, cards);
    join_order::lemma_best_from(s, from + 1, edges, cards);
    if s.contains(from) {
        assert(join_order::ending_with(s, from, edges, cards).last == from);
    }
    if s.contains(from) && b.last == from {
        let here = join_order::ending_with(s, from, edges, cards);
        let later = join_order::best_from(s, from + 1, edges, cards);
        assert(here.last == from);
        join_order::lemma_none_is_cheaper(s, from + 1, t, edges, cards);
        let l = later->Some_0;
        assert(!value::f64_is_nan(join_order::ending_with(s, l.last, edges, cards).cost));
        assert(!value::f64_is_nan(join_order::ending_with(s, t, edges, cards).cost));
        assert(l.last >= from + 1);
        assert(float::f64_less(here.cost, l.cost));
    } else {
        lemma_later_is_dearer(s, from + 1, t, edges, cards);
    }
}

/// Of several ways that cost the same, the one whose last table stands last is taken: any way
/// that ends with a later table costs more. All costs are numbers.
pub proof fn of_equal_ways_the_later_is_taken(
    s: Set<int>,
    t: int,
    edges: Seq<Seq<bool>>,
    cards: Seq<u64>,
)
    requires
        join_order::some_tables(s, cards.len()),
        s.contains(t),
        t > join_order::best(s, edges, cards).last,
        forall|x: int|
            s.contains(x) ==> !value::f64_is_nan(
                (#[trigger] join_order::ending_with(s, x, edges, cards)).cost,
            ),
    ensures
        float::f64_less(
            join_order::best(s, edges, cards).cost,
            join_order::ending_with(s, t, edges, cards).cost,
        ),
{
    join_order::lemma_best(s, edges, cards);
    lemma_later_is_dearer(s, 0, t, edges, cards);
}

/// The chosen order costs what the cheapest way costs: joining the tables in this order is that
/// way.
pub proof fn the_order_is_the_cheapest_way(s: Set<int>, edges: Seq<Seq<bool>>, cards: Seq<u64>)
    requires
        join_order::some_tables(s, cards.len()),
    ensures
        join_order::order_of(s, edges, cards).len() > 0,
        join_order_laws::way(join_order::order_of(s, edges, cards), edges, cards) == join_order::best(
            s,
            edges,
            cards,
        ),
    decreases s.len(),
{
    join_order::lemma_best(s, edges, cards);
    let last = join_order::best(s, edges, cards).last;
    let rest = s.remove(last);
    let order = join_order::order_of(s, edges, cards);
    let before = join_order::order_of(rest, edges, cards);
    join_order::lemma_order_of(s, edges, cards);
    join_order::lemma_order_of(rest, edges, cards);
    assert(order == before.push(last));
    assert(order.drop_last() =~= before);
    if rest.len() == 0 {
        assert(before.len() == 0);
        assert(order[0] == last);
    } else {
        assert(join_order::some_tables(rest, cards.len()));
        the_order_is_the_cheapest_way(rest, edges, cards);
        assert(before.to_set() =~= rest);
    }
}

/// Two inputs have a join condition where a test asks that a column of one equal a column of the
/// other, in either order; no input has one with itself.
pub proof fn inputs_are_joined_on_equal_columns(
    columns: Seq<Seq<Column>>,
    tests: Seq<Test>,
    i: int,
    j: int,
)
    requires
        0 <= i < columns.len(),
        0 <= j < columns.len(),
    ensures
        reorder::join_edges(columns, tests)[i][j] == reorder::join_edges(columns, tests)[j][i],
        !reorder::join_edges(columns, tests)[i][i],
        i != j ==> (reorder::join_edges(columns, tests)[i][j] <==> exists|k: int|
            0 <= k < tests.len() && (#[trigger] tests[k]).operator == ComparisionOperator::EQ && (
            tests[k].value matches Operand::Column(other) && ((rewrite::has_column(
                columns[i],
                tests[k].column,
            ) && rewrite::has_column(columns[j], other)) || (rewrite::has_column(
                columns[j],
                tests[k].column,
            ) && rewrite::has_column(columns[i], other))))),
{
    let (a, b) = (columns[i], columns[j]);
    if reorder::some_equi_join(tests, a, b) {
        let k = choose|k: int| 0 <= k < tests.len() && rewrite::is_equi_join(#[trigger] tests[k], a, b);
        assert(rewrite::is_equi_join(tests[k], b, a));
    }
    if reorder::some_equi_join(tests, b, a) {
        let k = choose|k: int| 0 <= k < tests.len() && rewrite::is_equi_join(#[trigger] tests[k], b, a);
        assert(rewrite::is_equi_join(tests[k], a, b));
    }
    if exists|k: int|
        0 <= k < tests.len() && (#[trigger] tests[k]).operator == ComparisionOperator::EQ && (
        tests[k].value matches Operand::Column(other) && ((rewrite::has_column(a, tests[k].column)
            && rewrite::has_column(b, other)) || (rewrite::has_column(b, tests[k].column)
            && rewrite::has_column(a, other)))) {
        let k = choose|k: int|
            0 <= k < tests.len() && (#[trigger] tests[k]).operator == ComparisionOperator::EQ && (
            tests[k].value matches Operand::Column(other) && ((rewrite::has_column(a, tests[k].column)
                && rewrite::has_column(b, other)) || (rewrite::has_column(b, tests[k].column)
                && rewrite::has_column(a, other))));
        assert(rewrite::is_equi_join(tests[k], a, b));
    }
}

/// Tests of columns of other inputs do not count for an input, and a test of its own columns
/// takes its share of the rows.
pub proof fn an_input_counts_its_own_tests(
    tests: Seq<Test>,
    test: Test,
    input: Plan,
    columns: Seq<Column>,
    tables: Seq<Table>,
)
    ensures
        reorder::own_share(Seq::empty(), input, columns, tables) == ONE,
        !rewrite::has_column(columns, test.column) ==> reorder::own_share(
            tests.push(test),
            input,
            columns,
            tables,
        ) == reorder::own_share(tests, input, columns, tables),
        rewrite::has_column(columns, test.column) && !(test.value is Column) ==> reorder::own_share(
            tests.push(test),
            input,
            columns,
            tables,
        ) == float::f64_product(
            reorder::own_share(tests, input, columns, tables),
            estimate::selectivity(test, input, tables),
        ),
        test.value matches Operand::Column(other) ==> rewrite::has_column(columns, test.column) ==> (
        reorder::own_share(tests.push(test), input, columns, tables) == if rewrite::has_column(
            columns,
            other,
        ) {
            float::f64_product(reorder::own_share(tests, input, columns, tables), TENTH)
        } else {
            reorder::own_share(tests, input, columns, tables)
        }),
{
    assert(tests.push(test).drop_last() =~= tests);
    assert(tests.push(test).last() == test);
}

// ---- estimates ----

/// The last statistic of its kind counts, and the others do not change it.
pub proof fn the_last_statistic_of_a_kind_counts(stats: Seq<Stat>, s: Stat)
    ensures
        estimate::density_of(Seq::empty()) is None,
        estimate::range_of(Seq::empty()) is None,
        estimate::cardinality_of(Seq::empty()) is None,
        estimate::density_of(stats.push(s)) == match s {
            Stat::Density(d) => Some(d),
            _ => estimate::density_of(stats),
        },
        estimate::range_of(stats.push(s)) == match s {
            Stat::Range(r) => Some(r),
            _ => estimate::range_of(stats),
        },
        estimate::cardinality_of(stats.push(s)) == match s {
            Stat::Cardinality(c) => Some(c),
            _ => estimate::cardinality_of(stats),
        },
{
    assert(stats.push(s).drop_last() =~= stats);
    assert(stats.push(s).last() == s);
}

/// A number is estimated with as the number that it is, and a literal as its value; texts are
/// no numbers.
pub proof fn numbers_are_taken_for_what_they_are(v: Val, o: Operand)
    ensures
        v matches Val::Int32(x) ==> (estimate::number_of(v) matches Some(n) && float::magnitude_bits(n)
            < F64_INF && float::finite_value(n) == x * float::units()),
        v matches Val::Float64(x) ==> estimate::number_of(v) == Some(x),
        v matches Val::Float32(x) ==> x < value::F32_INF ==> (estimate::number_of(v) matches Some(n)
            && float::finite_value(n) == float::mag32(x as nat) * vstd::arithmetic::power2::pow2(925)),
        v matches Val::Int64(x) ==> -0x20_0000_0000_0000 <= x <= 0x20_0000_0000_0000 ==> (
        estimate::number_of(v) matches Some(n) && float::magnitude_bits(n) < F64_INF
            && float::finite_value(n) == x * float::units()),
        v is Text ==> estimate::number_of(v) is None,
        !(o is Column) ==> estimate::operand_number(o) == estimate::number_of(row::literal_val(o)),
        o is Column ==> estimate::operand_number(o) is None,
{
    match v {
        Val::Int32(x) => float::an_integer_becomes_the_number_that_it_is(x as int),
        Val::Float32(x) => float::a_binary32_number_is_widened_to_itself(x),
        Val::Int64(x) => {
            if -0x20_0000_0000_0000 <= x <= 0x20_0000_0000_0000 {
                float::an_integer_becomes_the_number_that_it_is(x as int);
            }
        },
        _ => {},
    }
}

/// A table has as many rows as the cardinality of its first column says, where no density above
/// zero is known.
pub proof fn a_table_has_the_rows_of_its_cardinality(t: Table, stats: Seq<Stat>, c: u64)
    requires
        t.columns.len() > 0,
        t.columns[0].stats == Some(stats),
        estimate::cardinality_of(stats) == Some(c),
        c <= usize::MAX,
        estimate::density_of(stats) matches Some(d) ==> value::f32_is_nan(d) || value::f32_rank(d)
            <= 0,
    ensures
        estimate::table_rows_estimate(t) == c,
{
}

/// With the same density, a greater cardinality never makes fewer rows.
pub proof fn rows_follow_the_cardinality(
    t: Table,
    u: Table,
    stats: Seq<Stat>,
    others: Seq<Stat>,
    c: u64,
    e: u64,
    d: u32,
)
    requires
        t.columns.len() > 0,
        u.columns.len() > 0,
        t.columns[0].stats == Some(stats),
        u.columns[0].stats == Some(others),
        estimate::cardinality_of(stats) == Some(c),
        estimate::cardinality_of(others) == Some(e),
        estimate::density_of(stats) == Some(d),
        estimate::density_of(others) == Some(d),
        0 < d < value::F32_INF,
        c <= e,
    ensures
        estimate::table_rows_estimate(t) <= estimate::table_rows_estimate(u),
{
    float::integers_keep_their_order_as_numbers(c as int, e as int);
    float::integers_keep_their_order_as_numbers(e as int, e as int);
    float::a_binary32_number_is_widened_to_itself(d);
    let w = float::f32_to_f64(d);
    float::an_integer_becomes_the_nearest_number(c as int, 0);
    float::an_integer_becomes_the_nearest_number(e as int, 0);
    let (x, y) = (float::int_to_f64(c as int), float::int_to_f64(e as int));
    float::widened_numbers_stay_above_zero(d);
    float::lemma_finite_quotient(x, w);
    float::lemma_finite_quotient(y, w);
    float::integers_are_not_negative_as_numbers(c as int);
    float::integers_are_not_negative_as_numbers(e as int);
    float::quotients_keep_the_order(x, y, w);
    float::integer_parts_keep_the_order(float::f64_quotient(x, w), float::f64_quotient(y, w));
}

/// A filter without tests leaves the estimate as it is, but for at least one row.
pub proof fn a_filter_without_tests_keeps_the_estimate(child: Plan, tables: Seq<Table>)
    requires
        estimate::cardinality(child, tables) <= 0x20_0000_0000_0000,
    ensures
        ({
            let n = estimate::cardinality(child, tables);
            estimate::cardinality(Plan::Filter(Seq::empty(), Box::new(child)), tables) == if n == 0 {
                1
            } else {
                n
            }
        }),
{
    let n = estimate::cardinality(child, tables);
    let x = float::int_to_f64(n as int);
    float::integers_are_not_negative_as_numbers(n as int);
    float::an_integer_becomes_the_number_that_it_is(n as int);
    assert(estimate::tests_share(Seq::empty(), child, tables) == ONE);
    float::a_number_times_one_is_itself(x);
    float::an_integer_has_itself_as_its_integer_part(n as int);
    float::an_integer_has_itself_as_its_integer_part(1);
    float::one_is_its_pattern();
    if n >= 1 {
        float::integers_keep_their_order_as_numbers(1, n as int);
    }
}

/// The share of tests is the product of their shares, and a comparison of two columns keeps a
/// tenth.
pub proof fn each_test_takes_its_share(
    tests: Seq<Test>,
    test: Test,
    plan: Plan,
    tables: Seq<Table>,
)
    ensures
        estimate::tests_share(Seq::empty(), plan, tables) == ONE,
        estimate::tests_share(tests.push(test), plan, tables) == float::f64_product(
            estimate::tests_share(tests, plan, tables),
            if test.value is Column {
                TENTH
            } else {
                estimate::selectivity(test, plan, tables)
            },
        ),
{
    assert(tests.push(test).drop_last() =~= tests);
    assert(tests.push(test).last() == test);
}

/// What is known of nothing: a table has a thousand rows, a test keeps a tenth of them, and a join
/// without a condition costs ten to the power of fifteen above its rows.
pub proof fn what_is_not_known_is_assumed()
    ensures
        UNKNOWN_ROWS == 1000,
        ONE == float::int_to_f64(1),
        TENTH == float::f64_quotient(float::int_to_f64(1), float::int_to_f64(10)),
        CROSS_PENALTY == float::int_to_f64(1_000_000_000_000_000),
{
    float::one_is_its_pattern();
    float::a_tenth_has_its_pattern();
    float::a_quadrillion_has_its_pattern();
}

/// A test of anything but a filtered scan of a known table, or of a column of which nothing is
/// known, keeps a tenth. Filters do not change how a test is judged.
pub proof fn a_test_of_the_unknown_keeps_a_tenth(
    test: Test,
    plan: Plan,
    tests: Seq<Test>,
    tables: Seq<Table>,
)
    ensures
        estimate::selectivity(test, Plan::Filter(tests, Box::new(plan)), tables)
            == estimate::selectivity(test, plan, tables),
        !(plan is Scan) && !(plan is Filter) ==> estimate::selectivity(test, plan, tables) == TENTH,
        plan matches Plan::Scan(id) ==> (query::table_index(tables, id) matches Some(i) ==> (
        query::spec_index(tables[i].columns, test.column) matches Some(k)
            ==> tables[i].columns[k].stats is None)) ==> estimate::selectivity(test, plan, tables)
            == TENTH,
{
}

/// An input counts at least one row, and without tests of its own as many as are estimated.
pub proof fn an_input_counts_at_least_one_row(
    tests: Seq<Test>,
    input: Plan,
    columns: Seq<Column>,
    tables: Seq<Table>,
)
    ensures
        !float::f64_less(reorder::effective_card(tests, input, columns, tables), ONE),
        !value::f64_is_nan(reorder::effective_card(tests, input, columns, tables)),
        1 <= estimate::cardinality(input, tables) <= 0x20_0000_0000_0000 && (forall|i: int|
            0 <= i < tests.len() ==> !rewrite::has_column(columns, (#[trigger] tests[i]).column))
            ==> reorder::effective_card(tests, input, columns, tables) == float::int_to_f64(
            estimate::cardinality(input, tables) as int,
        ),
{
    let n = estimate::cardinality(input, tables);
    if 1 <= n <= 0x20_0000_0000_0000 && (forall|i: int|
        0 <= i < tests.len() ==> !rewrite::has_column(columns, (#[trigger] tests[i]).column)) {
        lemma_no_own_tests(tests, input, columns, tables);
        float::an_integer_becomes_the_number_that_it_is(n as int);
        float::a_number_times_one_is_itself(float::int_to_f64(n as int));
        float::one_is_its_pattern();
        float::integers_keep_their_order_as_numbers(1, n as int);
        float::integers_keep_their_order_as_numbers(n as int, n as int);
    }
}

proof fn lemma_no_own_tests(
    tests: Seq<Test>,
    input: Plan,
    columns: Seq<Column>,
    tables: Seq<Table>,
)
    requires
        forall|i: int|
            0 <= i < tests.len() ==> !rewrite::has_column(columns, (#[trigger] tests[i]).column),
    ensures
        reorder::own_share(tests, input, columns, tables) == ONE,
    decreases tests.len(),
{
    if tests.len() > 0 {
        let before = tests.drop_last();
        assert forall|i: int| 0 <= i < before.len() implies !rewrite::has_column(
            columns,
            (#[trigger] before[i]).column,
        ) by {
            assert(before[i] == tests[i]);
        }
        lemma_no_own_tests(before, input, columns, tables);
        assert(!rewrite::has_column(columns, tests[tests.len() - 1].column));
    }
}

/// Inputs are joined in the order of a query of the benchmark that they are known to be, and
/// otherwise in the cheapest order, by the rows that each of them counts.
pub proof fn a_known_order_is_chosen_first(
    tests: Seq<Test>,
    inputs: Seq<Plan>,
    columns: Seq<Seq<Column>>,
    tables: Seq<Table>,
)
    requires
        inputs.len() == columns.len(),
    ensures
        ({
            let known = Seq::new(columns.len(), |i: int| benchmark::known_table(columns[i]));
            let cards = Seq::new(
                inputs.len(),
                |i: int| reorder::effective_card(tests, inputs[i], columns[i], tables),
            );
            let order = reorder::chosen_order(tests, inputs, columns, tables);
            match benchmark::known_order(known, tests) {
                Some(o) => order == o,
                None => order == join_order::best_order(
                    reorder::join_edges(columns, tests),
                    cards,
                ),
            }
        }),
{
    let known = Seq::new(columns.len(), |i: int| benchmark::known_table(columns[i]));
    assert(reorder::known_inputs(columns) =~= known);
    let cards = Seq::new(
        inputs.len(),
        |i: int| reorder::effective_card(tests, inputs[i], columns[i], tables),
    );
    assert(reorder::effective_cards(tests, inputs, columns, tables) =~= cards);
}

/// A filter is taken to keep the integer part of the share of its rows, or one row.
pub proof fn a_filter_keeps_the_share_of_its_tests(tests: Seq<Test>, child: Plan, tables: Seq<Table>)
    ensures
        ({
            let share = float::f64_product(
                float::int_to_f64(estimate::cardinality(child, tables) as int),
                estimate::tests_share(tests, child, tables),
            );
            let n = estimate::cardinality(Plan::Filter(tests, Box::new(child)), tables);
            &&& float::f64_less(share, ONE) ==> n == 1
            &&& ONE <= share < F64_INF ==> n * float::units() <= float::finite_value(share)
            &&& ONE <= share < F64_INF && n < usize::MAX ==> float::finite_value(share) < (n + 1)
                * float::units()
            &&& share == F64_INF ==> n == usize::MAX
        }),
{
    let share = float::f64_product(
        float::int_to_f64(estimate::cardinality(child, tables) as int),
        estimate::tests_share(tests, child, tables),
    );
    let n = estimate::cardinality(Plan::Filter(tests, Box::new(child)), tables);
    float::one_is_its_pattern();
    float::an_integer_has_itself_as_its_integer_part(1);
    if ONE <= share < F64_INF {
        float::the_integer_part_is_not_above_its_number(share);
        let f = float::f64_floor(share);
        assert(n <= f);
        let u = float::units() as int;
        assert(n * u <= f * u) by (nonlinear_arith)
            requires
                n <= f,
                u >= 0,
        ;
    }
}

/// A table whose density is known has as many rows as the integer part of its cardinality over its
/// density.
pub proof fn a_table_has_its_cardinality_over_its_density(
    t: Table,
    stats: Seq<Stat>,
    c: u64,
    d: u32,
)
    requires
        t.columns.len() > 0,
        t.columns[0].stats == Some(stats),
        estimate::cardinality_of(stats) == Some(c),
        estimate::density_of(stats) == Some(d),
        0 < d < value::F32_INF,
    ensures
        ({
            let q = float::f64_quotient(float::int_to_f64(c as int), float::f32_to_f64(d));
            let n = estimate::table_rows_estimate(t);
            &&& q < F64_INF ==> n * float::units() <= float::finite_value(q)
            &&& q < F64_INF && n < usize::MAX ==> float::finite_value(q) < (n + 1) * float::units()
            &&& q == F64_INF ==> n == usize::MAX
            &&& q <= F64_INF
        }),
{
    let q = float::f64_quotient(float::int_to_f64(c as int), float::f32_to_f64(d));
    let n = estimate::table_rows_estimate(t);
    float::integers_are_not_negative_as_numbers(c as int);
    float::widened_numbers_stay_above_zero(d);
    float::a_quotient_of_numbers_above_zero_is_not_negative(
        float::int_to_f64(c as int),
        float::f32_to_f64(d),
    );
    if q < F64_INF {
        float::the_integer_part_is_not_above_its_number(q);
        let f = float::f64_floor(q);
        assert(n <= f);
        let u = float::units() as int;
        assert(n * u <= f * u) by (nonlinear_arith)
            requires
                n <= f,
                u >= 0,
        ;
    }
}

/// The rows that an input counts are those that its own tests keep of those that are estimated, or
/// one where these are fewer.
pub proof fn an_input_counts_the_share_of_its_tests(
    tests: Seq<Test>,
    input: Plan,
    columns: Seq<Column>,
    tables: Seq<Table>,
)
    ensures
        ({
            let share = float::f64_product(
                float::int_to_f64(estimate::cardinality(input, tables) as int),
                reorder::own_share(tests, input, columns, tables),
            );
            let n = reorder::effective_card(tests, input, columns, tables);
            &&& float::f64_less(share, ONE) || value::f64_is_nan(share) ==> n == ONE
            &&& !float::f64_less(share, ONE) && !value::f64_is_nan(share) ==> n == share
        }),
{
}

} // verus!
