//! Laws of the choices of a scan: which rows its tests keep, when nothing has to be read, and how
//! it looks for its first block.

use vstd::prelude::*;

use crate::answer;
use crate::error::Fault;
use crate::ops::filter::FilterWay;
use crate::ops::filter;
use crate::ops::project;
use crate::ops::scan::{Check, PredicateResult, Rhs};
use crate::ops::scan;
use crate::ops::scanner::{Phase, Scan};
use crate::ops::scanner;
use crate::query::{ComparisionOperator, Plan, Range, Stat, Table, Test};
use crate::row;
use crate::schema::Column;
use crate::schema;
use crate::value::Val;
use crate::value;

verus! {

// ---- tests ----

/// A test can be made by a scan where it can be made of a row at all, and then passes the same
/// rows.
pub proof fn a_compiled_test_passes_the_same_rows(
    r: Seq<Val>,
    columns: Seq<Column>,
    test: Test,
    ordered: bool,
)
    ensures
        match scan::check_of(columns, test, ordered) {
            Some(c) => row::test_outcome(r, columns, test) == Ok::<bool, Fault>(
                scan::check_verdict(r, c) == PredicateResult::Pass,
            ) && c.ordered == ordered,
            None => row::test_outcome(r, columns, test) is Err,
        },
{
}

/// A scan keeps a row where the row passes each of its tests. A test that cannot be made, for
/// want of a column or of a suitable literal, is passed over.
pub proof fn a_scan_keeps_the_rows_that_pass_each_test(
    r: Seq<Val>,
    columns: Seq<Column>,
    tests: Seq<Test>,
    ordered: Seq<bool>,
)
    ensures
        scan::verdict(r, scan::checks_of(columns, tests, ordered)) == PredicateResult::Pass <==> (
        forall|i: int|
            0 <= i < tests.len() ==> row::test_outcome(r, columns, #[trigger] tests[i]) != Ok::<
                bool,
                Fault,
            >(false)),
    decreases tests.len(),
{
    if tests.len() > 0 {
        let before = tests.drop_last();
        let n = tests.len() - 1;
        a_scan_keeps_the_rows_that_pass_each_test(r, columns, before, ordered);
        a_compiled_test_passes_the_same_rows(r, columns, tests[n], ordered[n]);
        assert forall|i: int| 0 <= i < n implies #[trigger] before[i] == tests[i] by {}
        let checks = scan::checks_of(columns, tests, ordered);
        let some = scan::checks_of(columns, before, ordered);
        if scan::check_of(columns, tests[n], ordered[n]) is Some {
            assert(checks.drop_last() =~= some);
        }
        if forall|i: int|
            0 <= i < tests.len() ==> row::test_outcome(r, columns, #[trigger] tests[i]) != Ok::<
                bool,
                Fault,
            >(false) {
            assert forall|i: int| 0 <= i < n implies row::test_outcome(
                r,
                columns,
                #[trigger] before[i],
            ) != Ok::<bool, Fault>(false) by {
                assert(before[i] == tests[i]);
            }
            assert(row::test_outcome(r, columns, tests[n]) != Ok::<bool, Fault>(false));
        }
        if scan::verdict(r, checks) == PredicateResult::Pass {
            assert(scan::verdict(r, some) == PredicateResult::Pass);
            assert forall|i: int| 0 <= i < tests.len() implies row::test_outcome(
                r,
                columns,
                #[trigger] tests[i],
            ) != Ok::<bool, Fault>(false) by {
                if i < n {
                    assert(before[i] == tests[i]);
                }
            }
        }
    }
}

/// A scan ends early only at a row that fails a test of an ascending column with a literal, and
/// then no value that is not below the row's passes the test either.
pub proof fn a_scan_ends_where_nothing_more_can_pass(r: Seq<Val>, c: Check, x: Val)
    requires
        scan::check_verdict(r, c) == PredicateResult::FailAndAbort,
        value::at_most(value::val_order(r[c.left], x)),
    ensures
        c.ordered,
        c.right matches Rhs::Literal(v) && !row::vals_compare(x, c.operator, v),
{
    let v = scan::rhs_val(r, c.right);
    let y = r[c.left];
    value::order_is_antisymmetric(v, y);
    value::order_is_antisymmetric(v, x);
    if value::at_most(value::val_order(v, y)) {
        value::order_is_transitive(v, y, x);
    }
}

/// A scan ends as soon as it can: at a row of an ascending column that is above a literal which
/// the column has to equal, or must not exceed.
pub proof fn a_scan_ends_as_soon_as_it_can(r: Seq<Val>, c: Check)
    requires
        c.ordered,
        c.right is Literal,
    ensures
        ({
            let v = c.right->Literal_0;
            let above = row::vals_compare(r[c.left], ComparisionOperator::GT, v);
            let reached = row::vals_compare(r[c.left], ComparisionOperator::GTE, v);
            &&& c.operator == ComparisionOperator::EQ || c.operator == ComparisionOperator::LTE ==> (
            scan::check_verdict(r, c) == PredicateResult::FailAndAbort <==> above)
            &&& c.operator == ComparisionOperator::LT ==> (scan::check_verdict(r, c)
                == PredicateResult::FailAndAbort <==> reached)
        }),
{
}

// ---- statistics ----

/// A range of the values of a column shows that no row can pass a comparison exactly where no
/// value of the range passes it. Nothing is shown of a test for what is unequal.
pub proof fn a_range_excludes_what_none_of_its_values_passes(
    r: Range,
    op: ComparisionOperator,
    v: Val,
)
    requires
        value::at_most(value::val_order(r.lower, r.upper)),
        !value::is_nan(v),
        !value::is_nan(r.lower),
        !value::is_nan(r.upper),
    ensures
        op != ComparisionOperator::NE ==> (scan::excludes(Stat::Range(r), op, v) <==> (forall|x: Val|
            value::at_most(value::val_order(r.lower, x)) && value::at_most(
                value::val_order(x, r.upper),
            ) ==> !#[trigger] row::vals_compare(x, op, v))),
        op == ComparisionOperator::NE ==> !scan::excludes(Stat::Range(r), op, v),
{
    let (a, b) = (r.lower, r.upper);
    value::order_is_reflexive(a);
    value::order_is_reflexive(b);
    value::order_is_reflexive(v);
    value::order_is_antisymmetric(a, v);
    value::order_is_antisymmetric(b, v);
    value::nans_alone_do_not_compare(a, v);
    value::nans_alone_do_not_compare(b, v);
    if op != ComparisionOperator::NE {
        if scan::excludes(Stat::Range(r), op, v) {
            assert forall|x: Val|
                value::at_most(value::val_order(a, x)) && value::at_most(
                    value::val_order(x, b),
                ) implies !#[trigger] row::vals_compare(x, op, v) by {
                value::order_is_antisymmetric(x, v);
                if value::at_most(value::val_order(x, v)) {
                    value::order_is_transitive(a, x, v);
                }
                if value::at_most(value::val_order(v, x)) {
                    value::order_is_transitive(v, x, b);
                }
            }
        } else {
            let x = match op {
                ComparisionOperator::EQ => v,
                ComparisionOperator::LT => a,
                ComparisionOperator::LTE => a,
                _ => b,
            };
            assert(row::vals_compare(x, op, v));
            assert(value::at_most(value::val_order(a, x)) && value::at_most(value::val_order(x, b)));
        }
    }
}

/// A histogram shows that no row equals a value exactly where the value lies in none of its
/// ranges, and shows nothing of other comparisons. Other statistics show nothing.
pub proof fn a_histogram_excludes_what_lies_between_its_ranges(
    h: Seq<(Range, u64)>,
    s: Stat,
    op: ComparisionOperator,
    v: Val,
)
    ensures
        scan::excludes(Stat::Histogram(h), ComparisionOperator::EQ, v) <==> (forall|i: int|
            0 <= i < h.len() ==> !(row::vals_compare(
                (#[trigger] h[i]).0.lower,
                ComparisionOperator::LTE,
                v,
            ) && row::vals_compare(v, ComparisionOperator::LTE, h[i].0.upper))),
        op != ComparisionOperator::EQ ==> !scan::excludes(Stat::Histogram(h), op, v),
        !(s is Range) && !(s is Histogram) ==> !scan::excludes(s, op, v),
{
    assert forall|i: int| 0 <= i < h.len() implies scan::in_range((#[trigger] h[i]).0, v) == (
    row::vals_compare(h[i].0.lower, ComparisionOperator::LTE, v) && row::vals_compare(
        v,
        ComparisionOperator::LTE,
        h[i].0.upper,
    )) by {
        value::order_is_antisymmetric(v, h[i].0.upper);
    }
    if scan::in_some_range(h, v) {
        let i = choose|i: int| 0 <= i < h.len() && scan::in_range((#[trigger] h[i]).0, v);
        assert(scan::in_range(h[i].0, v));
    }
}

/// Where the statistics show that no row passes one of the tests, nothing is read. Otherwise
/// blocks are read, if the table has any.
pub proof fn nothing_is_read_where_nothing_can_pass(
    t: Table,
    tests: Seq<Test>,
    wanted: Option<Seq<bool>>,
    start: int,
    num: int,
    block_size: nat,
    memory_limit_mb: int,
)
    requires
        num >= 0,
        block_size > 0,
        memory_limit_mb >= 0,
    ensures
        scanner::scan_request(
            scanner::scan_start(t, tests, wanted, start, num, block_size, memory_limit_mb),
        ) is Some <==> num > 0 && !scan::table_excluded(t, tests),
{
}

// ---- the search for the first block ----

/// A search reads the block in the middle of what is left to search, and then less than half of
/// it is left, or blocks are read in turn.
pub proof fn a_search_halves_what_is_left(s: Scan, data: Seq<u8>)
    requires
        s.phase matches Phase::Search { low, high, .. } && 0 <= low < high,
    ensures
        s.phase matches Phase::Search { col, target, low, high, best } ==> {
            &&& scanner::scan_request(s) matches Some((at, n)) && n == 1 && s.start + low <= at
                < s.start + high
            &&& scanner::scan_accept(s, data).0.phase matches Phase::Search {
                low: l,
                high: h,
                ..
            } ==> low <= l < h <= high && 2 * (h - l) <= high - low
        },
{
}

/// Blocks are read in turn, as many at once as a scan may, until none is left.
pub proof fn blocks_are_read_in_turn(s: Scan, next: int, remaining: int)
    requires
        s.phase == (Phase::Read { next, remaining }),
        remaining >= 0,
        s.chunk > 0,
    ensures
        remaining == 0 ==> scanner::scan_request(s) is None,
        remaining > 0 ==> (scanner::scan_request(s) matches Some((at, n)) && at == next && 0 < n
            <= remaining && n <= s.chunk && (n == remaining || n == s.chunk)),
{
}

// ---- who makes the tests of a filter ----

/// The tests of a filter are made by the scan or the cross join directly below it. Over a
/// projection of a scan the scan makes them, of the columns from which the projection takes those
/// that they name, where it gives all of these. Otherwise the filter makes them, of the columns of
/// the plan below. Where these cannot be found, that is told.
pub proof fn tests_are_made_as_far_down_as_they_can_be(
    tests: Seq<Test>,
    below: Plan,
    tables: Seq<Table>,
)
    ensures
        below is Scan ==> filter::filter_way(tests, below, tables) == Ok::<FilterWay, Fault>(
            FilterWay::Scan,
        ),
        below is Cross ==> filter::filter_way(tests, below, tables) == Ok::<FilterWay, Fault>(
            FilterWay::Cross,
        ),
        below matches Plan::Project(map, inner) ==> *inner is Scan ==> match (
            schema::plan_schema(*inner, tables),
            schema::plan_schema(below, tables),
        ) {
            (Err(e), _) => filter::filter_way(tests, below, tables) == Err::<FilterWay, Fault>(e),
            (Ok(_), Err(Fault::ProjectColumn(n))) => filter::filter_way(tests, below, tables) == Err::<
                FilterWay,
                Fault,
            >(Fault::FilteredProjectColumn(n)),
            (Ok(_), Err(_)) => false,
            (Ok(columns), Ok(given)) => {
                let all_named = forall|i: int|
                    0 <= i < tests.len() ==> filter::test_within(#[trigger] tests[i], given);
                &&& !all_named ==> filter::filter_way(tests, below, tables) == Ok::<FilterWay, Fault>(
                    FilterWay::Stream(given),
                )
                &&& all_named ==> (filter::filter_way(tests, below, tables) matches Ok(
                    FilterWay::ProjectedScan(at, made),
                ) && at.len() == map.len() && made.len() == tests.len() && (forall|i: int|
                    0 <= i < map.len() ==> schema::column_index(columns, (#[trigger] map[i]).0)
                        == Some(at[i])) && (forall|i: int|
                    0 <= i < tests.len() ==> (#[trigger] made[i]).operator == tests[i].operator && (
                    !(tests[i].value is Column) ==> made[i].value == tests[i].value)))
            },
        },
        !(below is Scan) && !(below is Cross) && !(below matches Plan::Project(_, inner) && *inner is Scan)
            ==> match schema::plan_schema(below, tables) {
            Ok(columns) => filter::filter_way(tests, below, tables) == Ok::<FilterWay, Fault>(
                FilterWay::Stream(columns),
            ),
            Err(e) => filter::filter_way(tests, below, tables) == Err::<FilterWay, Fault>(e),
        },
{
    match below {
        Plan::Project(map, inner) => {
            if *inner is Scan && schema::plan_schema(*inner, tables) is Ok {
                let columns = schema::plan_schema(*inner, tables)->Ok_0;
                project::lemma_projected_is_renamed(columns, map);
                answer::lemma_sources(columns, map);
            }
        },
        _ => {},
    }
}

} // verus!
