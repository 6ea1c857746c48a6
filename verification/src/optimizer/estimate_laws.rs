//! Laws of the estimates: of the share of rows that a test keeps, by the statistics of its
//! column, and of the number of rows that a plan gives.

use vstd::prelude::*;

use crate::float;
use crate::optimizer::estimate::{ONE, TENTH, UNKNOWN_ROWS, ZERO};
use crate::optimizer::estimate;
use crate::query::{ComparisionOperator, Plan, Range, SortKey, Stat, Table, Test};
use crate::query;
use crate::value;

verus! {

/// Whether the range of a column and the literal of a test are numbers, and the range is not
/// empty.
pub open spec fn is_measured(r: Range, test: Test) -> bool {
    &&& estimate::operand_number(test.value) is Some
    &&& estimate::number_of(r.lower) matches Some(lower) && estimate::number_of(
        r.upper,
    ) matches Some(upper) && float::f64_less(lower, upper)
}

/// A test with another operator.
pub open spec fn asking(test: Test, operator: ComparisionOperator) -> Test {
    Test { operator, ..test }
}

/// What the tests for smaller values keep, the tests for greater values leave; whether the
/// literal itself passes does not matter.
pub proof fn opposite_tests_share_the_rows(r: Range, test: Test)
    requires
        is_measured(r, test),
    ensures
        ({
            let less = estimate::range_share(r, asking(test, ComparisionOperator::LT));
            let more = estimate::range_share(r, asking(test, ComparisionOperator::GT));
            &&& more == float::f64_difference(ONE, less)
            &&& estimate::range_share(r, asking(test, ComparisionOperator::LTE)) == less
            &&& estimate::range_share(r, asking(test, ComparisionOperator::GTE)) == more
        }),
{
}

proof fn lemma_clamped(x: u64, y: u64)
    requires
        !value::f64_is_nan(x),
        !value::f64_is_nan(y),
        value::f64_rank(x) <= value::f64_rank(y),
    ensures
        !value::f64_is_nan(estimate::clamped(x)),
        value::f64_rank(ZERO) <= value::f64_rank(estimate::clamped(x)) <= value::f64_rank(
            estimate::clamped(y),
        ) <= value::f64_rank(ONE),
{
}

/// The share of the rows that a test keeps lies between zero and one, wherever it is a number.
pub proof fn shares_lie_between_zero_and_one(r: Range, test: Test)
    requires
        is_measured(r, test),
        test.operator is LT || test.operator is LTE || test.operator is GT || test.operator is GTE,
        !value::f64_is_nan(
            estimate::range_share(r, asking(test, ComparisionOperator::LT)),
        ),
    ensures
        !value::f64_is_nan(estimate::range_share(r, test)),
        value::f64_rank(ZERO) <= value::f64_rank(estimate::range_share(r, test))
            <= value::f64_rank(ONE),
{
    let less = estimate::range_share(r, asking(test, ComparisionOperator::LT));
    let lower = estimate::number_of(r.lower)->Some_0;
    let upper = estimate::number_of(r.upper)->Some_0;
    let v = estimate::operand_number(test.value)->Some_0;
    let x = float::f64_quotient(
        float::f64_difference(v, lower),
        float::f64_difference(upper, lower),
    );
    assert(!value::f64_is_nan(x));
    lemma_clamped(x, x);
    float::a_rest_of_one_lies_between_zero_and_one(less, less);
}

/// With a greater literal, a test for smaller values keeps no smaller share of the rows, and a
/// test for greater values no greater one, wherever the shares are numbers.
pub proof fn shares_follow_the_literal(r: Range, test: Test, other: Test)
    requires
        is_measured(r, test),
        is_measured(r, other),
        test.operator == other.operator,
        ({
            let (v, w) = (
                estimate::operand_number(test.value)->Some_0,
                estimate::operand_number(other.value)->Some_0,
            );
            &&& !value::f64_is_nan(v)
            &&& !value::f64_is_nan(w)
            &&& value::f64_rank(v) <= value::f64_rank(w)
        }),
        !value::f64_is_nan(
            estimate::range_share(r, asking(test, ComparisionOperator::LT)),
        ),
        !value::f64_is_nan(
            estimate::range_share(r, asking(other, ComparisionOperator::LT)),
        ),
    ensures
        ({
            let (a, b) = (estimate::range_share(r, test), estimate::range_share(r, other));
            match test.operator {
                ComparisionOperator::LT | ComparisionOperator::LTE => value::f64_rank(a)
                    <= value::f64_rank(b),
                ComparisionOperator::GT | ComparisionOperator::GTE => value::f64_rank(b)
                    <= value::f64_rank(a),
                _ => a == b,
            }
        }),
{
    let lower = estimate::number_of(r.lower)->Some_0;
    let upper = estimate::number_of(r.upper)->Some_0;
    let v = estimate::operand_number(test.value)->Some_0;
    let w = estimate::operand_number(other.value)->Some_0;
    let width = float::f64_difference(upper, lower);
    let (x, y) = (float::f64_difference(v, lower), float::f64_difference(w, lower));
    let (p, q) = (float::f64_quotient(x, width), float::f64_quotient(y, width));
    assert(!value::f64_is_nan(p) && !value::f64_is_nan(q));
    float::a_difference_is_positive(lower, upper);
    float::differences_keep_the_order(v, w, lower);
    float::quotients_keep_the_order(x, y, width);
    lemma_clamped(p, q);
    float::a_rest_of_one_lies_between_zero_and_one(
        estimate::clamped(p),
        estimate::clamped(q),
    );
}

/// The shares are numbers where the ends of the range and its width are finite and the literal
/// is a number.
pub proof fn shares_of_finite_ranges_are_numbers(r: Range, test: Test)
    requires
        is_measured(r, test),
        ({
            let (lower, upper) = (
                estimate::number_of(r.lower)->Some_0,
                estimate::number_of(r.upper)->Some_0,
            );
            &&& float::magnitude_bits(lower) < value::F64_INF
            &&& float::magnitude_bits(float::f64_difference(upper, lower)) < value::F64_INF
        }),
        !value::f64_is_nan(estimate::operand_number(test.value)->Some_0),
    ensures
        !value::f64_is_nan(
            estimate::range_share(r, asking(test, ComparisionOperator::LT)),
        ),
{
    let lower = estimate::number_of(r.lower)->Some_0;
    let upper = estimate::number_of(r.upper)->Some_0;
    let v = estimate::operand_number(test.value)->Some_0;
    let width = float::f64_difference(upper, lower);
    float::a_difference_is_positive(lower, upper);
    float::lemma_finite_difference(v, lower);
    let x = float::f64_difference(v, lower);
    float::lemma_finite_quotient(x, width);
    let p = float::f64_quotient(x, width);
    lemma_clamped(p, p);
}

/// By a range with finite ends and width, a test for smaller values keeps nothing where its
/// literal is not above the lower end, everything where it is not below the upper end, and
/// between them the share that lies below the literal.
pub proof fn shares_are_measured_by_the_range(r: Range, test: Test)
    requires
        is_measured(r, test),
        test.operator is LT || test.operator is LTE,
        ({
            let (lower, upper) = (
                estimate::number_of(r.lower)->Some_0,
                estimate::number_of(r.upper)->Some_0,
            );
            &&& float::magnitude_bits(lower) < value::F64_INF
            &&& float::magnitude_bits(float::f64_difference(upper, lower)) < value::F64_INF
        }),
        !value::f64_is_nan(estimate::operand_number(test.value)->Some_0),
    ensures
        ({
            let share = estimate::range_share(r, test);
            let lower = estimate::number_of(r.lower)->Some_0;
            let upper = estimate::number_of(r.upper)->Some_0;
            let v = estimate::operand_number(test.value)->Some_0;
            let part = float::f64_quotient(
                float::f64_difference(v, lower),
                float::f64_difference(upper, lower),
            );
            &&& value::f64_rank(v) <= value::f64_rank(lower) ==> value::f64_rank(share)
                == value::f64_rank(ZERO)
            &&& value::f64_rank(v) >= value::f64_rank(upper) ==> value::f64_rank(share)
                == value::f64_rank(ONE)
            &&& value::f64_rank(lower) <= value::f64_rank(v) <= value::f64_rank(upper) ==> share
                == part
        }),
{
    let lower = estimate::number_of(r.lower)->Some_0;
    let upper = estimate::number_of(r.upper)->Some_0;
    let v = estimate::operand_number(test.value)->Some_0;
    let width = float::f64_difference(upper, lower);
    let x = float::f64_difference(v, lower);
    float::a_difference_is_positive(lower, upper);
    float::lemma_finite_difference(v, lower);
    float::lemma_finite_difference(lower, lower);
    let none = float::f64_difference(lower, lower);
    assert(none == 0) by {
        assert(float::finite_value(float::f64_negated(lower)) == -float::finite_value(lower));
    }
    float::lemma_finite_quotient(x, width);
    float::lemma_finite_quotient(0, width);
    float::lemma_finite_quotient(width, width);
    float::a_number_divided_by_itself_is_one(width);
    float::nothing_divided_is_nothing(width);
    if value::f64_rank(v) <= value::f64_rank(lower) {
        float::differences_keep_the_order(v, lower, lower);
        float::quotients_keep_the_order(x, 0, width);
    }
    if value::f64_rank(v) >= value::f64_rank(lower) {
        float::differences_keep_the_order(lower, v, lower);
        float::quotients_keep_the_order(0, x, width);
    }
    if value::f64_rank(v) >= value::f64_rank(upper) {
        float::differences_keep_the_order(upper, v, lower);
        float::quotients_keep_the_order(width, x, width);
    }
    if value::f64_rank(v) <= value::f64_rank(upper) {
        float::differences_keep_the_order(v, upper, lower);
        float::quotients_keep_the_order(x, width, width);
    }
}

/// A test of a filtered scan is judged by the statistics of its column: one for equality by the
/// density, one for order by the range, and what they do not tell of keeps a tenth.
pub proof fn tests_are_judged_by_the_statistics(
    test: Test,
    plan: Plan,
    tables: Seq<Table>,
    id: Seq<char>,
    i: int,
    k: int,
    stats: Seq<Stat>,
)
    requires
        estimate::below_filters(plan) == Plan::Scan(id),
        query::table_index(tables, id) == Some(i),
        query::spec_index(tables[i].columns, test.column) == Some(k),
        tables[i].columns[k].stats == Some(stats),
    ensures
        ({
            let share = estimate::selectivity(test, plan, tables);
            let measured = estimate::range_of(stats) matches Some(r) && is_measured(r, test);
            match test.operator {
                ComparisionOperator::EQ => share == match estimate::density_of(stats) {
                    Some(d) => float::f32_to_f64(d),
                    None => TENTH,
                },
                ComparisionOperator::NE => share == TENTH,
                _ => share == if measured {
                    estimate::range_share(estimate::range_of(stats)->Some_0, test)
                } else {
                    TENTH
                },
            }
        }),
{
}

// ---- the number of rows ----

/// The estimate of a cross join is the product of those of its sides, as long as it can be
/// counted, and that of a hash join the greater of them. Sorting and projecting leave the
/// estimate as it is.
pub proof fn joins_combine_the_estimates(
    l: Box<Plan>,
    r: Box<Plan>,
    left_key: Seq<char>,
    right_key: Seq<char>,
    keys: Seq<SortKey>,
    names: Seq<(Seq<char>, Seq<char>)>,
    tables: Seq<Table>,
)
    ensures
        ({
            let (m, n) = (
                estimate::cardinality(*l, tables),
                estimate::cardinality(*r, tables),
            );
            let joined = estimate::cardinality(
                Plan::HashJoin(l, r, left_key, right_key),
                tables,
            );
            &&& m * n <= usize::MAX ==> estimate::cardinality(Plan::Cross(l, r), tables) == m * n
            &&& joined == if m < n {
                n
            } else {
                m
            }
            &&& estimate::cardinality(Plan::Sort(keys, l), tables) == m
            &&& estimate::cardinality(Plan::Project(names, l), tables) == m
        }),
{
    let (m, n) = (estimate::cardinality(*l, tables), estimate::cardinality(*r, tables));
    assert(0 <= m * n) by (nonlinear_arith)
        requires
            m >= 0,
            n >= 0,
    ;
    if m * n <= usize::MAX {
        vstd::arithmetic::div_mod::lemma_small_mod((m * n) as nat, usize::MAX as nat + 1);
    }
}

/// A filter is never taken to leave nothing.
pub proof fn a_filter_keeps_a_row(plan: Plan, tables: Seq<Table>)
    requires
        plan is Filter,
    ensures
        estimate::cardinality(plan, tables) >= 1,
{
    let (tests, child) = (plan->Filter_0, plan->Filter_1);
    let rows = float::f64_greater(
        float::f64_product(
            float::int_to_f64(estimate::cardinality(*child, tables) as int),
            estimate::tests_share(tests, *child, tables),
        ),
        ONE,
    );
    float::numbers_from_one_on_have_an_integer_part(rows);
}

/// A table that is not known, or whose first column tells nothing of its rows, counts a
/// thousand rows.
pub proof fn unknown_tables_have_a_thousand_rows(id: Seq<char>, tables: Seq<Table>)
    requires
        query::table_index(tables, id) matches Some(i) ==> {
            ||| tables[i].columns.len() == 0
            ||| tables[i].columns[0].stats is None
            ||| estimate::cardinality_of(tables[i].columns[0].stats->Some_0) is None
        },
    ensures
        estimate::cardinality(Plan::Scan(id), tables) == UNKNOWN_ROWS,
{
}

/// The estimate of a cross join that cannot be counted is what is left of the product of those of
/// its sides within the range of `usize`.
pub proof fn a_cross_join_is_counted_within_the_range(l: Box<Plan>, r: Box<Plan>, tables: Seq<Table>)
    ensures
        (estimate::cardinality(*l, tables) * estimate::cardinality(*r, tables)
            - estimate::cardinality(Plan::Cross(l, r), tables)) % (usize::MAX + 1) == 0,
{
    let (m, n) = (estimate::cardinality(*l, tables), estimate::cardinality(*r, tables));
    let c = estimate::cardinality(Plan::Cross(l, r), tables);
    let k = usize::MAX + 1;
    let p = m * n;
    assert(c == p % k);
    vstd::arithmetic::div_mod::lemma_fundamental_div_mod(p, k);
    assert(p - c == k * (p / k));
    vstd::arithmetic::div_mod::lemma_mod_multiples_basic(p / k, k);
    assert(k * (p / k) == (p / k) * k) by (nonlinear_arith);
}

} // verus!
