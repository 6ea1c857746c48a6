//! Laws of the shape of an optimized plan: which input of a join is held, what each scan still
//! reads, and where tests are made.

use vstd::prelude::*;

use crate::answer;
use crate::error::Fault;
use crate::ops::execution_laws;
use crate::optimizer::estimate;
use crate::optimizer::order_laws;
use crate::optimizer::pushdown;
use crate::optimizer::reorder;
use crate::optimizer::rewrite;
use crate::optimizer::rewrite_laws;
use crate::optimizer::swap;
use crate::optimizer;
use crate::query::{ComparisionOperator, Operand, Plan, SortKey, Table, Test};
use crate::schema::Column;
use crate::schema;
use crate::seqs;

verus! {

// ---- the sides of joins ----

/// Whether each join of a plan has an input on its right, where it is held, that is not
/// greater by estimate than the one on its left.
pub open spec fn holds_smaller_inputs(plan: Plan, tables: Seq<Table>) -> bool
    decreases plan,
{
    match plan {
        Plan::Scan(_) => true,
        Plan::Filter(_, child) => holds_smaller_inputs(*child, tables),
        Plan::Project(_, child) => holds_smaller_inputs(*child, tables),
        Plan::Sort(_, child) => holds_smaller_inputs(*child, tables),
        Plan::Cross(l, r) => holds_smaller_inputs(*l, tables) && holds_smaller_inputs(*r, tables)
            && estimate::cardinality(*r, tables) <= estimate::cardinality(*l, tables),
        Plan::HashJoin(l, r, _, _) => holds_smaller_inputs(*l, tables) && holds_smaller_inputs(
            *r,
            tables,
        ) && estimate::cardinality(*r, tables) <= estimate::cardinality(*l, tables),
    }
}

/// Once sides were exchanged, each join holds its smaller input.
pub proof fn joins_hold_their_smaller_inputs(plan: Plan, tables: Seq<Table>)
    ensures
        swap::swapped(plan, tables) matches Ok(q) ==> holds_smaller_inputs(q, tables),
    decreases plan,
{
    reveal_with_fuel(holds_smaller_inputs, 3);
    match plan {
        Plan::Scan(_) => {},
        Plan::Filter(_, child) => joins_hold_their_smaller_inputs(*child, tables),
        Plan::Project(_, child) => joins_hold_their_smaller_inputs(*child, tables),
        Plan::Sort(_, child) => joins_hold_their_smaller_inputs(*child, tables),
        Plan::Cross(l, r) => {
            joins_hold_their_smaller_inputs(*l, tables);
            joins_hold_their_smaller_inputs(*r, tables);
        },
        Plan::HashJoin(l, r, _, _) => {
            joins_hold_their_smaller_inputs(*l, tables);
            joins_hold_their_smaller_inputs(*r, tables);
        },
    }
}

/// A plan whose joins hold their smaller inputs stays as it is: inputs of the same size are not
/// exchanged.
pub proof fn sides_are_exchanged_only_where_it_helps(plan: Plan, tables: Seq<Table>)
    requires
        holds_smaller_inputs(plan, tables),
    ensures
        swap::swapped(plan, tables) == Ok::<Plan, Fault>(plan),
    decreases plan,
{
    match plan {
        Plan::Scan(_) => {},
        Plan::Filter(_, child) => sides_are_exchanged_only_where_it_helps(*child, tables),
        Plan::Project(_, child) => sides_are_exchanged_only_where_it_helps(*child, tables),
        Plan::Sort(_, child) => sides_are_exchanged_only_where_it_helps(*child, tables),
        Plan::Cross(l, r) => {
            sides_are_exchanged_only_where_it_helps(*l, tables);
            sides_are_exchanged_only_where_it_helps(*r, tables);
        },
        Plan::HashJoin(l, r, _, _) => {
            sides_are_exchanged_only_where_it_helps(*l, tables);
            sides_are_exchanged_only_where_it_helps(*r, tables);
        },
    }
}

/// A join whose inputs are exchanged stands under a projection that gives the columns of both in
/// their old order, under their names, and its condition is exchanged with them.
pub proof fn an_exchanged_join_gives_its_columns_in_order(
    l: Plan,
    r: Plan,
    a: Seq<char>,
    b: Seq<char>,
    tables: Seq<Table>,
)
    requires
        holds_smaller_inputs(l, tables),
        holds_smaller_inputs(r, tables),
        estimate::cardinality(l, tables) < estimate::cardinality(r, tables),
        schema::plan_schema(l, tables) is Ok,
        schema::plan_schema(r, tables) is Ok,
    ensures
        ({
            let columns = answer::columns_of(l, tables) + answer::columns_of(r, tables);
            let map = Seq::new(columns.len(), |i: int| (columns[i].name, columns[i].name));
            &&& swap::swapped(Plan::Cross(Box::new(l), Box::new(r)), tables) == Ok::<Plan, Fault>(
                Plan::Project(map, Box::new(Plan::Cross(Box::new(r), Box::new(l)))),
            )
            &&& swap::swapped(Plan::HashJoin(Box::new(l), Box::new(r), a, b), tables) == Ok::<
                Plan,
                Fault,
            >(Plan::Project(map, Box::new(Plan::HashJoin(Box::new(r), Box::new(l), b, a))))
        }),
{
    sides_are_exchanged_only_where_it_helps(l, tables);
    sides_are_exchanged_only_where_it_helps(r, tables);
    let columns = answer::columns_of(l, tables) + answer::columns_of(r, tables);
    let map = Seq::new(columns.len(), |i: int| (columns[i].name, columns[i].name));
    assert(pushdown::keeping(columns) =~= map);
}

// ---- what scans read ----

/// A scan of which some columns are asked for, but not all, reads exactly these, in their
/// order and under their names. Where all are asked for, or none, it stays as it is.
pub proof fn a_scan_reads_only_what_is_asked_for(id: Seq<char>, r: Set<Seq<char>>, tables: Seq<Table>)
    requires
        schema::plan_schema(Plan::Scan(id), tables) is Ok,
    ensures
        ({
            let all = answer::columns_of(Plan::Scan(id), tables);
            let some = exists|i: int|
                0 <= i < all.len() && r.contains((#[trigger] all[i]).name);
            let every = forall|i: int|
                0 <= i < all.len() ==> r.contains((#[trigger] all[i]).name);
            &&& pushdown::pushed(Plan::Scan(id), Some(r), tables) matches Ok(q)
            &&& !some || every ==> q == Plan::Scan(id)
            &&& some && !every ==> {
                &&& q matches Plan::Project(map, below)
                &&& *below == Plan::Scan(id)
                &&& forall|i: int|
                    0 <= i < map.len() ==> (#[trigger] map[i]).0 == map[i].1 && r.contains(map[i].1)
                &&& forall|i: int|
                    0 <= i < all.len() && r.contains((#[trigger] all[i]).name) ==> map.contains(
                        (all[i].name, all[i].name),
                    )
            }
        }),
{
    let all = answer::columns_of(Plan::Scan(id), tables);
    let asked = |c: Column| r.contains(c.name);
    let used = all.filter(asked);
    lemma_used(all, asked);
    let map = pushdown::keeping(used);
    assert forall|i: int| 0 <= i < map.len() implies (#[trigger] map[i]).0 == map[i].1 && r.contains(
        map[i].1,
    ) by {
        assert(asked(used[i]));
    }
    assert forall|i: int| 0 <= i < all.len() && r.contains((#[trigger] all[i]).name) implies map.contains(
        (all[i].name, all[i].name),
    ) by {
        assert(asked(all[i]));
        assert(used.contains(all[i]));
        let j = choose|j: int| 0 <= j < used.len() && used[j] == all[i];
        assert(map[j] == (all[i].name, all[i].name));
    }
    if exists|i: int| 0 <= i < all.len() && r.contains((#[trigger] all[i]).name) {
        let i = choose|i: int| 0 <= i < all.len() && r.contains((#[trigger] all[i]).name);
        assert(asked(all[i]));
        assert(used.contains(all[i]));
        assert(used.len() > 0);
    } else if used.len() > 0 {
        assert(asked(used[0]));
        assert(all.contains(used[0]));
        let i = choose|i: int| 0 <= i < all.len() && all[i] == used[0];
        assert(r.contains(all[i].name));
    }
    if forall|i: int| 0 <= i < all.len() ==> r.contains((#[trigger] all[i]).name) {
        assert forall|i: int| 0 <= i < all.len() implies asked(#[trigger] all[i]) by {
            assert(r.contains(all[i].name));
        }
        assert(used.len() == all.len());
    } else {
        let i = choose|i: int| 0 <= i < all.len() && !r.contains((#[trigger] all[i]).name);
        assert(!asked(all[i]));
        assert(used.len() < all.len());
    }
}

proof fn lemma_used(all: Seq<Column>, asked: spec_fn(Column) -> bool)
    ensures
        ({
            let used = all.filter(asked);
            &&& used.len() <= all.len()
            &&& forall|i: int| 0 <= i < used.len() ==> asked(#[trigger] used[i]) && all.contains(used[i])
            &&& forall|i: int|
                0 <= i < all.len() && asked(#[trigger] all[i]) ==> used.contains(all[i])
            &&& (forall|i: int| 0 <= i < all.len() ==> asked(#[trigger] all[i])) <==> used.len()
                == all.len()
        }),
    decreases all.len(),
{
    reveal(Seq::filter);
    if all.len() > 0 {
        let before = all.drop_last();
        let (used, some) = (all.filter(asked), before.filter(asked));
        lemma_used(before, asked);
        let n = before.len() as int;
        assert forall|i: int| 0 <= i < n implies #[trigger] before[i] == all[i] by {}
        assert(all.last() == all[n]);
        if asked(all[n]) {
            assert(used == some.push(all[n]));
            assert(used[some.len() as int] == all[n]);
        } else {
            assert(used == some);
        }
        assert forall|i: int| 0 <= i < some.len() implies #[trigger] some[i] == used[i] by {}
        assert forall|i: int| 0 <= i < used.len() implies asked(#[trigger] used[i]) && all.contains(
            used[i],
        ) by {
            if i < some.len() {
                assert(some[i] == used[i]);
                assert(before.contains(some[i]));
                let k = choose|k: int| 0 <= k < before.len() && before[k] == some[i];
                assert(all[k] == used[i]);
            } else {
                assert(all[n] == used[i]);
            }
        }
        assert forall|i: int| 0 <= i < all.len() && asked(#[trigger] all[i]) implies used.contains(
            all[i],
        ) by {
            if i < n {
                assert(before[i] == all[i]);
                assert(some.contains(before[i]));
                let k = choose|k: int| 0 <= k < some.len() && some[k] == before[i];
                assert(used[k] == all[i]);
            } else {
                assert(used[some.len() as int] == all[i]);
            }
        }
        if used.len() == all.len() {
            assert(some.len() == before.len());
            assert forall|i: int| 0 <= i < all.len() implies asked(#[trigger] all[i]) by {
                if i < n {
                    assert(asked(before[i]));
                }
            }
        }
        if forall|i: int| 0 <= i < all.len() ==> asked(#[trigger] all[i]) {
            assert forall|i: int| 0 <= i < before.len() implies asked(#[trigger] before[i]) by {
                assert(asked(all[i]));
            }
            assert(asked(all[n]));
        }
    }
}

/// A projection keeps the pairs whose columns are asked for, in their order, and asks below
/// for the columns that these take and no others.
pub proof fn a_projection_asks_for_what_it_takes(
    map: Seq<(Seq<char>, Seq<char>)>,
    child: Plan,
    required: Option<Set<Seq<char>>>,
    tables: Seq<Table>,
)
    ensures
        ({
            let pairs = match required {
                None => map,
                Some(r) => map.filter(|pair: (Seq<char>, Seq<char>)| r.contains(pair.1)),
            };
            let names = Set::new(
                |x: Seq<char>| exists|i: int| 0 <= i < pairs.len() && (#[trigger] pairs[i]).0 == x,
            );
            &&& pushdown::pushed(Plan::Project(map, Box::new(child)), required, tables) is Ok
                <==> pushdown::pushed(child, Some(names), tables) is Ok
            &&& pushdown::pushed(child, Some(names), tables) matches Ok(c) ==> pushdown::pushed(
                Plan::Project(map, Box::new(child)),
                required,
                tables,
            ) == Ok::<Plan, Fault>(Plan::Project(pairs, Box::new(c)))
        }),
{
    let pairs = pushdown::asked_pairs(map, required);
    let names = Set::new(
        |x: Seq<char>| exists|i: int| 0 <= i < pairs.len() && (#[trigger] pairs[i]).0 == x,
    );
    assert(pushdown::source_names(pairs) =~= names);
}

/// A filter asks below for what is asked of it and for the columns that its tests name, and a
/// sort for the columns of its keys. Where all columns are asked for, all are asked for below.
pub proof fn filters_and_sorts_ask_for_their_columns_too(
    tests: Seq<Test>,
    keys: Seq<SortKey>,
    child: Plan,
    r: Set<Seq<char>>,
    tables: Seq<Table>,
)
    ensures
        ({
            let named = Set::new(
                |n: Seq<char>|
                    r.contains(n) || exists|i: int|
                        0 <= i < tests.len() && ((#[trigger] tests[i]).column == n || tests[i].value
                            == Operand::Column(n)),
            );
            pushdown::pushed(Plan::Filter(tests, Box::new(child)), Some(r), tables) == match pushdown::pushed(
                child,
                Some(named),
                tables,
            ) {
                Ok(c) => Ok::<Plan, Fault>(Plan::Filter(tests, Box::new(c))),
                Err(e) => Err::<Plan, Fault>(e),
            }
        }),
        ({
            let named = Set::new(
                |n: Seq<char>|
                    r.contains(n) || exists|i: int|
                        0 <= i < keys.len() && (#[trigger] keys[i]).column == n,
            );
            pushdown::pushed(Plan::Sort(keys, Box::new(child)), Some(r), tables) == match pushdown::pushed(
                child,
                Some(named),
                tables,
            ) {
                Ok(c) => Ok::<Plan, Fault>(Plan::Sort(keys, Box::new(c))),
                Err(e) => Err::<Plan, Fault>(e),
            }
        }),
        pushdown::pushed(child, None, tables) matches Ok(c) ==> pushdown::pushed(
            Plan::Filter(tests, Box::new(child)),
            None,
            tables,
        ) == Ok::<Plan, Fault>(Plan::Filter(tests, Box::new(c))) && pushdown::pushed(
            Plan::Sort(keys, Box::new(child)),
            None,
            tables,
        ) == Ok::<Plan, Fault>(Plan::Sort(keys, Box::new(c))),
{
    let tested = Set::new(
        |n: Seq<char>|
            r.contains(n) || exists|i: int|
                0 <= i < tests.len() && ((#[trigger] tests[i]).column == n || tests[i].value
                    == Operand::Column(n)),
    );
    let keyed = Set::new(
        |n: Seq<char>|
            r.contains(n) || exists|i: int| 0 <= i < keys.len() && (#[trigger] keys[i]).column == n,
    );
    let more = r.union(pushdown::test_names(tests));
    assert forall|n: Seq<char>| #[trigger] more.contains(n) == tested.contains(n) by {
        if exists|i: int| 0 <= i < tests.len() && pushdown::names_column(#[trigger] tests[i], n) {
            let i = choose|i: int| 0 <= i < tests.len() && pushdown::names_column(#[trigger] tests[i], n);
            assert(tests[i].column == n || tests[i].value == Operand::Column(n));
        }
        if exists|i: int|
            0 <= i < tests.len() && ((#[trigger] tests[i]).column == n || tests[i].value
                == Operand::Column(n)) {
            let i = choose|i: int|
                0 <= i < tests.len() && ((#[trigger] tests[i]).column == n || tests[i].value
                    == Operand::Column(n));
            assert(pushdown::names_column(tests[i], n));
        }
    }
    assert(more =~= tested);
    assert(r.union(pushdown::key_names(keys)) =~= keyed);
}

/// A join asks each of its inputs for the columns of that input among those that are asked for,
/// and a hash join for the column of its condition besides.
pub proof fn joins_ask_their_inputs_for_their_own_columns(
    l: Plan,
    r: Plan,
    a: Seq<char>,
    b: Seq<char>,
    asked: Set<Seq<char>>,
    tables: Seq<Table>,
)
    requires
        schema::plan_schema(l, tables) is Ok,
        schema::plan_schema(r, tables) is Ok,
    ensures
        ({
            let (lc, rc) = (answer::columns_of(l, tables), answer::columns_of(r, tables));
            let left = Set::new(|n: Seq<char>| asked.contains(n) && rewrite::has_column(lc, n));
            let right = Set::new(|n: Seq<char>| asked.contains(n) && rewrite::has_column(rc, n));
            let keyed = Set::new(
                |n: Seq<char>| n == a || asked.contains(n) && rewrite::has_column(lc, n),
            );
            let matched = Set::new(
                |n: Seq<char>| n == b || asked.contains(n) && rewrite::has_column(rc, n),
            );
            &&& pushdown::pushed(l, Some(left), tables) is Ok && pushdown::pushed(
                r,
                Some(right),
                tables,
            ) is Ok ==> pushdown::pushed(
                Plan::Cross(Box::new(l), Box::new(r)),
                Some(asked),
                tables,
            ) == Ok::<Plan, Fault>(
                Plan::Cross(
                    Box::new(pushdown::pushed(l, Some(left), tables)->Ok_0),
                    Box::new(pushdown::pushed(r, Some(right), tables)->Ok_0),
                ),
            )
            &&& pushdown::pushed(l, Some(keyed), tables) is Ok && pushdown::pushed(
                r,
                Some(matched),
                tables,
            ) is Ok ==> pushdown::pushed(
                Plan::HashJoin(Box::new(l), Box::new(r), a, b),
                Some(asked),
                tables,
            ) == Ok::<Plan, Fault>(
                Plan::HashJoin(
                    Box::new(pushdown::pushed(l, Some(keyed), tables)->Ok_0),
                    Box::new(pushdown::pushed(r, Some(matched), tables)->Ok_0),
                    a,
                    b,
                ),
            )
        }),
{
    let (lc, rc) = (answer::columns_of(l, tables), answer::columns_of(r, tables));
    let left = Set::new(|n: Seq<char>| asked.contains(n) && rewrite::has_column(lc, n));
    let right = Set::new(|n: Seq<char>| asked.contains(n) && rewrite::has_column(rc, n));
    let keyed = Set::new(|n: Seq<char>| n == a || asked.contains(n) && rewrite::has_column(lc, n));
    let matched = Set::new(|n: Seq<char>| n == b || asked.contains(n) && rewrite::has_column(rc, n));
    assert(asked.intersect(pushdown::column_names(lc)) =~= left);
    assert(asked.intersect(pushdown::column_names(rc)) =~= right);
    assert(left.union(Set::empty().insert(a)) =~= keyed);
    assert(right.union(Set::empty().insert(b)) =~= matched);
}

// ---- where tests are made ----

/// Whether one input of a join could make a test alone: it names columns of that input and
/// none that only the other has.
pub open spec fn is_for_one_input(test: Test, l: Seq<Column>, r: Seq<Column>) -> bool {
    let names = |n: Seq<char>| test.column == n || test.value == Operand::Column(n);
    let of_left = exists|n: Seq<char>| #[trigger] names(n) && rewrite::has_column(l, n);
    let of_right = exists|n: Seq<char>|
        #[trigger] names(n) && !rewrite::has_column(l, n) && rewrite::has_column(r, n);
    of_left != of_right
}

/// Whether a test asks that a column of one input equal a column of the other.
pub open spec fn joins_columns(test: Test, l: Seq<Column>, r: Seq<Column>) -> bool {
    &&& test.operator == ComparisionOperator::EQ
    &&& test.value matches Operand::Column(other)
    &&& {
        ||| rewrite::has_column(l, test.column) && rewrite::has_column(r, other)
        ||| rewrite::has_column(r, test.column) && rewrite::has_column(l, other)
    }
}

/// Whether a test names a column of the left input.
pub open spec fn names_left(test: Test, l: Seq<Column>) -> bool {
    rewrite::has_column(l, test.column) || (test.value matches Operand::Column(other)
        && rewrite::has_column(l, other))
}

/// Whether a test names a column that the right input has and the left input lacks.
pub open spec fn names_right(test: Test, l: Seq<Column>, r: Seq<Column>) -> bool {
    ||| !rewrite::has_column(l, test.column) && rewrite::has_column(r, test.column)
    ||| test.value matches Operand::Column(other) && !rewrite::has_column(l, other)
        && rewrite::has_column(r, other)
}

/// A test over two inputs goes to the input whose columns alone it names, where a column that
/// both have counts as one of the left input. One that names columns of both, or of neither,
/// stays above them. Tests keep their order.
pub proof fn each_test_goes_to_the_input_whose_columns_it_names(
    tests: Seq<Test>,
    l: Seq<Column>,
    r: Seq<Column>,
)
    ensures
        rewrite::left_tests(tests, l, r) == tests.filter(
            |t: Test| names_left(t, l) && !names_right(t, l, r),
        ),
        rewrite::right_tests(tests, l, r) == tests.filter(
            |t: Test| names_right(t, l, r) && !names_left(t, l),
        ),
        rewrite::pair_tests(tests, l, r) == tests.filter(
            |t: Test| names_left(t, l) == names_right(t, l, r),
        ),
{
    lemma_same_filter(
        tests,
        |t: Test| rewrite::needs_left(t, l) && !rewrite::needs_right(t, l, r),
        |t: Test| names_left(t, l) && !names_right(t, l, r),
    );
    lemma_same_filter(
        tests,
        |t: Test| rewrite::needs_right(t, l, r) && !rewrite::needs_left(t, l),
        |t: Test| names_right(t, l, r) && !names_left(t, l),
    );
    lemma_same_filter(
        tests,
        |t: Test| rewrite::needs_left(t, l) == rewrite::needs_right(t, l, r),
        |t: Test| names_left(t, l) == names_right(t, l, r),
    );
}

proof fn lemma_same_filter(tests: Seq<Test>, p: spec_fn(Test) -> bool, q: spec_fn(Test) -> bool)
    requires
        forall|t: Test| #![trigger p(t)] p(t) == q(t),
    ensures
        tests.filter(p) == tests.filter(q),
    decreases tests.len(),
{
    reveal(Seq::filter);
    if tests.len() > 0 {
        lemma_same_filter(tests.drop_last(), p, q);
        assert(p(tests.last()) == q(tests.last()));
    }
}

/// A filter over a cross join becomes the join of its inputs, each under the tests that go to it,
/// under the tests that stay.
pub proof fn a_filter_goes_down_to_the_inputs_of_a_cross_join(
    tests: Seq<Test>,
    l: Plan,
    r: Plan,
    tables: Seq<Table>,
)
    requires
        schema::plan_schema(l, tables) is Ok,
        schema::plan_schema(r, tables) is Ok,
    ensures
        ({
            let (lc, rc) = (answer::columns_of(l, tables), answer::columns_of(r, tables));
            let (lt, rt) = (
                tests.filter(|t: Test| names_left(t, lc) && !names_right(t, lc, rc)),
                tests.filter(|t: Test| names_right(t, lc, rc) && !names_left(t, lc)),
            );
            let stay = tests.filter(|t: Test| names_left(t, lc) == names_right(t, lc, rc));
            let left = if lt.len() == 0 {
                Ok(l)
            } else {
                rewrite::filtered(lt, l, tables)
            };
            let right = if rt.len() == 0 {
                Ok(r)
            } else {
                rewrite::filtered(rt, r, tables)
            };
            left is Ok && right is Ok ==> rewrite::filtered(
                tests,
                Plan::Cross(Box::new(l), Box::new(r)),
                tables,
            ) == Ok::<Plan, Fault>(rewrite::joined(left->Ok_0, right->Ok_0, stay, lc, rc))
        }),
        !(l is Cross) ==> rewrite::filtered(tests, l, tables) == Ok::<Plan, Fault>(
            Plan::Filter(tests, Box::new(l)),
        ),
{
    each_test_goes_to_the_input_whose_columns_it_names(
        tests,
        answer::columns_of(l, tables),
        answer::columns_of(r, tables),
    );
}

/// Whether all tests of a plan are made as far down as they can be, each cross join that
/// equal columns could join is a hash join, and no sort lies directly on another one or on a
/// table that is stored in its order.
pub open spec fn is_lowered(plan: Plan, tables: Seq<Table>) -> bool
    decreases plan,
{
    match plan {
        Plan::Scan(_) => true,
        Plan::Filter(tests, child) => is_lowered(*child, tables) && (*child matches Plan::Cross(l, r)
            ==> forall|i: int|
            0 <= i < tests.len() ==> !is_for_one_input(
                #[trigger] tests[i],
                answer::columns_of(*l, tables),
                answer::columns_of(*r, tables),
            ) && !joins_columns(
                tests[i],
                answer::columns_of(*l, tables),
                answer::columns_of(*r, tables),
            )),
        Plan::Project(_, child) => is_lowered(*child, tables),
        Plan::Sort(keys, child) => is_lowered(*child, tables) && !(*child is Sort) && !(
        execution_laws::is_unjoined(*child) && order_laws::comes_by(*child, keys, tables)),
        Plan::Cross(l, r) => is_lowered(*l, tables) && is_lowered(*r, tables),
        Plan::HashJoin(l, r, _, _) => is_lowered(*l, tables) && is_lowered(*r, tables),
    }
}

proof fn lemma_needs(test: Test, l: Seq<Column>, r: Seq<Column>)
    requires
        rewrite::needs_left(test, l) == rewrite::needs_right(test, l, r),
    ensures
        !is_for_one_input(test, l, r),
{
    let names = |n: Seq<char>| test.column == n || test.value == Operand::Column(n);
    assert(names(test.column));
    match test.value {
        Operand::Column(other) => {
            assert(names(other));
        },
        _ => {},
    }
    assert(rewrite::needs_left(test, l) == exists|n: Seq<char>|
        #[trigger] names(n) && rewrite::has_column(l, n));
    assert(rewrite::needs_right(test, l, r) == exists|n: Seq<char>|
        #[trigger] names(n) && !rewrite::has_column(l, n) && rewrite::has_column(r, n));
}

proof fn lemma_settled_filter(tests: Seq<Test>, l: Plan, r: Plan, tables: Seq<Table>)
    requires
        ({
            let cross = Plan::Cross(Box::new(l), Box::new(r));
            rewrite::filtered(tests, cross, tables) == Ok::<Plan, Fault>(
                Plan::Filter(tests, Box::new(cross)),
            )
        }),
    ensures
        forall|i: int|
            0 <= i < tests.len() ==> !is_for_one_input(
                #[trigger] tests[i],
                answer::columns_of(l, tables),
                answer::columns_of(r, tables),
            ) && !joins_columns(
                tests[i],
                answer::columns_of(l, tables),
                answer::columns_of(r, tables),
            ),
{
    let (lc, rc) = (answer::columns_of(l, tables), answer::columns_of(r, tables));
    let both = rewrite::pair_tests(tests, lc, rc);
    let p = |t: Test| rewrite::is_equi_join(t, lc, rc);
    seqs::lemma_first_where(both, p);
    assert(seqs::first_where(both, p) is None);
    assert(both == tests);
    let q = |t: Test| rewrite::needs_left(t, lc) == rewrite::needs_right(t, lc, rc);
    assert(tests.filter(q) == tests);
    assert forall|i: int| 0 <= i < tests.len() implies !is_for_one_input(#[trigger] tests[i], lc, rc)
        && !joins_columns(tests[i], lc, rc) by {
        broadcast use vstd::seq_lib::group_filter_ensures;

        assert(q(tests.filter(q)[i]));
        lemma_needs(tests[i], lc, rc);
        assert(!p(both[i]));
    }
}

proof fn lemma_settled_is_lowered(plan: Plan, tables: Seq<Table>)
    requires
        rewrite_laws::settled(plan, tables),
    ensures
        is_lowered(plan, tables),
    decreases plan,
{
    match plan {
        Plan::Scan(_) => {},
        Plan::Filter(tests, child) => {
            lemma_settled_is_lowered(*child, tables);
            match *child {
                Plan::Cross(l, r) => {
                    lemma_settled_filter(tests, *l, *r, tables);
                },
                _ => {},
            }
        },
        Plan::Project(_, child) => lemma_settled_is_lowered(*child, tables),
        Plan::Sort(keys, child) => {
            lemma_settled_is_lowered(*child, tables);
            if execution_laws::is_unjoined(*child) && order_laws::comes_by(*child, keys, tables) {
                order_laws::lemma_unjoined_is_stored(*child, keys, tables);
            }
        },
        Plan::Cross(l, r) => {
            lemma_settled_is_lowered(*l, tables);
            lemma_settled_is_lowered(*r, tables);
        },
        Plan::HashJoin(l, r, _, _) => {
            lemma_settled_is_lowered(*l, tables);
            lemma_settled_is_lowered(*r, tables);
        },
    }
}

/// Once a plan was rewritten, no test waits above a cross join that one of its inputs could
/// make, or that could be the condition of a hash join, and no sort lies directly on another
/// one, or on rows that come in its order.
pub proof fn rewriting_makes_tests_as_early_as_it_can(plan: Plan, tables: Seq<Table>)
    ensures
        rewrite::rewritten(plan, tables) matches Ok(q) ==> is_lowered(q, tables),
{
    rewrite_laws::lemma_rewritten_is_settled(plan, tables);
    if rewrite::rewritten(plan, tables) is Ok {
        lemma_settled_is_lowered(rewrite::rewritten(plan, tables)->Ok_0, tables);
    }
}

/// Of the tests over two inputs that ask for equal columns, the first one becomes the condition of
/// a hash join, with the column of the left input first. The others are made above it, in their
/// order. Without such a test the inputs stay crossed.
pub proof fn the_first_equality_becomes_the_condition(
    left: Plan,
    right: Plan,
    tests: Seq<Test>,
    l: Seq<Column>,
    r: Seq<Column>,
    i: int,
)
    ensures
        0 <= i < tests.len() && joins_columns(tests[i], l, r) && (forall|j: int|
            0 <= j < i ==> !joins_columns(#[trigger] tests[j], l, r)) ==> {
            let (x, y) = if rewrite::has_column(l, tests[i].column) {
                (tests[i].column, tests[i].value->Column_0)
            } else {
                (tests[i].value->Column_0, tests[i].column)
            };
            let join = Plan::HashJoin(Box::new(left), Box::new(right), x, y);
            rewrite::joined(left, right, tests, l, r) == if tests.len() == 1 {
                join
            } else {
                Plan::Filter(tests.remove(i), Box::new(join))
            }
        },
        (forall|j: int| 0 <= j < tests.len() ==> !joins_columns(#[trigger] tests[j], l, r)) ==> {
            let cross = Plan::Cross(Box::new(left), Box::new(right));
            rewrite::joined(left, right, tests, l, r) == if tests.len() == 0 {
                cross
            } else {
                Plan::Filter(tests, Box::new(cross))
            }
        },
{
    let p = |t: Test| rewrite::is_equi_join(t, l, r);
    assert forall|j: int| 0 <= j < tests.len() implies p(#[trigger] tests[j]) == joins_columns(
        tests[j],
        l,
        r,
    ) by {}
    if 0 <= i < tests.len() && joins_columns(tests[i], l, r) && (forall|j: int|
        0 <= j < i ==> !joins_columns(#[trigger] tests[j], l, r)) {
        assert forall|j: int| 0 <= j < i implies !p(#[trigger] tests[j]) by {
            assert(!joins_columns(tests[j], l, r));
        }
        assert(p(tests[i]));
        seqs::lemma_first_where_is(tests, p, i);
    }
    if forall|j: int| 0 <= j < tests.len() ==> !joins_columns(#[trigger] tests[j], l, r) {
        assert forall|j: int| 0 <= j < tests.len() implies !p(#[trigger] tests[j]) by {
            assert(!joins_columns(tests[j], l, r));
        }
        seqs::lemma_first_where_none(tests, p);
    }
}

// ---- operators at work ----

/// Joins and sorts need much memory, and those on one way down a plan need it at the same
/// time: each counts one more than the greatest number below it. Other operators count none.
pub proof fn heavy_operators_count_on_the_longest_way(plan: Plan)
    ensures
        match plan {
            Plan::Scan(_) => optimizer::heavy_depth(plan) == 0,
            Plan::Filter(_, c) | Plan::Project(_, c) => optimizer::heavy_depth(plan)
                == optimizer::heavy_depth(*c),
            Plan::Sort(_, c) => optimizer::heavy_depth(plan) == optimizer::heavy_depth(*c) + 1,
            Plan::Cross(l, r) | Plan::HashJoin(l, r, _, _) => {
                let (n, a, b) = (
                    optimizer::heavy_depth(plan),
                    optimizer::heavy_depth(*l),
                    optimizer::heavy_depth(*r),
                );
                n > a && n > b && (n == a + 1 || n == b + 1)
            },
        },
{
}

// ---- all steps ----

/// A plan is optimized in four steps: its joins are put in order, its tests and sorts are
/// rewritten, its scans are narrowed, and the sides of its joins are exchanged. The first step
/// that fails says why.
pub proof fn a_plan_is_optimized_in_four_steps(plan: Plan, tables: Seq<Table>)
    ensures
        match reorder::reordered(plan, tables) {
            Err(e) => optimizer::optimized(plan, tables) == Err::<Plan, Fault>(e),
            Ok(ordered) => match rewrite::rewritten(ordered, tables) {
                Err(e) => optimizer::optimized(plan, tables) == Err::<Plan, Fault>(e),
                Ok(lowered) => match pushdown::pushed(lowered, None, tables) {
                    Err(e) => optimizer::optimized(plan, tables) == Err::<Plan, Fault>(e),
                    Ok(narrowed) => optimizer::optimized(plan, tables) == swap::swapped(
                        narrowed,
                        tables,
                    ) && is_lowered(lowered, tables) && (swap::swapped(narrowed, tables) matches Ok(q)
                        ==> holds_smaller_inputs(q, tables)),
                },
            },
        },
{
    if reorder::reordered(plan, tables) is Ok {
        let ordered = reorder::reordered(plan, tables)->Ok_0;
        rewriting_makes_tests_as_early_as_it_can(ordered, tables);
        if rewrite::rewritten(ordered, tables) is Ok {
            let lowered = rewrite::rewritten(ordered, tables)->Ok_0;
            if pushdown::pushed(lowered, None, tables) is Ok {
                joins_hold_their_smaller_inputs(
                    pushdown::pushed(lowered, None, tables)->Ok_0,
                    tables,
                );
            }
        }
    }
}

/// Each step that cannot be taken in a part of a plan cannot be taken in the plan, and fails there
/// as it does in the part; of two inputs the left one comes first.
pub proof fn a_step_fails_as_its_first_part_that_does(
    l: Plan,
    r: Plan,
    tests: Seq<Test>,
    map: Seq<(Seq<char>, Seq<char>)>,
    keys: Seq<SortKey>,
    a: Seq<char>,
    b: Seq<char>,
    tables: Seq<Table>,
    e: Fault,
)
    ensures
        reorder::reordered(l, tables) == Err::<Plan, Fault>(e) ==> {
            &&& reorder::reordered(Plan::Filter(tests, Box::new(l)), tables) == Err::<Plan, Fault>(e)
            &&& reorder::reordered(Plan::Project(map, Box::new(l)), tables) == Err::<Plan, Fault>(e)
            &&& reorder::reordered(Plan::Sort(keys, Box::new(l)), tables) == Err::<Plan, Fault>(e)
            &&& reorder::reordered(Plan::Cross(Box::new(l), Box::new(r)), tables) == Err::<
                Plan,
                Fault,
            >(e)
            &&& reorder::reordered(Plan::HashJoin(Box::new(l), Box::new(r), a, b), tables) == Err::<
                Plan,
                Fault,
            >(e)
        },
        reorder::reordered(l, tables) is Ok && reorder::reordered(r, tables) == Err::<Plan, Fault>(e)
            ==> {
            &&& reorder::reordered(Plan::Cross(Box::new(l), Box::new(r)), tables) == Err::<
                Plan,
                Fault,
            >(e)
            &&& reorder::reordered(Plan::HashJoin(Box::new(l), Box::new(r), a, b), tables) == Err::<
                Plan,
                Fault,
            >(e)
        },
        rewrite::rewritten(l, tables) == Err::<Plan, Fault>(e) ==> {
            &&& rewrite::rewritten(Plan::Filter(tests, Box::new(l)), tables) == Err::<Plan, Fault>(e)
            &&& rewrite::rewritten(Plan::Project(map, Box::new(l)), tables) == Err::<Plan, Fault>(e)
            &&& rewrite::rewritten(Plan::Sort(keys, Box::new(l)), tables) == Err::<Plan, Fault>(e)
            &&& rewrite::rewritten(Plan::Cross(Box::new(l), Box::new(r)), tables) == Err::<
                Plan,
                Fault,
            >(e)
            &&& rewrite::rewritten(Plan::HashJoin(Box::new(l), Box::new(r), a, b), tables) == Err::<
                Plan,
                Fault,
            >(e)
        },
        rewrite::rewritten(l, tables) is Ok && rewrite::rewritten(r, tables) == Err::<Plan, Fault>(e)
            ==> {
            &&& rewrite::rewritten(Plan::Cross(Box::new(l), Box::new(r)), tables) == Err::<
                Plan,
                Fault,
            >(e)
            &&& rewrite::rewritten(Plan::HashJoin(Box::new(l), Box::new(r), a, b), tables) == Err::<
                Plan,
                Fault,
            >(e)
        },
        swap::swapped(l, tables) == Err::<Plan, Fault>(e) ==> {
            &&& swap::swapped(Plan::Filter(tests, Box::new(l)), tables) == Err::<Plan, Fault>(e)
            &&& swap::swapped(Plan::Project(map, Box::new(l)), tables) == Err::<Plan, Fault>(e)
            &&& swap::swapped(Plan::Sort(keys, Box::new(l)), tables) == Err::<Plan, Fault>(e)
            &&& swap::swapped(Plan::Cross(Box::new(l), Box::new(r)), tables) == Err::<Plan, Fault>(e)
            &&& swap::swapped(Plan::HashJoin(Box::new(l), Box::new(r), a, b), tables) == Err::<
                Plan,
                Fault,
            >(e)
        },
        swap::swapped(l, tables) is Ok && swap::swapped(r, tables) == Err::<Plan, Fault>(e) ==> {
            &&& swap::swapped(Plan::Cross(Box::new(l), Box::new(r)), tables) == Err::<Plan, Fault>(e)
            &&& swap::swapped(Plan::HashJoin(Box::new(l), Box::new(r), a, b), tables) == Err::<
                Plan,
                Fault,
            >(e)
        },
{
}

/// What a step leaves of a plan: filters keep their tests, projections their columns, sorts their
/// keys but where they are left out, and joins their conditions and inputs, each of which the
/// step has been taken in.
pub proof fn steps_keep_the_operators_of_a_plan(
    l: Plan,
    r: Plan,
    p: Plan,
    q: Plan,
    map: Seq<(Seq<char>, Seq<char>)>,
    keys: Seq<SortKey>,
    a: Seq<char>,
    b: Seq<char>,
    id: Seq<char>,
    tables: Seq<Table>,
)
    ensures
        reorder::reordered(Plan::Scan(id), tables) == Ok::<Plan, Fault>(Plan::Scan(id)),
        rewrite::rewritten(Plan::Scan(id), tables) == Ok::<Plan, Fault>(Plan::Scan(id)),
        swap::swapped(Plan::Scan(id), tables) == Ok::<Plan, Fault>(Plan::Scan(id)),
        pushdown::pushed(Plan::Scan(id), None, tables) == Ok::<Plan, Fault>(Plan::Scan(id)),
        reorder::reordered(l, tables) == Ok::<Plan, Fault>(p) ==> {
            &&& reorder::reordered(Plan::Project(map, Box::new(l)), tables) == Ok::<Plan, Fault>(
                Plan::Project(map, Box::new(p)),
            )
            &&& reorder::reordered(Plan::Sort(keys, Box::new(l)), tables) == Ok::<Plan, Fault>(
                Plan::Sort(keys, Box::new(p)),
            )
            &&& reorder::reordered(r, tables) == Ok::<Plan, Fault>(q) ==> {
                &&& reorder::reordered(Plan::Cross(Box::new(l), Box::new(r)), tables) == Ok::<
                    Plan,
                    Fault,
                >(Plan::Cross(Box::new(p), Box::new(q)))
                &&& reorder::reordered(Plan::HashJoin(Box::new(l), Box::new(r), a, b), tables)
                    == Ok::<Plan, Fault>(Plan::HashJoin(Box::new(p), Box::new(q), a, b))
            }
        },
        rewrite::rewritten(l, tables) == Ok::<Plan, Fault>(p) ==> {
            &&& rewrite::rewritten(Plan::Project(map, Box::new(l)), tables) == Ok::<Plan, Fault>(
                Plan::Project(map, Box::new(p)),
            )
            &&& rewrite::rewritten(r, tables) == Ok::<Plan, Fault>(q) ==> {
                &&& rewrite::rewritten(Plan::Cross(Box::new(l), Box::new(r)), tables) == Ok::<
                    Plan,
                    Fault,
                >(Plan::Cross(Box::new(p), Box::new(q)))
                &&& rewrite::rewritten(Plan::HashJoin(Box::new(l), Box::new(r), a, b), tables)
                    == Ok::<Plan, Fault>(Plan::HashJoin(Box::new(p), Box::new(q), a, b))
            }
        },
        pushdown::pushed(l, None, tables) == Ok::<Plan, Fault>(p) && pushdown::pushed(r, None, tables)
            == Ok::<Plan, Fault>(q) ==> {
            &&& pushdown::pushed(Plan::Cross(Box::new(l), Box::new(r)), None, tables) == Ok::<
                Plan,
                Fault,
            >(Plan::Cross(Box::new(p), Box::new(q)))
            &&& pushdown::pushed(Plan::HashJoin(Box::new(l), Box::new(r), a, b), None, tables) == Ok::<
                Plan,
                Fault,
            >(Plan::HashJoin(Box::new(p), Box::new(q), a, b))
        },
{
}

} // verus!
