//! The order of joins: the inputs of cross joins under a filter are joined one after the
//! other in the cheapest order.

use vstd::prelude::*;

use crate::error::{DbError, Fault};
use crate::float::{f64_from_u64, f64_max, f64_mul};
use crate::float;
use crate::ops::rows;
use crate::optimizer::benchmark::{find_known_order, find_known_table, Known};
use crate::optimizer::benchmark;
use crate::optimizer::estimate::{estimate_cardinality, estimate_selectivity, ONE, TENTH};
use crate::optimizer::estimate;
use crate::optimizer::join_order::find_best_join_order;
use crate::optimizer::join_order;
use crate::optimizer::rewrite::{has, joins_inputs};
use crate::optimizer::rewrite;
use crate::query::{
    ComparisionValue, CrossData, DbContext, FilterData, HashJoinData, Operand,
    Plan, Predicate, ProjectData, QueryOp, ScanData, SortData, Table, Test,
};
use crate::row;
use crate::schema::{get_schema, Column, ColumnInfo};
use crate::schema;
use crate::seqs;

verus! {

// ---- trees of cross joins ----

/// The inputs of a tree of cross joins, from left to right.
pub open spec fn leaves(plan: Plan) -> Seq<Plan>
    decreases plan,
{
    match plan {
        Plan::Cross(l, r) => leaves(*l) + leaves(*r),
        other => seq![other],
    }
}

/// Whether a plan is made of cross joins and scans alone.
pub open spec fn pure_crosses(plan: Plan) -> bool
    decreases plan,
{
    match plan {
        Plan::Cross(l, r) => pure_crosses(*l) && pure_crosses(*r),
        Plan::Scan(_) => true,
        _ => false,
    }
}

/// The cross joins of inputs, one after the other.
pub open spec fn left_deep(inputs: Seq<Plan>) -> Plan
    decreases inputs.len(),
{
    if inputs.len() <= 1 {
        inputs[0]
    } else {
        Plan::Cross(Box::new(left_deep(inputs.drop_last())), Box::new(inputs.last()))
    }
}

/// Plans in another order.
pub open spec fn arranged(inputs: Seq<Plan>, order: Seq<int>) -> Seq<Plan> {
    order.map_values(|i: int| inputs[i])
}

/// Plans as mathematical trees.
pub open spec fn plans_view(ops: Seq<QueryOp>) -> Seq<Plan> {
    ops.map_values(|o: QueryOp| o@)
}

/// Says whether a plan is made of cross joins and scans alone.
pub fn is_pure_cross_tree(op: &QueryOp) -> (res: bool)
    ensures
        res == pure_crosses(op@),
    decreases op,
{
    match op {
        QueryOp::Cross(c) => is_pure_cross_tree(&c.left) && is_pure_cross_tree(&c.right),
        QueryOp::Scan(_) => true,
        _ => false,
    }
}

/// Counts the inputs of a tree of cross joins.
pub fn count_cross_leaves(op: &QueryOp) -> (res: usize)
    ensures
        res == row::saturated(leaves(op@).len()),
    decreases op,
{
    match op {
        QueryOp::Cross(c) => count_cross_leaves(&c.left).saturating_add(
            count_cross_leaves(&c.right),
        ),
        _ => 1,
    }
}

/// Takes a tree of cross joins apart into its inputs.
pub fn flatten_crosses(op: QueryOp, tables: &mut Vec<QueryOp>)
    ensures
        plans_view(final(tables)@) == plans_view(old(tables)@) + leaves(op@),
    decreases op,
{
    let ghost before = plans_view(tables@);
    match op {
        QueryOp::Cross(c) => {
            flatten_crosses(*c.left, tables);
            flatten_crosses(*c.right, tables);
            assert(plans_view(tables@) =~= before + leaves(op@));
        },
        other => {
            tables.push(other);
            assert(plans_view(tables@) =~= before + leaves(op@));
        },
    }
}

// ---- what decides the order ----

/// The columns of inputs.
pub open spec fn input_columns(inputs: Seq<Plan>, tables: Seq<Table>) -> Result<
    Seq<Seq<Column>>,
    Fault,
>
    decreases inputs.len(),
{
    if inputs.len() == 0 {
        Ok(Seq::empty())
    } else {
        match input_columns(inputs.drop_last(), tables) {
            Err(e) => Err(e),
            Ok(before) => match schema::plan_schema(inputs.last(), tables) {
                Err(e) => Err(e),
                Ok(columns) => Ok(before.push(columns)),
            },
        }
    }
}

/// Whether some test asks that a column of the one input equal a column of the other.
pub open spec fn some_equi_join(tests: Seq<Test>, a: Seq<Column>, b: Seq<Column>) -> bool {
    exists|i: int| 0 <= i < tests.len() && rewrite::is_equi_join(#[trigger] tests[i], a, b)
}

/// Which pairs of inputs have a join condition.
pub open spec fn join_edges(columns: Seq<Seq<Column>>, tests: Seq<Test>) -> Seq<Seq<bool>> {
    Seq::new(
        columns.len(),
        |i: int|
            Seq::new(
                columns.len(),
                |j: int| i != j && some_equi_join(tests, columns[i], columns[j]),
            ),
    )
}

/// The share of its rows that the tests of an input alone keep.
pub open spec fn own_share(
    tests: Seq<Test>,
    input: Plan,
    columns: Seq<Column>,
    tables: Seq<Table>,
) -> u64
    decreases tests.len(),
{
    if tests.len() == 0 {
        ONE
    } else {
        let before = own_share(tests.drop_last(), input, columns, tables);
        let test = tests.last();
        if !rewrite::has_column(columns, test.column) {
            before
        } else {
            match test.value {
                Operand::Column(other) => if rewrite::has_column(columns, other) {
                    float::f64_product(before, TENTH)
                } else {
                    before
                },
                _ => float::f64_product(before, estimate::selectivity(test, input, tables)),
            }
        }
    }
}

/// The number of rows of an input that pass its own tests, by estimate, at least one.
pub open spec fn effective_card(
    tests: Seq<Test>,
    input: Plan,
    columns: Seq<Column>,
    tables: Seq<Table>,
) -> u64 {
    float::f64_greater(
        float::f64_product(
            float::int_to_f64(estimate::cardinality(input, tables) as int),
            own_share(tests, input, columns, tables),
        ),
        ONE,
    )
}

/// The numbers of rows of the inputs.
pub open spec fn effective_cards(
    tests: Seq<Test>,
    inputs: Seq<Plan>,
    columns: Seq<Seq<Column>>,
    tables: Seq<Table>,
) -> Seq<u64> {
    Seq::new(
        inputs.len(),
        |i: int| effective_card(tests, inputs[i], columns[i], tables),
    )
}

/// The tables that the inputs are.
pub open spec fn known_inputs(columns: Seq<Seq<Column>>) -> Seq<Option<Known>> {
    columns.map_values(|c: Seq<Column>| benchmark::known_table(c))
}

/// The order in which inputs are joined: that of a query of the benchmark, or the
/// cheapest.
pub open spec fn chosen_order(
    tests: Seq<Test>,
    inputs: Seq<Plan>,
    columns: Seq<Seq<Column>>,
    tables: Seq<Table>,
) -> Seq<int> {
    match benchmark::known_order(known_inputs(columns), tests) {
        Some(order) => order,
        None => join_order::best_order(
            join_edges(columns, tests),
            effective_cards(tests, inputs, columns, tables),
        ),
    }
}

/// A filter over cross joins of more than two inputs, these in the chosen order. Other
/// plans stay.
pub open spec fn reordered_filter(tests: Seq<Test>, child: Plan, tables: Seq<Table>) -> Result<
    Plan,
    Fault,
> {
    let inputs = leaves(child);
    if pure_crosses(child) && inputs.len() > 2 {
        match input_columns(inputs, tables) {
            Err(e) => Err(e),
            Ok(columns) => Ok(
                Plan::Filter(
                    tests,
                    Box::new(
                        left_deep(arranged(inputs, chosen_order(tests, inputs, columns, tables))),
                    ),
                ),
            ),
        }
    } else {
        Ok(Plan::Filter(tests, Box::new(child)))
    }
}

/// The plan with its joins in order.
pub open spec fn reordered(plan: Plan, tables: Seq<Table>) -> Result<Plan, Fault>
    decreases plan,
{
    match plan {
        Plan::Scan(_) => Ok(plan),
        Plan::Filter(tests, child) => match reordered(*child, tables) {
            Err(e) => Err(e),
            Ok(c) => reordered_filter(tests, c, tables),
        },
        Plan::Sort(keys, child) => match reordered(*child, tables) {
            Err(e) => Err(e),
            Ok(c) => Ok(Plan::Sort(keys, Box::new(c))),
        },
        Plan::Project(map, child) => match reordered(*child, tables) {
            Err(e) => Err(e),
            Ok(c) => Ok(Plan::Project(map, Box::new(c))),
        },
        Plan::Cross(l, r) => match (reordered(*l, tables), reordered(*r, tables)) {
            (Err(e), _) => Err(e),
            (Ok(_), Err(e)) => Err(e),
            (Ok(l2), Ok(r2)) => Ok(Plan::Cross(Box::new(l2), Box::new(r2))),
        },
        Plan::HashJoin(l, r, a, b) => match (reordered(*l, tables), reordered(*r, tables)) {
            (Err(e), _) => Err(e),
            (Ok(_), Err(e)) => Err(e),
            (Ok(l2), Ok(r2)) => Ok(Plan::HashJoin(Box::new(l2), Box::new(r2), a, b)),
        },
    }
}

/// Whether the sets of the inputs that are put in order fit into the bits of a `usize`.
pub open spec fn few_inputs(child: Plan, tables: Seq<Table>) -> bool {
    pure_crosses(child) && input_columns(leaves(child), tables) is Ok ==> leaves(child).len()
        < usize::BITS
}

/// Whether the joins of a plan can be put in order.
pub open spec fn orderable(plan: Plan, tables: Seq<Table>) -> bool
    decreases plan,
{
    match plan {
        Plan::Scan(_) => true,
        Plan::Filter(_, child) => orderable(*child, tables) && (reordered(*child, tables) matches Ok(c)
            ==> few_inputs(c, tables)),
        Plan::Sort(_, child) => orderable(*child, tables),
        Plan::Project(_, child) => orderable(*child, tables),
        Plan::Cross(l, r) => orderable(*l, tables) && (reordered(*l, tables) is Ok ==> orderable(
            *r,
            tables,
        )),
        Plan::HashJoin(l, r, _, _) => orderable(*l, tables) && (reordered(*l, tables) is Ok
            ==> orderable(*r, tables)),
    }
}

/// The order takes each input once.
pub proof fn the_chosen_order_takes_each_input_once(
    tests: Seq<Test>,
    inputs: Seq<Plan>,
    columns: Seq<Seq<Column>>,
    tables: Seq<Table>,
)
    requires
        inputs.len() == columns.len(),
    ensures
        seqs::is_arrangement(
            chosen_order(tests, inputs, columns, tables),
            inputs.len(),
        ),
{
    let known = known_inputs(columns);
    let edges = join_edges(columns, tests);
    let cards = effective_cards(tests, inputs, columns, tables);
    benchmark::a_known_order_takes_each_input_once(known, tests);
    join_order::the_order_takes_each_table_once(edges, cards);
    let best = join_order::best_order(edges, cards);
    assert forall|i: int| 0 <= i < best.len() implies 0 <= #[trigger] best[i] < cards.len() by {
        assert(best.contains(best[i]));
    }
}

// ---- the search for the order ----

/// Computes the columns of inputs.
fn get_columns(inputs: &Vec<QueryOp>, ctx: &DbContext) -> (res: Result<Vec<Vec<ColumnInfo>>, DbError>)
    ensures
        match res {
            Ok(v) => input_columns(plans_view(inputs@), ctx@) == Ok::<_, Fault>(v.deep_view())
                && v@.len() == inputs@.len(),
            Err(e) => input_columns(plans_view(inputs@), ctx@) == Err::<Seq<Seq<Column>>, Fault>(e@),
        },
{
    let ghost p = plans_view(inputs@);
    let mut out: Vec<Vec<ColumnInfo>> = Vec::new();
    let mut i: usize = 0;
    assert(p.take(0) =~= Seq::empty());
    assert(out.deep_view() =~= Seq::<Seq<Column>>::empty());
    while i < inputs.len()
        invariant
            i <= inputs@.len(),
            p == plans_view(inputs@),
            out@.len() == i,
            input_columns(p.take(i as int), ctx@) == Ok::<_, Fault>(out.deep_view()),
        decreases inputs@.len() - i,
    {
        let ghost before = out.deep_view();
        proof {
            assert(p.take(i + 1).drop_last() =~= p.take(i as int));
            assert(p.take(i + 1).last() == inputs@[i as int]@);
        }
        match get_schema(&inputs[i], ctx) {
            Err(e) => {
                proof {
                    lemma_columns_fail(p, ctx@, i + 1);
                }
                return Err(e);
            },
            Ok(columns) => {
                let ghost c = columns.deep_view();
                out.push(columns);
                assert(out.deep_view() =~= before.push(c));
            },
        }
        i += 1;
    }
    assert(p.take(i as int) =~= p);
    Ok(out)
}

proof fn lemma_columns_fail(inputs: Seq<Plan>, tables: Seq<Table>, n: int)
    requires
        0 <= n <= inputs.len(),
        input_columns(inputs.take(n), tables) is Err,
    ensures
        input_columns(inputs, tables) == input_columns(inputs.take(n), tables),
    decreases inputs.len() - n,
{
    if n == inputs.len() {
        assert(inputs.take(n) =~= inputs);
    } else {
        assert(inputs.take(n + 1).drop_last() =~= inputs.take(n));
        lemma_columns_fail(inputs, tables, n + 1);
    }
}

fn some_joins(predicates: &Vec<Predicate>, a: &Vec<ColumnInfo>, b: &Vec<ColumnInfo>) -> (res: bool)
    ensures
        res == some_equi_join(predicates.deep_view(), a.deep_view(), b.deep_view()),
{
    let ghost t = predicates.deep_view();
    let mut i: usize = 0;
    while i < predicates.len()
        invariant
            i <= predicates@.len(),
            t == predicates.deep_view(),
            forall|j: int|
                0 <= j < i ==> !rewrite::is_equi_join(
                    #[trigger] t[j],
                    a.deep_view(),
                    b.deep_view(),
                ),
        decreases predicates@.len() - i,
    {
        assert(t[i as int] == predicates@[i as int].deep_view());
        if joins_inputs(&predicates[i], a, b) {
            return true;
        }
        i += 1;
    }
    false
}

fn edges_from(predicates: &Vec<Predicate>, columns: &Vec<Vec<ColumnInfo>>, i: usize) -> (res: Vec<bool>)
    requires
        i < columns@.len(),
    ensures
        res@ == join_edges(columns.deep_view(), predicates.deep_view())[i as int],
{
    let ghost all = join_edges(columns.deep_view(), predicates.deep_view());
    let mut out: Vec<bool> = Vec::new();
    let mut j: usize = 0;
    while j < columns.len()
        invariant
            i < columns@.len(),
            j <= columns@.len(),
            all == join_edges(columns.deep_view(), predicates.deep_view()),
            out@.len() == j,
            forall|k: int| 0 <= k < j ==> #[trigger] out@[k] == all[i as int][k],
        decreases columns@.len() - j,
    {
        proof {
            assert(columns.deep_view()[i as int] == columns@[i as int].deep_view());
            assert(columns.deep_view()[j as int] == columns@[j as int].deep_view());
        }
        out.push(i != j && some_joins(predicates, &columns[i], &columns[j]));
        j += 1;
    }
    assert(out@ =~= all[i as int]);
    out
}

/// Finds the pairs of inputs that have a join condition.
fn find_edges(predicates: &Vec<Predicate>, columns: &Vec<Vec<ColumnInfo>>) -> (res: Vec<Vec<bool>>)
    ensures
        res.deep_view() == join_edges(columns.deep_view(), predicates.deep_view()),
        res@.len() == columns@.len(),
{
    let ghost all = join_edges(columns.deep_view(), predicates.deep_view());
    let mut out: Vec<Vec<bool>> = Vec::new();
    let mut i: usize = 0;
    while i < columns.len()
        invariant
            i <= columns@.len(),
            all == join_edges(columns.deep_view(), predicates.deep_view()),
            out@.len() == i,
            forall|k: int| 0 <= k < i ==> (#[trigger] out@[k])@ == all[k],
        decreases columns@.len() - i,
    {
        out.push(edges_from(predicates, columns, i));
        i += 1;
    }
    assert forall|k: int| 0 <= k < out@.len() implies #[trigger] out.deep_view()[k] == all[k] by {
        assert(out@[k].deep_view() =~= out@[k]@);
    }
    assert(out.deep_view() =~= all);
    out
}

fn find_share(predicates: &Vec<Predicate>, input: &QueryOp, columns: &Vec<ColumnInfo>, ctx: &DbContext) -> (res:
    u64)
    ensures
        res == own_share(predicates.deep_view(), input@, columns.deep_view(), ctx@),
{
    let ghost t = predicates.deep_view();
    let mut share: u64 = ONE;
    let mut i: usize = 0;
    assert(t.take(0) =~= Seq::empty());
    while i < predicates.len()
        invariant
            i <= predicates@.len(),
            t == predicates.deep_view(),
            share == own_share(t.take(i as int), input@, columns.deep_view(), ctx@),
        decreases predicates@.len() - i,
    {
        proof {
            assert(t.take(i + 1).drop_last() =~= t.take(i as int));
            assert(t.take(i + 1).last() == predicates@[i as int].deep_view());
        }
        if has(columns, &predicates[i].column_name) {
            match &predicates[i].value {
                ComparisionValue::Column(other) => {
                    if has(columns, other) {
                        share = f64_mul(share, TENTH);
                    }
                },
                _ => {
                    share = f64_mul(share, estimate_selectivity(&predicates[i], input, ctx));
                },
            }
        }
        i += 1;
    }
    assert(t.take(i as int) =~= t);
    share
}

/// Estimates the numbers of rows of the inputs.
fn find_cards(
    predicates: &Vec<Predicate>,
    inputs: &Vec<QueryOp>,
    columns: &Vec<Vec<ColumnInfo>>,
    ctx: &DbContext,
) -> (res: Vec<u64>)
    requires
        inputs@.len() == columns@.len(),
    ensures
        res@ == effective_cards(
            predicates.deep_view(),
            plans_view(inputs@),
            columns.deep_view(),
            ctx@,
        ),
{
    let ghost all = effective_cards(
        predicates.deep_view(),
        plans_view(inputs@),
        columns.deep_view(),
        ctx@,
    );
    let mut out: Vec<u64> = Vec::new();
    let mut i: usize = 0;
    while i < inputs.len()
        invariant
            i <= inputs@.len(),
            inputs@.len() == columns@.len(),
            all == effective_cards(
                predicates.deep_view(),
                plans_view(inputs@),
                columns.deep_view(),
                ctx@,
            ),
            out@.len() == i,
            forall|k: int| 0 <= k < i ==> #[trigger] out@[k] == all[k],
        decreases inputs@.len() - i,
    {
        proof {
            assert(columns.deep_view()[i as int] == columns@[i as int].deep_view());
            assert(plans_view(inputs@)[i as int] == inputs@[i as int]@);
        }
        let share: u64 = find_share(predicates, &inputs[i], &columns[i], ctx);
        let raw: u64 = f64_from_u64(estimate_cardinality(&inputs[i], ctx) as u64);
        out.push(f64_max(f64_mul(raw, share), ONE));
        i += 1;
    }
    assert(out@ =~= all);
    out
}

fn find_known(columns: &Vec<Vec<ColumnInfo>>) -> (res: Vec<Option<Known>>)
    ensures
        res@ == known_inputs(columns.deep_view()),
{
    let mut out: Vec<Option<Known>> = Vec::new();
    let mut i: usize = 0;
    while i < columns.len()
        invariant
            i <= columns@.len(),
            out@.len() == i,
            forall|k: int|
                0 <= k < i ==> #[trigger] out@[k] == known_inputs(columns.deep_view())[k],
        decreases columns@.len() - i,
    {
        out.push(find_known_table(&columns[i]));
        i += 1;
    }
    assert(out@ =~= known_inputs(columns.deep_view()));
    out
}

/// Finds the order in which inputs are joined.
fn find_order(
    predicates: &Vec<Predicate>,
    inputs: &Vec<QueryOp>,
    columns: &Vec<Vec<ColumnInfo>>,
    ctx: &DbContext,
) -> (res: Vec<usize>)
    requires
        inputs@.len() == columns@.len(),
        inputs@.len() < usize::BITS,
    ensures
        rows::positions(res@) == chosen_order(
            predicates.deep_view(),
            plans_view(inputs@),
            columns.deep_view(),
            ctx@,
        ),
{
    let known = find_known(columns);
    match find_known_order(&known, predicates) {
        Some(order) => order,
        None => {
            let edges = find_edges(predicates, columns);
            let cards = find_cards(predicates, inputs, columns, ctx);
            find_best_join_order(inputs.len(), &edges, &cards)
        },
    }
}

// ---- the new tree ----

spec fn slots_view(slots: Seq<Option<QueryOp>>) -> Seq<Option<Plan>> {
    slots.map_values(
        |s: Option<QueryOp>|
            match s {
                Some(op) => Some(op@),
                None => None,
            },
    )
}

/// Puts inputs in order.
fn arrange(inputs: Vec<QueryOp>, order: &Vec<usize>) -> (res: Vec<QueryOp>)
    requires
        seqs::is_arrangement(rows::positions(order@), inputs@.len()),
    ensures
        plans_view(res@) == arranged(plans_view(inputs@), rows::positions(order@)),
{
    let ghost p = plans_view(inputs@);
    let ghost places = rows::positions(order@);
    let n: usize = inputs.len();
    let mut slots: Vec<Option<QueryOp>> = Vec::new();
    let mut rest = inputs;
    let mut i: usize = n;
    // The slots are filled from the last input to the first, and then stand in reverse.
    while i > 0
        invariant
            i <= n,
            n == p.len(),
            rest@.len() == i,
            slots@.len() == n - i,
            plans_view(rest@) == p.take(i as int),
            forall|k: int| 0 <= k < n - i ==> slots_view(slots@)[k] == Some(p[n - 1 - k]),
        decreases i,
    {
        let ghost before = slots_view(slots@);
        let taken = rest.pop();
        i -= 1;
        assert(taken is Some);
        proof {
            assert(plans_view(rest@) =~= p.take(i as int));
            assert(p.take(i + 1)[i as int] == p[i as int]);
        }
        slots.push(taken);
        assert(slots_view(slots@) =~= before.push(Some(p[i as int])));
    }
    let mut out: Vec<QueryOp> = Vec::new();
    let mut k: usize = 0;
    while k < order.len()
        invariant
            k <= order@.len(),
            n == p.len(),
            order@.len() == n,
            slots@.len() == n,
            places == rows::positions(order@),
            seqs::is_arrangement(places, n as nat),
            out@.len() == k,
            forall|j: int| 0 <= j < k ==> (#[trigger] out@[j])@ == p[places[j]],
            forall|j: int|
                #![trigger places[j]]
                k <= j < n ==> slots_view(slots@)[n - 1 - places[j]] == Some(p[places[j]]),
        decreases order@.len() - k,
    {
        let ghost before = slots_view(slots@);
        assert(places[k as int] == order@[k as int]);
        let at: usize = n - 1 - order[k];
        let mut slot: Option<QueryOp> = None;
        std::mem::swap(&mut slot, &mut slots[at]);
        assert(before[at as int] == Some(p[places[k as int]]));
        match slot {
            Some(op) => {
                out.push(op);
            },
            None => {
                assert(false);
            },
        }
        proof {
            assert(slots_view(slots@) =~= before.update(at as int, None));
            assert forall|j: int|
                #![trigger places[j]]
                k + 1 <= j < n implies slots_view(slots@)[n - 1 - places[j]] == Some(p[places[j]]) by {
                assert(places[j] != places[k as int]);
            }
        }
        k += 1;
    }
    assert(plans_view(out@) =~= arranged(p, places));
    out
}

/// Joins inputs one after the other.
fn join_in_turn(inputs: Vec<QueryOp>) -> (res: QueryOp)
    requires
        inputs@.len() > 0,
    ensures
        res@ == left_deep(plans_view(inputs@)),
    decreases inputs@.len(),
{
    let ghost p = plans_view(inputs@);
    let mut rest = inputs;
    let last = rest.pop();
    match last {
        Some(op) => {
            if rest.len() == 0 {
                op
            } else {
                assert(plans_view(rest@) =~= p.drop_last());
                let left = join_in_turn(rest);
                QueryOp::Cross(CrossData { left: Box::new(left), right: Box::new(op) })
            }
        },
        None => QueryOp::Scan(ScanData { table_id: String::new() }),
    }
}

/// Puts the inputs of the cross joins under a filter in order.
fn reorder_filter(predicates: Vec<Predicate>, child: QueryOp, ctx: &DbContext) -> (res: Result<
    QueryOp,
    DbError,
>)
    requires
        few_inputs(child@, ctx@),
    ensures
        rewrite::plan_view(res) == reordered_filter(predicates.deep_view(), child@, ctx@),
{
    if is_pure_cross_tree(&child) && count_cross_leaves(&child) > 2 {
        let mut inputs: Vec<QueryOp> = Vec::new();
        let ghost all = leaves(child@);
        flatten_crosses(child, &mut inputs);
        assert(plans_view(inputs@) =~= all);
        let columns = get_columns(&inputs, ctx)?;
        let order = find_order(&predicates, &inputs, &columns, ctx);
        proof {
            the_chosen_order_takes_each_input_once(
                predicates.deep_view(),
                all,
                columns.deep_view(),
                ctx@,
            );
        }
        let in_order = arrange(inputs, &order);
        assert(plans_view(in_order@).len() == all.len());
        let tree = join_in_turn(in_order);
        Ok(QueryOp::Filter(FilterData { predicates, underlying: Box::new(tree) }))
    } else {
        Ok(QueryOp::Filter(FilterData { predicates, underlying: Box::new(child) }))
    }
}

/// Puts the joins of a plan in order: wherever a filter stands over cross joins of more
/// than two inputs, these are joined one after the other in the cheapest order.
pub fn reorder_joins(op: QueryOp, ctx: &DbContext) -> (res: Result<QueryOp, DbError>)
    requires
        orderable(op@, ctx@),
    ensures
        rewrite::plan_view(res) == reordered(op@, ctx@),
    decreases op,
{
    match op {
        QueryOp::Scan(s) => Ok(QueryOp::Scan(s)),
        QueryOp::Filter(f) => {
            let below = reorder_joins(*f.underlying, ctx)?;
            reorder_filter(f.predicates, below, ctx)
        },
        QueryOp::Sort(s) => {
            let below = reorder_joins(*s.underlying, ctx)?;
            Ok(
                QueryOp::Sort(SortData { sort_specs: s.sort_specs, underlying: Box::new(below) }),
            )
        },
        QueryOp::Project(p) => {
            let below = reorder_joins(*p.underlying, ctx)?;
            Ok(
                QueryOp::Project(
                    ProjectData { column_name_map: p.column_name_map, underlying: Box::new(below) },
                ),
            )
        },
        QueryOp::Cross(c) => {
            let left = reorder_joins(*c.left, ctx)?;
            let right = reorder_joins(*c.right, ctx)?;
            Ok(QueryOp::Cross(CrossData { left: Box::new(left), right: Box::new(right) }))
        },
        QueryOp::HashJoin(h) => {
            let left = reorder_joins(*h.left, ctx)?;
            let right = reorder_joins(*h.right, ctx)?;
            Ok(
                QueryOp::HashJoin(
                    HashJoinData {
                        left: Box::new(left),
                        right: Box::new(right),
                        left_join_col: h.left_join_col,
                        right_join_col: h.right_join_col,
                    },
                ),
            )
        },
    }
}

// ---- whether the joins can be put in order ----

/// Whether no filter stands over cross joins of more inputs than a `usize` has bits.
pub open spec fn joins_few(plan: Plan) -> bool
    decreases plan,
{
    match plan {
        Plan::Scan(_) => true,
        Plan::Filter(_, child) => joins_few(*child) && (pure_crosses(*child) ==> leaves(*child).len()
            < usize::BITS),
        Plan::Sort(_, child) => joins_few(*child),
        Plan::Project(_, child) => joins_few(*child),
        Plan::Cross(l, r) => joins_few(*l) && joins_few(*r),
        Plan::HashJoin(l, r, _, _) => joins_few(*l) && joins_few(*r),
    }
}

/// What is put in order keeps the number of its inputs and what it is made of.
proof fn lemma_reordered_shape(plan: Plan, tables: Seq<Table>)
    ensures
        match reordered(plan, tables) {
            Ok(p) => leaves(p).len() == leaves(plan).len() && pure_crosses(p) == pure_crosses(plan),
            Err(_) => true,
        },
    decreases plan,
{
    match plan {
        Plan::Scan(_) => {},
        Plan::Filter(tests, child) => {
            lemma_reordered_shape(*child, tables);
            match reordered(*child, tables) {
                Ok(c) => {
                    if pure_crosses(c) && leaves(c).len() > 2 {
                        match input_columns(leaves(c), tables) {
                            Ok(columns) => {
                                let inputs = leaves(c);
                                let order = chosen_order(tests, inputs, columns, tables);
                                lemma_leaves_pure(c);
                                lemma_columns_len(inputs, tables);
                                the_chosen_order_takes_each_input_once(
                                    tests,
                                    inputs,
                                    columns,
                                    tables,
                                );
                                lemma_left_deep_pure(arranged(inputs, order));
                            },
                            Err(_) => {},
                        }
                    }
                },
                Err(_) => {},
            }
        },
        Plan::Sort(_, child) => {
            lemma_reordered_shape(*child, tables);
        },
        Plan::Project(_, child) => {
            lemma_reordered_shape(*child, tables);
        },
        Plan::Cross(l, r) => {
            lemma_reordered_shape(*l, tables);
            lemma_reordered_shape(*r, tables);
        },
        Plan::HashJoin(l, r, _, _) => {
            lemma_reordered_shape(*l, tables);
            lemma_reordered_shape(*r, tables);
        },
    }
}

/// The columns of inputs are those of each.
pub proof fn lemma_columns_len(inputs: Seq<Plan>, tables: Seq<Table>)
    ensures
        match input_columns(inputs, tables) {
            Ok(columns) => columns.len() == inputs.len() && forall|i: int|
                0 <= i < inputs.len() ==> schema::plan_schema(#[trigger] inputs[i], tables) == Ok::<
                    _,
                    Fault,
                >(columns[i]),
            Err(_) => true,
        },
    decreases inputs.len(),
{
    if inputs.len() > 0 {
        lemma_columns_len(inputs.drop_last(), tables);
        match input_columns(inputs, tables) {
            Ok(columns) => {
                let before = input_columns(inputs.drop_last(), tables)->Ok_0;
                assert forall|i: int| 0 <= i < inputs.len() implies schema::plan_schema(
                    #[trigger] inputs[i],
                    tables,
                ) == Ok::<_, Fault>(columns[i]) by {
                    if i < before.len() {
                        assert(inputs.drop_last()[i] == inputs[i]);
                    }
                }
            },
            Err(_) => {},
        }
    }
}

proof fn lemma_leaves_pure(plan: Plan)
    requires
        pure_crosses(plan),
    ensures
        leaves(plan).len() > 0,
        forall|i: int| 0 <= i < leaves(plan).len() ==> pure_crosses(#[trigger] leaves(plan)[i]),
    decreases plan,
{
    match plan {
        Plan::Cross(l, r) => {
            lemma_leaves_pure(*l);
            lemma_leaves_pure(*r);
        },
        _ => {},
    }
}

proof fn lemma_left_deep_pure(inputs: Seq<Plan>)
    requires
        inputs.len() > 0,
        forall|i: int| 0 <= i < inputs.len() ==> pure_crosses(#[trigger] inputs[i]),
    ensures
        pure_crosses(left_deep(inputs)),
    decreases inputs.len(),
{
    if inputs.len() > 1 {
        assert forall|i: int| 0 <= i < inputs.len() - 1 implies pure_crosses(
            #[trigger] inputs.drop_last()[i],
        ) by {
            assert(inputs.drop_last()[i] == inputs[i]);
        }
        lemma_left_deep_pure(inputs.drop_last());
    }
}

/// The inputs of a tree of cross joins and scans make such a tree in another order too.
pub proof fn lemma_arranged_pure(plan: Plan, order: Seq<int>)
    requires
        pure_crosses(plan),
        order.len() == leaves(plan).len(),
        forall|i: int| 0 <= i < order.len() ==> 0 <= #[trigger] order[i] < leaves(plan).len(),
    ensures
        pure_crosses(left_deep(arranged(leaves(plan), order))),
{
    lemma_leaves_pure(plan);
    lemma_left_deep_pure(arranged(leaves(plan), order));
}

/// Where no filter stands over too many inputs, the joins can be put in order.
pub proof fn lemma_few_are_orderable(plan: Plan, tables: Seq<Table>)
    requires
        joins_few(plan),
    ensures
        orderable(plan, tables),
    decreases plan,
{
    match plan {
        Plan::Scan(_) => {},
        Plan::Filter(_, child) => {
            lemma_few_are_orderable(*child, tables);
            lemma_reordered_shape(*child, tables);
        },
        Plan::Sort(_, child) => {
            lemma_few_are_orderable(*child, tables);
        },
        Plan::Project(_, child) => {
            lemma_few_are_orderable(*child, tables);
        },
        Plan::Cross(l, r) => {
            lemma_few_are_orderable(*l, tables);
            lemma_few_are_orderable(*r, tables);
        },
        Plan::HashJoin(l, r, _, _) => {
            lemma_few_are_orderable(*l, tables);
            lemma_few_are_orderable(*r, tables);
        },
    }
}

/// Says whether no filter stands over cross joins of more inputs than a `usize` has bits,
/// so that the joins of the plan can be put in order.
pub fn joins_fit(op: &QueryOp) -> (res: bool)
    ensures
        res == joins_few(op@),
        res ==> forall|tables: Seq<Table>| #[trigger] orderable(op@, tables),
    decreases op,
{
    let res = match op {
        QueryOp::Scan(_) => true,
        QueryOp::Filter(f) => joins_fit(&f.underlying) && (!is_pure_cross_tree(&f.underlying)
            || count_cross_leaves(&f.underlying) < usize::BITS as usize),
        QueryOp::Sort(s) => joins_fit(&s.underlying),
        QueryOp::Project(p) => joins_fit(&p.underlying),
        QueryOp::Cross(c) => joins_fit(&c.left) && joins_fit(&c.right),
        QueryOp::HashJoin(h) => joins_fit(&h.left) && joins_fit(&h.right),
    };
    proof {
        if res {
            assert forall|tables: Seq<Table>| #[trigger] orderable(op@, tables) by {
                lemma_few_are_orderable(op@, tables);
            }
        }
    }
    res
}

} // verus!
