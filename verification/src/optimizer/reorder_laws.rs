//! Laws of the order of joins: it keeps the answer, up to its order, and the columns, up to
//! theirs.

use vstd::prelude::*;

use crate::answer::{Database, Record};
use crate::answer;
use crate::error::Fault;
use crate::ops::filter;
use crate::ops::hash;
use crate::optimizer::pushdown_laws;
use crate::optimizer::reorder;
use crate::optimizer::rewrite;
use crate::optimizer::rewrite_laws;
use crate::query::{Operand, Plan, Table, Test};
use crate::schema::Column;
use crate::schema;
use crate::seqs;

verus! {

// ---- the same columns in another order ----

/// Whether two sequences of columns hold the same columns.
pub open spec fn same_columns(a: Seq<Column>, b: Seq<Column>) -> bool {
    pushdown_laws::among(a, b) && pushdown_laws::among(b, a)
}

/// The same columns give the same projection.
proof fn lemma_same_projection(
    a: Seq<Column>,
    b: Seq<Column>,
    map: Seq<(Seq<char>, Seq<char>)>,
)
    requires
        same_columns(a, b),
        schema::projected_columns(b, map) is Ok,
    ensures
        schema::projected_columns(a, map) == schema::projected_columns(b, map),
{
    answer::lemma_projected(b, map);
    assert forall|i: int| 0 <= i < map.len() implies rewrite::has_column(a, (#[trigger] map[i]).0) by {
        assert(rewrite::has_column(b, map[i].0));
    }
    answer::lemma_projects(a, map);
    answer::lemma_projected(a, map);
    let (x, y) = (
        schema::projected_columns(a, map)->Ok_0,
        schema::projected_columns(b, map)->Ok_0,
    );
    assert forall|i: int| 0 <= i < map.len() implies #[trigger] x[i] == y[i] by {
        assert(rewrite::has_column(b, map[i].0));
        assert(rewrite::has_column(a, map[i].0));
    }
    assert(x =~= y);
}

/// Tests of the same columns.
proof fn lemma_same_within(tests: Seq<Test>, a: Seq<Column>, b: Seq<Column>)
    requires
        same_columns(a, b),
        filter::tests_within(tests, b),
    ensures
        filter::tests_within(tests, a),
{
    assert forall|i: int| 0 <= i < tests.len() implies filter::test_within(#[trigger] tests[i], a) by {
        assert(filter::test_within(tests[i], b));
        assert(rewrite::has_column(b, tests[i].column));
        match tests[i].value {
            Operand::Column(other) => {
                assert(rewrite::has_column(b, other));
            },
            _ => {},
        }
    }
}

/// Two inputs with the same columns each.
proof fn lemma_same_both(a: Seq<Column>, b: Seq<Column>, c: Seq<Column>, d: Seq<Column>)
    requires
        same_columns(a, b),
        same_columns(c, d),
        answer::distinct(a),
        answer::distinct(c),
        answer::distinct(b + d),
    ensures
        answer::distinct(a + c),
        same_columns(a + c, b + d),
{
    rewrite_laws::lemma_distinct_parts(b, d);
    pushdown_laws::lemma_both_narrowed(a, b, c, d);
    pushdown_laws::lemma_both_narrowed(b, a, d, c);
}

// ---- products of inputs ----

/// The pairs of records are paired with those of a third.
proof fn lemma_crossed_in_turn(x: Seq<Record>, y: Seq<Record>, z: Seq<Record>)
    ensures
        answer::crossed(x, answer::crossed(y, z)) == answer::crossed(answer::crossed(x, y), z),
{
    let yes = |a: Record, b: Record| true;
    let yz = answer::crossed(y, z);
    let f = |a: Record| seqs::flat(y, |b: Record| seqs::one_if(yes(a, b), answer::both(a, b)));
    let g = |c: Record| seqs::flat(z, |d: Record| seqs::one_if(yes(c, d), answer::both(c, d)));
    let h = |a: Record| seqs::flat(yz, |c: Record| seqs::one_if(yes(a, c), answer::both(a, c)));
    assert forall|i: int| 0 <= i < x.len() implies seqs::flat(f(#[trigger] x[i]), g) == h(x[i]) by {
        let a = x[i];
        let fa = |b: Record| seqs::one_if(yes(a, b), answer::both(a, b));
        let ha = |c: Record| seqs::one_if(yes(a, c), answer::both(a, c));
        let k = |b: Record| g(answer::both(a, b));
        assert(f(a) == seqs::flat(y, fa));
        assert(h(a) == seqs::flat(yz, ha));
        assert forall|j: int| 0 <= j < y.len() implies seqs::flat(fa(#[trigger] y[j]), g) == k(y[j])
            && seqs::flat(g(y[j]), ha) == k(y[j]) by {
            let b = y[j];
            let ab = answer::both(a, b);
            seqs::lemma_flat_one(ab, g);
            let gb = |d: Record| seqs::one_if(yes(b, d), answer::both(b, d));
            let gab = |d: Record| seqs::one_if(yes(ab, d), answer::both(ab, d));
            assert(g(b) == seqs::flat(z, gb));
            assert(g(ab) == seqs::flat(z, gab));
            assert forall|m: int| 0 <= m < z.len() implies seqs::flat(gb(#[trigger] z[m]), ha)
                == gab(z[m]) by {
                let d = z[m];
                seqs::lemma_flat_one(answer::both(b, d), ha);
                assert(answer::both(a, answer::both(b, d)) =~= answer::both(ab, d));
            }
            seqs::lemma_flat_flat(z, gb, ha, gab);
        }
        seqs::lemma_flat_flat(y, fa, g, k);
        seqs::lemma_flat_flat(y, g, ha, k);
    }
    seqs::lemma_flat_flat(x, f, g, h);
}

/// The records of several inputs, paired one after the other.
pub open spec fn product(parts: Seq<Seq<Record>>) -> Seq<Record>
    decreases parts.len(),
{
    if parts.len() <= 1 {
        parts[0]
    } else {
        answer::crossed(product(parts.drop_last()), parts.last())
    }
}

/// The product of inputs is that of their first and their last.
proof fn lemma_product_append(s: Seq<Seq<Record>>, t: Seq<Seq<Record>>)
    requires
        s.len() > 0,
        t.len() > 0,
    ensures
        answer::crossed(product(s), product(t)) == product(s + t),
    decreases t.len(),
{
    assert((s + t).drop_last() =~= s + t.drop_last());
    assert((s + t).last() == t.last());
    if t.len() == 1 {
        assert(s + t.drop_last() =~= s);
    } else {
        lemma_product_append(s, t.drop_last());
        lemma_crossed_in_turn(product(s), product(t.drop_last()), t.last());
    }
}

/// Whether no name stands in records of two parts.
pub open spec fn all_apart(parts: Seq<Seq<Record>>) -> bool {
    forall|i: int, j: int|
        0 <= i < parts.len() && 0 <= j < parts.len() && i != j ==> answer::apart(
            #[trigger] parts[i],
            #[trigger] parts[j],
        )
}

/// The pairs of two parts, with the sides exchanged.
proof fn lemma_crossed_exchanged(x: Seq<Record>, y: Seq<Record>)
    requires
        answer::apart(x, y),
    ensures
        seqs::same_bag(answer::crossed(x, y), answer::crossed(y, x)),
{
    let yes = |a: Record, b: Record| true;
    answer::lemma_pairs_exchanged(x, y, yes, yes);
}

/// The same records, all paired.
proof fn lemma_crossed_bag(
    x: Seq<Record>,
    y: Seq<Record>,
    x2: Seq<Record>,
    y2: Seq<Record>,
)
    requires
        seqs::same_bag(x, x2),
        seqs::same_bag(y, y2),
    ensures
        seqs::same_bag(answer::crossed(x, y), answer::crossed(x2, y2)),
{
    answer::lemma_pairs_bag(x, y, x2, y2, |a: Record, b: Record| true);
}

/// A part can as well be the last one.
proof fn lemma_product_last(parts: Seq<Seq<Record>>, i: int)
    requires
        parts.len() >= 2,
        0 <= i < parts.len(),
        all_apart(parts),
    ensures
        seqs::same_bag(
            product(parts),
            answer::crossed(product(parts.remove(i)), parts[i]),
        ),
    decreases parts.len(),
{
    let u = parts.drop_last();
    let z = parts.last();
    let x = parts[i];
    if i == parts.len() - 1 {
        assert(parts.remove(i) =~= u);
    } else if u.len() == 1 {
        assert(answer::apart(parts[0], parts[1]));
        assert(parts.remove(i) =~= seq![z]);
        assert(product(u) == x);
        assert(product(parts.remove(i)) == z);
        lemma_crossed_exchanged(x, z);
    } else {
        assert forall|k: int, m: int| 0 <= k < u.len() && 0 <= m < u.len() && k != m implies answer::apart(
            #[trigger] u[k],
            #[trigger] u[m],
        ) by {
            assert(u[k] == parts[k] && u[m] == parts[m]);
        }
        lemma_product_last(u, i);
        let p = product(u.remove(i));
        let rest = u.remove(i).push(z);
        assert(rest.drop_last() =~= u.remove(i));
        assert(parts.remove(i) =~= rest);
        assert(product(rest) == answer::crossed(p, z));
        assert(product(parts) == answer::crossed(product(u), z));
        lemma_crossed_bag(product(u), z, answer::crossed(p, x), z);
        lemma_crossed_in_turn(p, x, z);
        assert(answer::apart(parts[i], parts[parts.len() - 1]));
        lemma_crossed_exchanged(x, z);
        lemma_crossed_bag(p, answer::crossed(x, z), p, answer::crossed(z, x));
        lemma_crossed_in_turn(p, z, x);
    }
}

/// The same parts have the same product, up to its order.
proof fn lemma_product_bag(s: Seq<Seq<Record>>, t: Seq<Seq<Record>>)
    requires
        s.len() > 0,
        seqs::same_bag(s, t),
        all_apart(t),
    ensures
        seqs::same_bag(product(s), product(t)),
    decreases s.len(),
{
    s.to_multiset_ensures();
    t.to_multiset_ensures();
    assert(s.len() == t.len());
    let i = seqs::lemma_bag_place(s, t);
    if s.len() == 1 {
        assert(s[0] == t[0]);
    } else {
        let rest = t.remove(i);
        assert forall|k: int, m: int|
            0 <= k < rest.len() && 0 <= m < rest.len() && k != m implies answer::apart(
            #[trigger] rest[k],
            #[trigger] rest[m],
        ) by {
            let x = if k < i {
                k
            } else {
                k + 1
            };
            let y = if m < i {
                m
            } else {
                m + 1
            };
            assert(rest[k] == t[x] && rest[m] == t[y]);
        }
        lemma_product_bag(s.drop_last(), rest);
        lemma_crossed_bag(product(s.drop_last()), s.last(), product(rest), s.last());
        lemma_product_last(t, i);
    }
}

// ---- the columns of several inputs ----

/// The columns of inputs, one behind the other.
pub open spec fn all_columns(parts: Seq<Seq<Column>>) -> Seq<Column>
    decreases parts.len(),
{
    if parts.len() <= 1 {
        parts[0]
    } else {
        all_columns(parts.drop_last()) + parts.last()
    }
}

/// Whether no two columns of inputs have the same name.
pub open spec fn parted(parts: Seq<Seq<Column>>) -> bool {
    &&& forall|i: int| 0 <= i < parts.len() ==> answer::distinct(#[trigger] parts[i])
    &&& forall|i: int, j: int, n: Seq<char>|
        #![trigger rewrite::has_column(parts[i], n), rewrite::has_column(parts[j], n)]
        0 <= i < parts.len() && 0 <= j < parts.len() && i != j ==> !(rewrite::has_column(parts[i], n)
            && rewrite::has_column(parts[j], n))
}

/// The columns of inputs and more inputs.
proof fn lemma_all_columns_append(s: Seq<Seq<Column>>, t: Seq<Seq<Column>>)
    requires
        s.len() > 0,
        t.len() > 0,
    ensures
        all_columns(s + t) == all_columns(s) + all_columns(t),
    decreases t.len(),
{
    assert((s + t).drop_last() =~= s + t.drop_last());
    assert((s + t).last() == t.last());
    if t.len() == 1 {
        assert(s + t.drop_last() =~= s);
    } else {
        lemma_all_columns_append(s, t.drop_last());
        assert(all_columns(s) + (all_columns(t.drop_last()) + t.last()) =~= (all_columns(s)
            + all_columns(t.drop_last())) + t.last());
    }
}

/// A column of all inputs is a column of one of them.
proof fn lemma_all_columns_has(parts: Seq<Seq<Column>>, n: Seq<char>)
    requires
        parts.len() > 0,
    ensures
        rewrite::has_column(all_columns(parts), n) ==> exists|i: int|
            0 <= i < parts.len() && #[trigger] rewrite::has_column(parts[i], n),
        forall|i: int|
            0 <= i < parts.len() && #[trigger] rewrite::has_column(parts[i], n)
                ==> rewrite::has_column(all_columns(parts), n),
    decreases parts.len(),
{
    if parts.len() > 1 {
        let before = parts.drop_last();
        lemma_all_columns_has(before, n);
        answer::lemma_index_append(all_columns(before), parts.last(), n);
        if rewrite::has_column(all_columns(before), n) {
            let i = choose|i: int| 0 <= i < before.len() && #[trigger] rewrite::has_column(before[i], n);
            assert(rewrite::has_column(parts[i], n));
        } else if rewrite::has_column(parts.last(), n) {
            assert(rewrite::has_column(parts[parts.len() - 1], n));
        }
        assert forall|i: int| 0 <= i < parts.len() && #[trigger] rewrite::has_column(parts[i], n) implies rewrite::has_column(
            all_columns(parts),
            n,
        ) by {
            if i < before.len() {
                assert(rewrite::has_column(before[i], n));
            }
        }
    } else if rewrite::has_column(all_columns(parts), n) {
        assert(rewrite::has_column(parts[0], n));
    }
}

/// Inputs whose columns are distinct are parted.
proof fn lemma_distinct_is_parted(parts: Seq<Seq<Column>>)
    requires
        parts.len() > 0,
        answer::distinct(all_columns(parts)),
    ensures
        parted(parts),
    decreases parts.len(),
{
    if parts.len() > 1 {
        let before = parts.drop_last();
        let last = parts.last();
        rewrite_laws::lemma_distinct_parts(all_columns(before), last);
        lemma_distinct_is_parted(before);
        assert forall|i: int| 0 <= i < parts.len() implies answer::distinct(#[trigger] parts[i]) by {
            if i < before.len() {
                assert(answer::distinct(before[i]));
            }
        }
        assert forall|i: int, j: int, n: Seq<char>|
            #![trigger rewrite::has_column(parts[i], n), rewrite::has_column(parts[j], n)]
            0 <= i < parts.len() && 0 <= j < parts.len() && i != j implies !(rewrite::has_column(
            parts[i],
            n,
        ) && rewrite::has_column(parts[j], n)) by {
            lemma_all_columns_has(before, n);
            if i < before.len() && j < before.len() {
                assert(!(rewrite::has_column(before[i], n) && rewrite::has_column(before[j], n)));
            } else if i < before.len() {
                if rewrite::has_column(parts[i], n) {
                    assert(rewrite::has_column(before[i], n));
                }
            } else if j < before.len() {
                if rewrite::has_column(parts[j], n) {
                    assert(rewrite::has_column(before[j], n));
                }
            }
        }
    }
}

/// Inputs that are parted have distinct columns, and each column is that of its input.
proof fn lemma_parted_is_distinct(parts: Seq<Seq<Column>>)
    requires
        parts.len() > 0,
        parted(parts),
    ensures
        answer::distinct(all_columns(parts)),
        forall|i: int, n: Seq<char>|
            #![trigger rewrite::has_column(parts[i], n)]
            0 <= i < parts.len() && rewrite::has_column(parts[i], n) ==> all_columns(
                parts,
            )[schema::column_index(all_columns(parts), n)->Some_0]
                == parts[i][schema::column_index(parts[i], n)->Some_0],
    decreases parts.len(),
{
    let all = all_columns(parts);
    if parts.len() > 1 {
        let before = parts.drop_last();
        let last = parts.last();
        let first = all_columns(before);
        assert(parted(before)) by {
            assert forall|i: int| 0 <= i < before.len() implies answer::distinct(#[trigger] before[i]) by {
                assert(answer::distinct(parts[i]));
            }
            assert forall|i: int, j: int, n: Seq<char>|
                #![trigger rewrite::has_column(before[i], n), rewrite::has_column(before[j], n)]
                0 <= i < before.len() && 0 <= j < before.len() && i != j implies !(
            rewrite::has_column(before[i], n) && rewrite::has_column(before[j], n)) by {
                assert(!(rewrite::has_column(parts[i], n) && rewrite::has_column(parts[j], n)));
            }
        }
        lemma_parted_is_distinct(before);
        assert forall|n: Seq<char>| !(#[trigger] rewrite::has_column(first, n) && rewrite::has_column(
            last,
            n,
        )) by {
            lemma_all_columns_has(before, n);
            if rewrite::has_column(first, n) && rewrite::has_column(last, n) {
                let i = choose|i: int| 0 <= i < before.len() && #[trigger] rewrite::has_column(before[i], n);
                assert(!(rewrite::has_column(parts[i], n) && rewrite::has_column(
                    parts[parts.len() - 1],
                    n,
                )));
            }
        }
        assert(answer::distinct(parts[parts.len() - 1]));
        assert forall|i: int, j: int| 0 <= i < all.len() && 0 <= j < all.len() && i != j implies (
        #[trigger] all[i]).name != (#[trigger] all[j]).name by {
            if i < first.len() && j >= first.len() {
                answer::lemma_has(first, i);
                answer::lemma_has(last, j - first.len());
            } else if j < first.len() && i >= first.len() {
                answer::lemma_has(first, j);
                answer::lemma_has(last, i - first.len());
            }
        }
        assert forall|i: int, n: Seq<char>|
            #![trigger rewrite::has_column(parts[i], n)]
            0 <= i < parts.len() && rewrite::has_column(parts[i], n) implies all[schema::column_index(
            all,
            n,
        )->Some_0] == parts[i][schema::column_index(parts[i], n)->Some_0] by {
            answer::lemma_index_append(first, last, n);
            answer::lemma_index(first, n);
            answer::lemma_index(last, n);
            lemma_all_columns_has(before, n);
            if i < before.len() {
                assert(rewrite::has_column(before[i], n));
            } else {
                assert(!rewrite::has_column(first, n));
            }
        }
    } else {
        assert(answer::distinct(parts[0]));
    }
}

/// Inputs in another order have the same columns.
proof fn lemma_arranged_columns(parts: Seq<Seq<Column>>, order: Seq<int>)
    requires
        parts.len() > 0,
        parted(parts),
        seqs::is_arrangement(order, parts.len()),
    ensures
        parted(order.map_values(|i: int| parts[i])),
        same_columns(all_columns(order.map_values(|i: int| parts[i])), all_columns(parts)),
{
    let turned = order.map_values(|i: int| parts[i]);
    assert forall|i: int| 0 <= i < turned.len() implies answer::distinct(#[trigger] turned[i]) by {
        assert(answer::distinct(parts[order[i]]));
    }
    assert forall|i: int, j: int, n: Seq<char>|
        #![trigger rewrite::has_column(turned[i], n), rewrite::has_column(turned[j], n)]
        0 <= i < turned.len() && 0 <= j < turned.len() && i != j implies !(rewrite::has_column(
        turned[i],
        n,
    ) && rewrite::has_column(turned[j], n)) by {
        assert(order[i] != order[j]);
        assert(0 <= order[i] < parts.len() && 0 <= order[j] < parts.len());
        assert(!(rewrite::has_column(parts[order[i]], n) && rewrite::has_column(parts[order[j]], n)));
    }
    lemma_parted_is_distinct(parts);
    lemma_parted_is_distinct(turned);
    let (a, b) = (all_columns(turned), all_columns(parts));
    assert forall|n: Seq<char>| #[trigger] rewrite::has_column(a, n) implies rewrite::has_column(b, n)
        && a[schema::column_index(a, n)->Some_0].data_type == b[schema::column_index(
        b,
        n,
    )->Some_0].data_type by {
        lemma_all_columns_has(turned, n);
        lemma_all_columns_has(parts, n);
        let i = choose|i: int| 0 <= i < turned.len() && #[trigger] rewrite::has_column(turned[i], n);
        assert(0 <= order[i] < parts.len());
        assert(rewrite::has_column(parts[order[i]], n));
    }
    assert forall|n: Seq<char>| #[trigger] rewrite::has_column(b, n) implies rewrite::has_column(a, n)
        && b[schema::column_index(b, n)->Some_0].data_type == a[schema::column_index(
        a,
        n,
    )->Some_0].data_type by {
        lemma_all_columns_has(turned, n);
        lemma_all_columns_has(parts, n);
        let k = choose|k: int| 0 <= k < parts.len() && #[trigger] rewrite::has_column(parts[k], n);
        let i = seqs::lemma_arrangement_takes_all(order, parts.len(), k);
        assert(rewrite::has_column(turned[i], n));
    }
}

// ---- trees of cross joins ----

/// The answers of plans.
pub open spec fn answers(plans: Seq<Plan>, db: Database) -> Seq<Seq<Record>> {
    plans.map_values(|p: Plan| answer::answer(p, db))
}

/// Whether plans make sense, each by itself.
pub open spec fn all_sound(plans: Seq<Plan>, tables: Seq<Table>) -> bool {
    forall|i: int| 0 <= i < plans.len() ==> answer::sound(#[trigger] plans[i], tables)
}

/// The columns of plans.
pub open spec fn columns_of_each(plans: Seq<Plan>, tables: Seq<Table>) -> Seq<Seq<Column>> {
    plans.map_values(|p: Plan| answer::columns_of(p, tables))
}

/// A tree of cross joins is the product of its inputs.
proof fn lemma_leaves(plan: Plan, db: Database)
    requires
        answer::sound(plan, db.tables),
    ensures
        reorder::leaves(plan).len() > 0,
        all_sound(reorder::leaves(plan), db.tables),
        answer::columns_of(plan, db.tables) == all_columns(
            columns_of_each(reorder::leaves(plan), db.tables),
        ),
        answer::answer(plan, db) == product(answers(reorder::leaves(plan), db)),
    decreases plan,
{
    let inputs = reorder::leaves(plan);
    match plan {
        Plan::Cross(l, r) => {
            let (a, b) = (reorder::leaves(*l), reorder::leaves(*r));
            lemma_leaves(*l, db);
            lemma_leaves(*r, db);
            assert(answers(inputs, db) =~= answers(a, db) + answers(b, db));
            assert(columns_of_each(inputs, db.tables) =~= columns_of_each(a, db.tables)
                + columns_of_each(b, db.tables));
            lemma_product_append(answers(a, db), answers(b, db));
            lemma_all_columns_append(
                columns_of_each(a, db.tables),
                columns_of_each(b, db.tables),
            );
            assert forall|i: int| 0 <= i < inputs.len() implies answer::sound(
                #[trigger] inputs[i],
                db.tables,
            ) by {
                if i < a.len() {
                    assert(inputs[i] == a[i]);
                } else {
                    assert(inputs[i] == b[i - a.len()]);
                }
            }
        },
        _ => {
            assert(answers(inputs, db)[0] == answer::answer(plan, db));
            assert(columns_of_each(inputs, db.tables)[0] == answer::columns_of(plan, db.tables));
        },
    }
}

/// The columns of inputs that make sense are known.
proof fn lemma_input_columns(inputs: Seq<Plan>, tables: Seq<Table>)
    requires
        all_sound(inputs, tables),
    ensures
        reorder::input_columns(inputs, tables) == Ok::<_, Fault>(columns_of_each(inputs, tables)),
    decreases inputs.len(),
{
    if inputs.len() > 0 {
        let before = inputs.drop_last();
        assert forall|i: int| 0 <= i < before.len() implies answer::sound(#[trigger] before[i], tables) by {
            assert(before[i] == inputs[i]);
        }
        lemma_input_columns(before, tables);
        assert(answer::sound(inputs[inputs.len() - 1], tables));
        assert(columns_of_each(inputs, tables) =~= columns_of_each(before, tables).push(
            answer::columns_of(inputs.last(), tables),
        ));
    } else {
        assert(columns_of_each(inputs, tables) =~= Seq::empty());
    }
}

/// Inputs that are joined one after the other.
proof fn lemma_left_deep(inputs: Seq<Plan>, db: Database)
    requires
        inputs.len() > 0,
        all_sound(inputs, db.tables),
        parted(columns_of_each(inputs, db.tables)),
    ensures
        answer::sound(reorder::left_deep(inputs), db.tables),
        answer::columns_of(reorder::left_deep(inputs), db.tables) == all_columns(
            columns_of_each(inputs, db.tables),
        ),
        answer::answer(reorder::left_deep(inputs), db) == product(answers(inputs, db)),
    decreases inputs.len(),
{
    let columns = columns_of_each(inputs, db.tables);
    if inputs.len() == 1 {
        assert(answer::sound(inputs[0], db.tables));
        assert(answers(inputs, db)[0] == answer::answer(inputs[0], db));
    } else {
        let before = inputs.drop_last();
        let first = columns_of_each(before, db.tables);
        assert(first =~= columns.drop_last());
        assert(answers(before, db) =~= answers(inputs, db).drop_last());
        assert forall|i: int| 0 <= i < before.len() implies answer::sound(
            #[trigger] before[i],
            db.tables,
        ) by {
            assert(before[i] == inputs[i]);
        }
        assert(parted(first)) by {
            assert forall|i: int| 0 <= i < first.len() implies answer::distinct(#[trigger] first[i]) by {
                assert(answer::distinct(columns[i]));
            }
            assert forall|i: int, j: int, n: Seq<char>|
                #![trigger rewrite::has_column(first[i], n), rewrite::has_column(first[j], n)]
                0 <= i < first.len() && 0 <= j < first.len() && i != j implies !(
            rewrite::has_column(first[i], n) && rewrite::has_column(first[j], n)) by {
                assert(!(rewrite::has_column(columns[i], n) && rewrite::has_column(columns[j], n)));
            }
        }
        lemma_left_deep(before, db);
        lemma_parted_is_distinct(columns);
        assert(answer::sound(inputs[inputs.len() - 1], db.tables));
    }
}

/// Answers whose columns are parted are apart.
proof fn lemma_answers_apart(inputs: Seq<Plan>, db: Database)
    requires
        all_sound(inputs, db.tables),
        answer::rows_fit(db),
        parted(columns_of_each(inputs, db.tables)),
    ensures
        all_apart(answers(inputs, db)),
{
    let (parts, columns) = (answers(inputs, db), columns_of_each(inputs, db.tables));
    assert forall|i: int, j: int| 0 <= i < parts.len() && 0 <= j < parts.len() && i != j implies answer::apart(
        #[trigger] parts[i],
        #[trigger] parts[j],
    ) by {
        assert(answer::sound(inputs[i], db.tables));
        assert(answer::sound(inputs[j], db.tables));
        answer::lemma_named(inputs[i], db);
        answer::lemma_named(inputs[j], db);
        assert forall|n: Seq<char>|
            #![trigger rewrite::has_column(columns[i], n)]
            !(rewrite::has_column(columns[i], n) && rewrite::has_column(columns[j], n)) by {}
        answer::lemma_apart(parts[i], columns[i], parts[j], columns[j]);
    }
}

/// Whether putting joins in order has succeeded, and kept the columns of a plan and its
/// answer, each up to its order.
pub open spec fn is_reordering(plan: Plan, q: Plan, db: Database) -> bool {
    &&& answer::sound(q, db.tables)
    &&& same_columns(answer::columns_of(q, db.tables), answer::columns_of(plan, db.tables))
    &&& seqs::same_bag(answer::answer(q, db), answer::answer(plan, db))
}

/// Inputs in another order are joined to the same records.
proof fn lemma_tree_reordered(child: Plan, order: Seq<int>, db: Database)
    requires
        answer::sound(child, db.tables),
        answer::rows_fit(db),
        seqs::is_arrangement(order, reorder::leaves(child).len()),
    ensures
        is_reordering(
            child,
            reorder::left_deep(reorder::arranged(reorder::leaves(child), order)),
            db,
        ),
{
    let inputs = reorder::leaves(child);
    let turned = reorder::arranged(inputs, order);
    lemma_leaves(child, db);
    let columns = columns_of_each(inputs, db.tables);
    lemma_distinct_is_parted(columns);
    lemma_arranged_columns(columns, order);
    let parts = order.map_values(|i: int| columns[i]);
    assert(columns_of_each(turned, db.tables) =~= parts);
    assert forall|i: int| 0 <= i < turned.len() implies answer::sound(#[trigger] turned[i], db.tables) by {
        assert(answer::sound(inputs[order[i]], db.tables));
    }
    lemma_left_deep(turned, db);
    lemma_answers_apart(inputs, db);
    let all = answers(inputs, db);
    seqs::lemma_arranged_bag(all, order);
    assert(order.map_values(|i: int| all[i]) =~= answers(turned, db));
    lemma_product_bag(answers(turned, db), all);
}

proof fn lemma_same_columns_reflexive(a: Seq<Column>)
    ensures
        same_columns(a, a),
{
}

/// Putting the joins of a plan in order succeeds, and keeps its columns and its answer, each
/// up to its order.
pub proof fn putting_joins_in_order_keeps_the_answer(plan: Plan, db: Database)
    requires
        answer::sound(plan, db.tables),
        answer::rows_fit(db),
    ensures
        reorder::reordered(plan, db.tables) matches Ok(q) && is_reordering(plan, q, db),
    decreases plan,
{
    match plan {
        Plan::Scan(_) => {
            lemma_same_columns_reflexive(answer::columns_of(plan, db.tables));
        },
        Plan::Filter(tests, child) => {
            putting_joins_in_order_keeps_the_answer(*child, db);
            let c = reorder::reordered(*child, db.tables)->Ok_0;
            let below = if reorder::pure_crosses(c) && reorder::leaves(c).len() > 2 {
                let inputs = reorder::leaves(c);
                lemma_leaves(c, db);
                lemma_input_columns(inputs, db.tables);
                let columns = columns_of_each(inputs, db.tables);
                let order = reorder::chosen_order(tests, inputs, columns, db.tables);
                reorder::the_chosen_order_takes_each_input_once(tests, inputs, columns, db.tables);
                lemma_tree_reordered(c, order, db);
                reorder::left_deep(reorder::arranged(inputs, order))
            } else {
                c
            };
            assert(is_reordering(*child, below, db)) by {
                let (x, y, z) = (
                    answer::columns_of(below, db.tables),
                    answer::columns_of(c, db.tables),
                    answer::columns_of(*child, db.tables),
                );
                if below != c {
                    assert forall|n: Seq<char>| #[trigger] rewrite::has_column(x, n) implies rewrite::has_column(
                        z,
                        n,
                    ) && x[schema::column_index(x, n)->Some_0].data_type
                        == z[schema::column_index(z, n)->Some_0].data_type by {
                        assert(rewrite::has_column(y, n));
                    }
                    assert forall|n: Seq<char>| #[trigger] rewrite::has_column(z, n) implies rewrite::has_column(
                        x,
                        n,
                    ) && z[schema::column_index(z, n)->Some_0].data_type
                        == x[schema::column_index(x, n)->Some_0].data_type by {
                        assert(rewrite::has_column(y, n));
                    }
                }
            }
            lemma_same_within(
                tests,
                answer::columns_of(below, db.tables),
                answer::columns_of(*child, db.tables),
            );
            answer::lemma_sift_bag(answer::answer(below, db), answer::answer(*child, db), tests);
            assert(reorder::reordered(plan, db.tables) == Ok::<Plan, Fault>(
                Plan::Filter(tests, Box::new(below)),
            ));
        },
        Plan::Sort(_, child) => {
            putting_joins_in_order_keeps_the_answer(*child, db);
        },
        Plan::Project(map, child) => {
            putting_joins_in_order_keeps_the_answer(*child, db);
            let c = reorder::reordered(*child, db.tables)->Ok_0;
            lemma_same_projection(
                answer::columns_of(c, db.tables),
                answer::columns_of(*child, db.tables),
                map,
            );
            lemma_same_columns_reflexive(answer::columns_of(plan, db.tables));
            seqs::lemma_map_bag(
                answer::answer(c, db),
                answer::answer(*child, db),
                |a: Record| answer::renamed(a, map),
            );
        },
        Plan::Cross(l, r) => {
            putting_joins_in_order_keeps_the_answer(*l, db);
            putting_joins_in_order_keeps_the_answer(*r, db);
            let l2 = reorder::reordered(*l, db.tables)->Ok_0;
            let r2 = reorder::reordered(*r, db.tables)->Ok_0;
            lemma_same_both(
                answer::columns_of(l2, db.tables),
                answer::columns_of(*l, db.tables),
                answer::columns_of(r2, db.tables),
                answer::columns_of(*r, db.tables),
            );
            lemma_crossed_bag(
                answer::answer(l2, db),
                answer::answer(r2, db),
                answer::answer(*l, db),
                answer::answer(*r, db),
            );
        },
        Plan::HashJoin(l, r, x, y) => {
            putting_joins_in_order_keeps_the_answer(*l, db);
            putting_joins_in_order_keeps_the_answer(*r, db);
            let l2 = reorder::reordered(*l, db.tables)->Ok_0;
            let r2 = reorder::reordered(*r, db.tables)->Ok_0;
            lemma_same_both(
                answer::columns_of(l2, db.tables),
                answer::columns_of(*l, db.tables),
                answer::columns_of(r2, db.tables),
                answer::columns_of(*r, db.tables),
            );
            assert(rewrite::has_column(answer::columns_of(l2, db.tables), x));
            assert(rewrite::has_column(answer::columns_of(r2, db.tables), y));
            answer::lemma_pairs_bag(
                answer::answer(l2, db),
                answer::answer(r2, db),
                answer::answer(*l, db),
                answer::answer(*r, db),
                |a: Record, b: Record| hash::same_key(b[y], a[x]),
            );
        },
    }
}

// ---- where columns come from ----

/// Inputs that are joined one after the other are the inputs of the tree.
proof fn lemma_leaves_of_left_deep(inputs: Seq<Plan>)
    requires
        inputs.len() > 0,
        forall|i: int| 0 <= i < inputs.len() ==> !((#[trigger] inputs[i]) is Cross),
    ensures
        reorder::leaves(reorder::left_deep(inputs)) == inputs,
    decreases inputs.len(),
{
    if inputs.len() == 1 {
        assert(reorder::leaves(inputs[0]) =~= inputs);
    } else {
        let before = inputs.drop_last();
        assert forall|i: int| 0 <= i < before.len() implies !((#[trigger] before[i]) is Cross) by {
            assert(before[i] == inputs[i]);
        }
        lemma_leaves_of_left_deep(before);
        assert(!(inputs[inputs.len() - 1] is Cross));
        assert(reorder::leaves(inputs.last()) =~= seq![inputs.last()]);
        assert(before + seq![inputs.last()] =~= inputs);
    }
}

/// No input of a tree of cross joins is a cross join.
proof fn lemma_leaves_are_no_crosses(plan: Plan)
    ensures
        forall|i: int|
            0 <= i < reorder::leaves(plan).len() ==> !((#[trigger] reorder::leaves(plan)[i]) is Cross),
    decreases plan,
{
    match plan {
        Plan::Cross(l, r) => {
            lemma_leaves_are_no_crosses(*l);
            lemma_leaves_are_no_crosses(*r);
        },
        _ => {},
    }
}

/// A column of a tree of cross joins comes from the input that has it.
proof fn lemma_origin_of_leaf(plan: Plan, i: int, n: Seq<char>, db: Database)
    requires
        answer::sound(plan, db.tables),
        0 <= i < reorder::leaves(plan).len(),
        rewrite::has_column(answer::columns_of(reorder::leaves(plan)[i], db.tables), n),
    ensures
        rewrite::has_column(answer::columns_of(plan, db.tables), n),
        answer::origin(plan, n, db.tables) == answer::origin(
            reorder::leaves(plan)[i],
            n,
            db.tables,
        ),
    decreases plan,
{
    match plan {
        Plan::Cross(l, r) => {
            let (a, b) = (reorder::leaves(*l), reorder::leaves(*r));
            let (lc, rc) = (answer::columns_of(*l, db.tables), answer::columns_of(*r, db.tables));
            answer::lemma_index_append(lc, rc, n);
            rewrite_laws::lemma_distinct_parts(lc, rc);
            if i < a.len() {
                assert(reorder::leaves(plan)[i] == a[i]);
                lemma_origin_of_leaf(*l, i, n, db);
            } else {
                assert(reorder::leaves(plan)[i] == b[i - a.len()]);
                lemma_origin_of_leaf(*r, i - a.len(), n, db);
            }
        },
        _ => {},
    }
}

/// The columns of inputs that are joined in another order come from the same places.
proof fn lemma_tree_origins(child: Plan, order: Seq<int>, db: Database)
    requires
        answer::sound(child, db.tables),
        answer::rows_fit(db),
        seqs::is_arrangement(order, reorder::leaves(child).len()),
    ensures
        answer::same_origins(
            reorder::left_deep(reorder::arranged(reorder::leaves(child), order)),
            child,
            db.tables,
        ),
{
    let inputs = reorder::leaves(child);
    let turned = reorder::arranged(inputs, order);
    let q = reorder::left_deep(turned);
    lemma_tree_reordered(child, order, db);
    lemma_leaves(child, db);
    lemma_leaves_are_no_crosses(child);
    assert forall|i: int| 0 <= i < turned.len() implies !((#[trigger] turned[i]) is Cross) by {
        assert(!(inputs[order[i]] is Cross));
    }
    lemma_leaves_of_left_deep(turned);
    let columns = columns_of_each(inputs, db.tables);
    assert forall|n: Seq<char>|
        rewrite::has_column(answer::columns_of(child, db.tables), n) implies #[trigger] answer::origin(
        q,
        n,
        db.tables,
    ) == answer::origin(child, n, db.tables) by {
        lemma_all_columns_has(columns, n);
        let i = choose|i: int|
            0 <= i < columns.len() && #[trigger] rewrite::has_column(columns[i], n);
        lemma_origin_of_leaf(child, i, n, db);
        let j = seqs::lemma_arrangement_takes_all(order, inputs.len(), i);
        assert(turned[j] == inputs[i]);
        lemma_origin_of_leaf(q, j, n, db);
    }
}

/// Trees of cross joins and scans have no filters.
proof fn lemma_pure_agrees(plan: Plan, db: Database)
    requires
        reorder::pure_crosses(plan),
    ensures
        answer::joins_agree(plan, db),
    decreases plan,
{
    match plan {
        Plan::Cross(l, r) => {
            lemma_pure_agrees(*l, db);
            lemma_pure_agrees(*r, db);
        },
        _ => {},
    }
}

/// A filter over joins that are put in order.
proof fn lemma_filter_origins(tests: Seq<Test>, child: Plan, c: Plan, db: Database)
    requires
        answer::sound(c, db.tables),
        answer::rows_fit(db),
        filter::tests_within(tests, answer::columns_of(child, db.tables)),
        answer::all_keys_agree(tests, child, db),
        reorder::reordered(child, db.tables) == Ok::<Plan, Fault>(c),
        answer::same_origins(c, child, db.tables),
        answer::joins_agree(c, db),
        same_columns(answer::columns_of(c, db.tables), answer::columns_of(child, db.tables)),
    ensures
        reorder::reordered(Plan::Filter(tests, Box::new(child)), db.tables) matches Ok(q)
            && answer::same_origins(q, Plan::Filter(tests, Box::new(child)), db.tables)
            && answer::joins_agree(q, db),
{
    let plan = Plan::Filter(tests, Box::new(child));
    let below = if reorder::pure_crosses(c) && reorder::leaves(c).len() > 2 {
        let inputs = reorder::leaves(c);
        lemma_leaves(c, db);
        lemma_input_columns(inputs, db.tables);
        let columns = columns_of_each(inputs, db.tables);
        let order = reorder::chosen_order(tests, inputs, columns, db.tables);
        reorder::the_chosen_order_takes_each_input_once(tests, inputs, columns, db.tables);
        lemma_tree_origins(c, order, db);
        reorder::lemma_arranged_pure(c, order);
        let turned = reorder::left_deep(reorder::arranged(inputs, order));
        lemma_pure_agrees(turned, db);
        turned
    } else {
        c
    };
    assert(answer::same_origins(below, child, db.tables)) by {
        assert forall|n: Seq<char>|
            rewrite::has_column(answer::columns_of(child, db.tables), n) implies #[trigger] answer::origin(
            below,
            n,
            db.tables,
        ) == answer::origin(child, n, db.tables) by {
            assert(rewrite::has_column(answer::columns_of(c, db.tables), n));
            assert(answer::origin(c, n, db.tables) == answer::origin(child, n, db.tables));
        }
    }
    answer::lemma_keys_agree_same(tests, below, child, db);
    let q = Plan::Filter(tests, Box::new(below));
    assert(reorder::reordered(plan, db.tables) == Ok::<Plan, Fault>(q));
    answer::lemma_filter_origins(tests, below, child, db.tables);
}

/// The columns of a plan whose joins are put in order come from the same places, and its
/// filters compare columns in which equal values are the same where those of the plan do.
pub proof fn lemma_order_keeps_origins(plan: Plan, db: Database)
    requires
        answer::sound(plan, db.tables),
        answer::rows_fit(db),
        answer::joins_agree(plan, db),
    ensures
        reorder::reordered(plan, db.tables) matches Ok(q) && answer::same_origins(
            q,
            plan,
            db.tables,
        ) && answer::joins_agree(q, db),
    decreases plan,
{
    putting_joins_in_order_keeps_the_answer(plan, db);
    let q = reorder::reordered(plan, db.tables)->Ok_0;
    match plan {
        Plan::Scan(_) => {},
        Plan::Filter(tests, child) => {
            lemma_order_keeps_origins(*child, db);
            putting_joins_in_order_keeps_the_answer(*child, db);
            let c = reorder::reordered(*child, db.tables)->Ok_0;
            lemma_filter_origins(tests, *child, c, db);
        },
        Plan::Sort(_, child) => {
            lemma_order_keeps_origins(*child, db);
            let c = reorder::reordered(*child, db.tables)->Ok_0;
            assert forall|n: Seq<char>|
                rewrite::has_column(answer::columns_of(plan, db.tables), n) implies
                #[trigger] answer::origin(q, n, db.tables) == answer::origin(
                plan,
                n,
                db.tables,
            ) by {
                assert(answer::origin(c, n, db.tables) == answer::origin(*child, n, db.tables));
            }
        },
        Plan::Project(map, child) => {
            lemma_order_keeps_origins(*child, db);
            let c = reorder::reordered(*child, db.tables)->Ok_0;
            answer::lemma_projection_origins(map, c, *child, db.tables);
        },
        Plan::Cross(l, r) => {
            lemma_order_keeps_origins(*l, db);
            lemma_order_keeps_origins(*r, db);
            putting_joins_in_order_keeps_the_answer(*l, db);
            let l2 = reorder::reordered(*l, db.tables)->Ok_0;
            let r2 = reorder::reordered(*r, db.tables)->Ok_0;
            answer::lemma_both_origins(q, plan, l2, *l, r2, *r, db.tables);
        },
        Plan::HashJoin(l, r, x, y) => {
            lemma_order_keeps_origins(*l, db);
            lemma_order_keeps_origins(*r, db);
            putting_joins_in_order_keeps_the_answer(*l, db);
            let l2 = reorder::reordered(*l, db.tables)->Ok_0;
            let r2 = reorder::reordered(*r, db.tables)->Ok_0;
            assert(answer::hashed(plan, *l, *r, x, y) && answer::hashed(q, l2, r2, x, y));
            answer::lemma_both_origins(q, plan, l2, *l, r2, *r, db.tables);
        },
    }
}

/// A projection over joins that are put in order has the same columns in the same order.
pub proof fn lemma_projection_keeps_the_columns(
    map: Seq<(Seq<char>, Seq<char>)>,
    child: Plan,
    db: Database,
)
    requires
        answer::sound(Plan::Project(map, Box::new(child)), db.tables),
        answer::rows_fit(db),
    ensures
        reorder::reordered(Plan::Project(map, Box::new(child)), db.tables) matches Ok(q)
            && schema::plan_schema(q, db.tables) == schema::plan_schema(
            Plan::Project(map, Box::new(child)),
            db.tables,
        ),
{
    putting_joins_in_order_keeps_the_answer(child, db);
    let c = reorder::reordered(child, db.tables)->Ok_0;
    lemma_same_projection(
        answer::columns_of(c, db.tables),
        answer::columns_of(child, db.tables),
        map,
    );
}

// ---- the shape of ordered joins ----

/// Whether inputs are joined one after the other: no join has a join on its right.
pub open spec fn is_left_deep(plan: Plan) -> bool
    decreases plan,
{
    match plan {
        Plan::Cross(l, r) => !(*r is Cross) && is_left_deep(*l),
        _ => true,
    }
}

proof fn lemma_is_left_deep(inputs: Seq<Plan>)
    requires
        inputs.len() > 0,
        forall|i: int| 0 <= i < inputs.len() ==> !((#[trigger] inputs[i]) is Cross),
    ensures
        is_left_deep(reorder::left_deep(inputs)),
    decreases inputs.len(),
{
    if inputs.len() == 1 {
        assert(!(inputs[0] is Cross));
    } else {
        let before = inputs.drop_last();
        assert forall|i: int| 0 <= i < before.len() implies !((#[trigger] before[i]) is Cross) by {
            assert(before[i] == inputs[i]);
        }
        lemma_is_left_deep(before);
        assert(!(inputs[inputs.len() - 1] is Cross));
    }
}

/// A filter over cross joins of more than two scans has the same tests over the same scans, joined
/// one after the other in the chosen order. A filter over anything else stays as it is.
pub proof fn more_than_two_tables_are_joined_in_the_chosen_order(
    tests: Seq<Test>,
    child: Plan,
    tables: Seq<Table>,
)
    ensures
        ({
            let inputs = reorder::leaves(child);
            let few = !reorder::pure_crosses(child) || inputs.len() <= 2;
            &&& few ==> reorder::reordered_filter(tests, child, tables) == Ok::<Plan, Fault>(
                Plan::Filter(tests, Box::new(child)),
            )
            &&& !few ==> match reorder::input_columns(inputs, tables) {
                Err(e) => reorder::reordered_filter(tests, child, tables) == Err::<Plan, Fault>(e),
                Ok(columns) => {
                    let order = reorder::chosen_order(tests, inputs, columns, tables);
                    &&& seqs::is_arrangement(order, inputs.len())
                    &&& reorder::reordered_filter(tests, child, tables) matches Ok(Plan::Filter(t, q))
                    &&& t == tests
                    &&& is_left_deep(*q)
                    &&& reorder::leaves(*q).len() == inputs.len()
                    &&& forall|i: int|
                        0 <= i < inputs.len() ==> #[trigger] reorder::leaves(*q)[i]
                            == inputs[order[i]]
                },
            }
        }),
{
    let inputs = reorder::leaves(child);
    if reorder::pure_crosses(child) && inputs.len() > 2 && reorder::input_columns(inputs, tables) is Ok {
        let columns = reorder::input_columns(inputs, tables)->Ok_0;
        let order = reorder::chosen_order(tests, inputs, columns, tables);
        reorder::lemma_columns_len(inputs, tables);
        reorder::the_chosen_order_takes_each_input_once(tests, inputs, columns, tables);
        lemma_leaves_are_no_crosses(child);
        let put = reorder::arranged(inputs, order);
        assert forall|i: int| 0 <= i < put.len() implies !((#[trigger] put[i]) is Cross) by {
            assert(put[i] == inputs[order[i]]);
            assert(0 <= order[i] < inputs.len());
        }
        lemma_leaves_of_left_deep(put);
        lemma_is_left_deep(put);
    }
}

/// The inputs of a tree of cross joins are those of its left side and then those of its right
/// side; anything else is its own input.
pub proof fn the_inputs_of_a_tree_come_from_left_to_right(l: Plan, r: Plan)
    ensures
        reorder::leaves(Plan::Cross(Box::new(l), Box::new(r))) == reorder::leaves(l) + reorder::leaves(
            r,
        ),
        !(l is Cross) ==> reorder::leaves(l) == seq![l],
        reorder::pure_crosses(Plan::Cross(Box::new(l), Box::new(r))) == (reorder::pure_crosses(l)
            && reorder::pure_crosses(r)),
        !(l is Cross) ==> (reorder::pure_crosses(l) <==> l is Scan),
{
}

} // verus!
