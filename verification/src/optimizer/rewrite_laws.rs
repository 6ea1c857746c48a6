//! Laws of the rewriting of plans: it keeps the answer, and doing it twice changes nothing
//! more.

use vstd::prelude::*;

use crate::answer::{Database, Place, Record};
use crate::answer;
use crate::error::Fault;
use crate::ops::filter;
use crate::ops::hash;
use crate::ops::project;
use crate::ops::scan_laws;
use crate::ops::sort;
use crate::ops::sort_laws;
use crate::optimizer::rewrite;
use crate::query::{Operand, Plan, SortKey, Stat, Table, TableColumn, Test};
use crate::query;
use crate::row;
use crate::schema::Column;
use crate::schema;
use crate::seqs;
use crate::value::{Order, Val};
use crate::value;

verus! {

// ---- tests and the inputs that make them ----

/// Columns of two inputs, of which no two have the same name.
pub proof fn lemma_distinct_parts(l: Seq<Column>, r: Seq<Column>)
    requires
        answer::distinct(l + r),
    ensures
        answer::distinct(l),
        answer::distinct(r),
        forall|n: Seq<char>|
            #![trigger rewrite::has_column(l, n)]
            #![trigger rewrite::has_column(r, n)]
            !(rewrite::has_column(l, n) && rewrite::has_column(r, n)),
{
    let all = l + r;
    assert forall|i: int, j: int| 0 <= i < l.len() && 0 <= j < l.len() && i != j implies (
    #[trigger] l[i]).name != (#[trigger] l[j]).name by {
        assert(all[i] == l[i] && all[j] == l[j]);
    }
    assert forall|i: int, j: int| 0 <= i < r.len() && 0 <= j < r.len() && i != j implies (
    #[trigger] r[i]).name != (#[trigger] r[j]).name by {
        assert(all[l.len() + i] == r[i] && all[l.len() + j] == r[j]);
    }
    assert forall|n: Seq<char>|
        #![trigger rewrite::has_column(l, n)]
        #![trigger rewrite::has_column(r, n)]
        !(rewrite::has_column(l, n) && rewrite::has_column(r, n)) by {
        if rewrite::has_column(l, n) && rewrite::has_column(r, n) {
            answer::lemma_index(l, n);
            answer::lemma_index(r, n);
            let (i, j) = (
                schema::column_index(l, n)->Some_0,
                schema::column_index(r, n)->Some_0,
            );
            assert(all[i] == l[i] && all[l.len() + j] == r[j]);
        }
    }
}

/// A test that passes of each member.
pub proof fn lemma_passes_member(a: Record, tests: Seq<Test>, t: Test)
    requires
        answer::passes_all(a, tests),
        tests.contains(t),
    ensures
        answer::passes(a, t),
{
    let i = choose|i: int| 0 <= i < tests.len() && tests[i] == t;
    assert(answer::passes(a, tests[i]));
}

/// What a filtered sequence of tests holds.
pub proof fn lemma_some_tests(tests: Seq<Test>, p: spec_fn(Test) -> bool, t: Test)
    ensures
        tests.filter(p).contains(t) == (tests.contains(t) && p(t)),
    decreases tests.len(),
{
    reveal(Seq::filter);
    if tests.len() > 0 {
        let before = tests.drop_last();
        lemma_some_tests(before, p, t);
        let (now, then) = (tests.filter(p), before.filter(p));
        assert(tests =~= before.push(tests.last()));
        assert(tests.contains(t) == (before.contains(t) || tests.last() == t)) by {
            if before.contains(t) {
                let i = choose|i: int| 0 <= i < before.len() && before[i] == t;
                assert(tests[i] == t);
            }
            if tests.last() == t {
                assert(tests[tests.len() - 1] == t);
            }
            if tests.contains(t) {
                let i = choose|i: int| 0 <= i < tests.len() && tests[i] == t;
                if i < before.len() {
                    assert(before[i] == t);
                }
            }
        }
        if p(tests.last()) {
            assert(now == then.push(tests.last()));
            assert(now.contains(t) == (then.contains(t) || tests.last() == t)) by {
                if then.contains(t) {
                    let i = choose|i: int| 0 <= i < then.len() && then[i] == t;
                    assert(now[i] == t);
                }
                if tests.last() == t {
                    assert(now[then.len() as int] == t);
                }
                if now.contains(t) {
                    let i = choose|i: int| 0 <= i < now.len() && now[i] == t;
                    if i < then.len() {
                        assert(then[i] == t);
                    }
                }
            }
        }
    }
}

/// Tests of columns that there are, and which of the inputs has these.
proof fn lemma_sides_within(tests: Seq<Test>, l: Seq<Column>, r: Seq<Column>)
    requires
        answer::distinct(l + r),
        filter::tests_within(tests, l + r),
    ensures
        filter::tests_within(rewrite::left_tests(tests, l, r), l),
        filter::tests_within(rewrite::right_tests(tests, l, r), r),
        filter::tests_within(rewrite::pair_tests(tests, l, r), l + r),
{
    lemma_distinct_parts(l, r);
    let p = |t: Test| rewrite::needs_left(t, l) && !rewrite::needs_right(t, l, r);
    let q = |t: Test| rewrite::needs_right(t, l, r) && !rewrite::needs_left(t, l);
    let o = |t: Test| rewrite::needs_left(t, l) == rewrite::needs_right(t, l, r);
    let (lt, rt, pt) = (
        rewrite::left_tests(tests, l, r),
        rewrite::right_tests(tests, l, r),
        rewrite::pair_tests(tests, l, r),
    );
    assert forall|i: int| 0 <= i < lt.len() implies filter::test_within(#[trigger] lt[i], l) by {
        assert(lt.contains(lt[i]));
        lemma_some_tests(tests, p, lt[i]);
        lemma_member_within(tests, l + r, lt[i]);
        lemma_names_append(lt[i], l, r);
    }
    assert forall|i: int| 0 <= i < rt.len() implies filter::test_within(#[trigger] rt[i], r) by {
        assert(rt.contains(rt[i]));
        lemma_some_tests(tests, q, rt[i]);
        lemma_member_within(tests, l + r, rt[i]);
        lemma_names_append(rt[i], l, r);
    }
    assert forall|i: int| 0 <= i < pt.len() implies filter::test_within(#[trigger] pt[i], l + r) by {
        assert(pt.contains(pt[i]));
        lemma_some_tests(tests, o, pt[i]);
        lemma_member_within(tests, l + r, pt[i]);
    }
}

proof fn lemma_member_within(tests: Seq<Test>, columns: Seq<Column>, t: Test)
    requires
        filter::tests_within(tests, columns),
        tests.contains(t),
    ensures
        filter::test_within(t, columns),
{
    let i = choose|i: int| 0 <= i < tests.len() && tests[i] == t;
    assert(filter::test_within(tests[i], columns));
}

proof fn lemma_names_append(t: Test, l: Seq<Column>, r: Seq<Column>)
    ensures
        rewrite::has_column(l + r, t.column) == (rewrite::has_column(l, t.column)
            || rewrite::has_column(r, t.column)),
        t.value matches Operand::Column(other) ==> rewrite::has_column(l + r, other) == (
        rewrite::has_column(l, other) || rewrite::has_column(r, other)),
{
    answer::lemma_index_append(l, r, t.column);
    match t.value {
        Operand::Column(other) => {
            answer::lemma_index_append(l, r, other);
        },
        _ => {},
    }
}

/// Whether a record has the names of columns.
pub open spec fn has_names(a: Record, columns: Seq<Column>) -> bool {
    forall|n: Seq<char>|
        #![trigger a.dom().contains(n)]
        a.dom().contains(n) == rewrite::has_column(columns, n)
}

/// A test that an input can make alone passes of a pair where it passes of the record of
/// that input.
proof fn lemma_passes_pair(a: Record, b: Record, t: Test, l: Seq<Column>, r: Seq<Column>)
    requires
        has_names(a, l),
        has_names(b, r),
        answer::distinct(l + r),
    ensures
        filter::test_within(t, l) ==> answer::passes(answer::both(a, b), t) == answer::passes(a, t),
        filter::test_within(t, r) ==> answer::passes(answer::both(a, b), t) == answer::passes(b, t),
{
    lemma_distinct_parts(l, r);
    let ab = answer::both(a, b);
    assert forall|n: Seq<char>| #[trigger] rewrite::has_column(l, n) implies ab[n] == a[n] by {
        assert(a.dom().contains(n));
    }
    assert forall|n: Seq<char>| #[trigger] rewrite::has_column(r, n) implies ab[n] == b[n] by {
        assert(b.dom().contains(n));
        assert(!a.dom().contains(n));
    }
    if filter::test_within(t, l) {
        assert(rewrite::has_column(l, t.column));
        match t.value {
            Operand::Column(other) => {
                assert(rewrite::has_column(l, other));
            },
            _ => {},
        }
    }
    if filter::test_within(t, r) {
        assert(rewrite::has_column(r, t.column));
        match t.value {
            Operand::Column(other) => {
                assert(rewrite::has_column(r, other));
            },
            _ => {},
        }
    }
}

/// A pair passes all tests where each record passes those that its input can make alone,
/// and the pair the others.
proof fn lemma_passes_parts(a: Record, b: Record, tests: Seq<Test>, l: Seq<Column>, r: Seq<Column>)
    requires
        has_names(a, l),
        has_names(b, r),
        answer::distinct(l + r),
        filter::tests_within(tests, l + r),
    ensures
        answer::passes_all(answer::both(a, b), tests) == (answer::passes_all(
            a,
            rewrite::left_tests(tests, l, r),
        ) && answer::passes_all(b, rewrite::right_tests(tests, l, r)) && answer::passes_all(
            answer::both(a, b),
            rewrite::pair_tests(tests, l, r),
        )),
{
    let p = |t: Test| rewrite::needs_left(t, l) && !rewrite::needs_right(t, l, r);
    let q = |t: Test| rewrite::needs_right(t, l, r) && !rewrite::needs_left(t, l);
    let o = |t: Test| rewrite::needs_left(t, l) == rewrite::needs_right(t, l, r);
    let (lt, rt, pt) = (
        rewrite::left_tests(tests, l, r),
        rewrite::right_tests(tests, l, r),
        rewrite::pair_tests(tests, l, r),
    );
    let ab = answer::both(a, b);
    lemma_sides_within(tests, l, r);
    if answer::passes_all(ab, tests) {
        assert forall|i: int| 0 <= i < lt.len() implies answer::passes(a, #[trigger] lt[i]) by {
            assert(lt.contains(lt[i]));
            lemma_some_tests(tests, p, lt[i]);
            lemma_passes_member(ab, tests, lt[i]);
            lemma_passes_pair(a, b, lt[i], l, r);
        }
        assert forall|i: int| 0 <= i < rt.len() implies answer::passes(b, #[trigger] rt[i]) by {
            assert(rt.contains(rt[i]));
            lemma_some_tests(tests, q, rt[i]);
            lemma_passes_member(ab, tests, rt[i]);
            lemma_passes_pair(a, b, rt[i], l, r);
        }
        assert forall|i: int| 0 <= i < pt.len() implies answer::passes(ab, #[trigger] pt[i]) by {
            assert(pt.contains(pt[i]));
            lemma_some_tests(tests, o, pt[i]);
            lemma_passes_member(ab, tests, pt[i]);
        }
    }
    if answer::passes_all(a, lt) && answer::passes_all(b, rt) && answer::passes_all(ab, pt) {
        assert forall|i: int| 0 <= i < tests.len() implies answer::passes(ab, #[trigger] tests[i]) by {
            let t = tests[i];
            assert(tests.contains(t));
            lemma_some_tests(tests, p, t);
            lemma_some_tests(tests, q, t);
            lemma_some_tests(tests, o, t);
            if p(t) {
                lemma_passes_member(a, lt, t);
                lemma_member_within(lt, l, t);
                lemma_passes_pair(a, b, t, l, r);
            } else if q(t) {
                lemma_passes_member(b, rt, t);
                lemma_member_within(rt, r, t);
                lemma_passes_pair(a, b, t, l, r);
            } else {
                lemma_passes_member(ab, pt, t);
            }
        }
    }
}

// ---- equal columns and keys ----

/// Stored values are equal where they are the same key.
proof fn lemma_same_key(v: Val, w: Val, at: Place, other: Place, db: Database)
    requires
        answer::equal_is_same(at, other, db),
        answer::stored(v, at, db),
        answer::stored(w, other, db),
    ensures
        value::val_eq(v, w) == hash::same_key(w, v),
        value::val_eq(v, w) == hash::same_key(v, w),
{
    if hash::same_key(v, w) {
        value::order_is_reflexive(v);
    }
    if value::val_eq(v, w) {
        assert(v == w);
    }
}

/// The columns on which a test of equal columns joins its inputs.
proof fn lemma_equi_join(e: Test, l: Seq<Column>, r: Seq<Column>)
    requires
        answer::distinct(l + r),
        rewrite::is_equi_join(e, l, r),
    ensures
        if rewrite::has_column(l, e.column) {
            rewrite::has_column(r, rewrite::other_column(e))
        } else {
            rewrite::has_column(l, rewrite::other_column(e)) && rewrite::has_column(r, e.column)
        },
{
    lemma_distinct_parts(l, r);
}

/// A pair passes a test of equal columns where the columns hold the same key.
proof fn lemma_passes_equi_join(
    a: Record,
    b: Record,
    e: Test,
    left: Plan,
    right: Plan,
    db: Database,
)
    requires
        ({
            let (l, r) = (
                answer::columns_of(left, db.tables),
                answer::columns_of(right, db.tables),
            );
            &&& has_names(a, l)
            &&& has_names(b, r)
            &&& answer::distinct(l + r)
            &&& rewrite::is_equi_join(e, l, r)
        }),
        answer::keys_agree(e, Plan::Cross(Box::new(left), Box::new(right)), db),
        forall|n: Seq<char>| #[trigger]
            a.dom().contains(n) ==> answer::stored(a[n], answer::origin(left, n, db.tables), db),
        forall|n: Seq<char>| #[trigger]
            b.dom().contains(n) ==> answer::stored(b[n], answer::origin(right, n, db.tables), db),
    ensures
        answer::passes(answer::both(a, b), e) == if rewrite::has_column(
            answer::columns_of(left, db.tables),
            e.column,
        ) {
            hash::same_key(b[rewrite::other_column(e)], a[e.column])
        } else {
            hash::same_key(b[e.column], a[rewrite::other_column(e)])
        },
{
    let (l, r) = (answer::columns_of(left, db.tables), answer::columns_of(right, db.tables));
    lemma_distinct_parts(l, r);
    lemma_equi_join(e, l, r);
    let other = rewrite::other_column(e);
    let ab = answer::both(a, b);
    let plan = Plan::Cross(Box::new(left), Box::new(right));
    let (x, y) = (
        answer::origin(plan, e.column, db.tables),
        answer::origin(plan, other, db.tables),
    );
    if rewrite::has_column(l, e.column) {
        assert(a.dom().contains(e.column));
        assert(b.dom().contains(other));
        assert(!a.dom().contains(other));
        lemma_same_key(a[e.column], b[other], x, y, db);
    } else {
        assert(a.dom().contains(other));
        assert(b.dom().contains(e.column));
        assert(!a.dom().contains(e.column));
        lemma_same_key(b[e.column], a[other], x, y, db);
    }
}

// ---- filters ----

/// A plan under tests gives the records that pass.
proof fn lemma_under(tests: Seq<Test>, plan: Plan, db: Database)
    requires
        answer::sound(plan, db.tables),
        filter::tests_within(tests, answer::columns_of(plan, db.tables)),
    ensures
        answer::sound(rewrite::under(tests, plan), db.tables),
        schema::plan_schema(rewrite::under(tests, plan), db.tables) == schema::plan_schema(
            plan,
            db.tables,
        ),
        answer::answer(rewrite::under(tests, plan), db) == answer::sifted(
            answer::answer(plan, db),
            tests,
        ),
        answer::same_origins(rewrite::under(tests, plan), plan, db.tables),
{
    if tests.len() == 0 {
        answer::lemma_sift_none(answer::answer(plan, db), tests);
    }
}

/// Two inputs that are joined under tests give the pairs that pass.
proof fn lemma_joined(left: Plan, right: Plan, tests: Seq<Test>, db: Database)
    requires
        answer::sound(left, db.tables),
        answer::sound(right, db.tables),
        answer::distinct(
            answer::columns_of(left, db.tables) + answer::columns_of(right, db.tables),
        ),
        filter::tests_within(
            tests,
            answer::columns_of(left, db.tables) + answer::columns_of(right, db.tables),
        ),
        answer::rows_fit(db),
        answer::all_keys_agree(tests, Plan::Cross(Box::new(left), Box::new(right)), db),
    ensures
        ({
            let (lc, rc) = (
                answer::columns_of(left, db.tables),
                answer::columns_of(right, db.tables),
            );
            let q = rewrite::joined(left, right, tests, lc, rc);
            &&& answer::sound(q, db.tables)
            &&& schema::plan_schema(q, db.tables) == Ok::<_, Fault>(lc + rc)
            &&& answer::answer(q, db) == answer::sifted(
                answer::crossed(answer::answer(left, db), answer::answer(right, db)),
                tests,
            )
            &&& answer::same_origins(
                q,
                Plan::Cross(Box::new(left), Box::new(right)),
                db.tables,
            )
        }),
{
    let (lc, rc) = (answer::columns_of(left, db.tables), answer::columns_of(right, db.tables));
    let (a, b) = (answer::answer(left, db), answer::answer(right, db));
    let equi = |t: Test| rewrite::is_equi_join(t, lc, rc);
    let plain = Plan::Cross(Box::new(left), Box::new(right));
    match seqs::first_where(tests, equi) {
        None => {
            lemma_under(tests, plain, db);
        },
        Some(i) => {
            seqs::lemma_first_where(tests, equi);
            let e = tests[i];
            let rest = tests.remove(i);
            let other = rewrite::other_column(e);
            let join = rewrite::equi_joined(e, left, right, lc);
            lemma_equi_join(e, lc, rc);
            assert forall|k: int| 0 <= k < rest.len() implies filter::test_within(
                #[trigger] rest[k],
                lc + rc,
            ) by {
                if k < i {
                    assert(rest[k] == tests[k]);
                } else {
                    assert(rest[k] == tests[k + 1]);
                }
            }
            lemma_under(rest, join, db);
            answer::lemma_named(left, db);
            answer::lemma_named(right, db);
            answer::lemma_stored(left, db);
            answer::lemma_stored(right, db);
            let (x, y) = if rewrite::has_column(lc, e.column) {
                (e.column, other)
            } else {
                (other, e.column)
            };
            let key = |u: Record, v: Record| hash::same_key(v[y], u[x]);
            let yes = |u: Record, v: Record| true;
            let p1 = |u: Record, v: Record| key(u, v) && answer::passes_all(answer::both(u, v), rest);
            let p2 = |u: Record, v: Record| yes(u, v) && answer::passes_all(answer::both(u, v), tests);
            answer::lemma_sift_pairs(a, b, key, rest);
            answer::lemma_sift_pairs(a, b, yes, tests);
            assert forall|m: int, n: int| 0 <= m < a.len() && 0 <= n < b.len() implies p1(
                #[trigger] a[m],
                #[trigger] b[n],
            ) == p2(a[m], b[n]) by {
                lemma_passes_equi_join(a[m], b[n], e, left, right, db);
                lemma_passes_without(answer::both(a[m], b[n]), tests, i);
            }
            answer::lemma_pairs_same(a, b, p1, p2);
            assert(answer::same_origins(join, plain, db.tables));
            let q = rewrite::joined(left, right, tests, lc, rc);
            assert forall|n: Seq<char>| rewrite::has_column(lc + rc, n) implies
                #[trigger] answer::origin(q, n, db.tables) == answer::origin(plain, n, db.tables) by {
                assert(answer::origin(join, n, db.tables) == answer::origin(plain, n, db.tables));
            }
        },
    }
}

/// All tests are one test and the others.
proof fn lemma_passes_without(a: Record, tests: Seq<Test>, i: int)
    requires
        0 <= i < tests.len(),
    ensures
        answer::passes_all(a, tests) == (answer::passes(a, tests[i]) && answer::passes_all(
            a,
            tests.remove(i),
        )),
{
    let rest = tests.remove(i);
    if answer::passes_all(a, tests) {
        assert forall|k: int| 0 <= k < rest.len() implies answer::passes(a, #[trigger] rest[k]) by {
            if k < i {
                assert(rest[k] == tests[k]);
            } else {
                assert(rest[k] == tests[k + 1]);
            }
        }
    }
    if answer::passes(a, tests[i]) && answer::passes_all(a, rest) {
        assert forall|k: int| 0 <= k < tests.len() implies answer::passes(a, #[trigger] tests[k]) by {
            if k < i {
                assert(rest[k] == tests[k]);
            } else if k > i {
                assert(rest[k - 1] == tests[k]);
            }
        }
    }
}

/// The tests that each input can make alone, and the others, compare columns in which equal
/// values are the same.
proof fn lemma_side_keys(tests: Seq<Test>, left: Plan, right: Plan, db: Database)
    requires
        answer::all_keys_agree(tests, Plan::Cross(Box::new(left), Box::new(right)), db),
        answer::distinct(
            answer::columns_of(left, db.tables) + answer::columns_of(right, db.tables),
        ),
        filter::tests_within(
            rewrite::left_tests(
                tests,
                answer::columns_of(left, db.tables),
                answer::columns_of(right, db.tables),
            ),
            answer::columns_of(left, db.tables),
        ),
        filter::tests_within(
            rewrite::right_tests(
                tests,
                answer::columns_of(left, db.tables),
                answer::columns_of(right, db.tables),
            ),
            answer::columns_of(right, db.tables),
        ),
    ensures
        ({
            let (lc, rc) = (
                answer::columns_of(left, db.tables),
                answer::columns_of(right, db.tables),
            );
            let plan = Plan::Cross(Box::new(left), Box::new(right));
            &&& answer::all_keys_agree(rewrite::left_tests(tests, lc, rc), left, db)
            &&& answer::all_keys_agree(rewrite::right_tests(tests, lc, rc), right, db)
            &&& answer::all_keys_agree(rewrite::pair_tests(tests, lc, rc), plan, db)
        }),
{
    let (lc, rc) = (answer::columns_of(left, db.tables), answer::columns_of(right, db.tables));
    let plan = Plan::Cross(Box::new(left), Box::new(right));
    let (lt, rt, pt) = (
        rewrite::left_tests(tests, lc, rc),
        rewrite::right_tests(tests, lc, rc),
        rewrite::pair_tests(tests, lc, rc),
    );
    lemma_distinct_parts(lc, rc);
    let p = |t: Test| rewrite::needs_left(t, lc) && !rewrite::needs_right(t, lc, rc);
    let q = |t: Test| rewrite::needs_right(t, lc, rc) && !rewrite::needs_left(t, lc);
    let o = |t: Test| rewrite::needs_left(t, lc) == rewrite::needs_right(t, lc, rc);
    assert forall|i: int| 0 <= i < lt.len() implies answer::keys_agree(
        #[trigger] lt[i],
        left,
        db,
    ) by {
        assert(lt.contains(lt[i]));
        lemma_some_tests(tests, p, lt[i]);
        let k = choose|k: int| 0 <= k < tests.len() && tests[k] == lt[i];
        assert(answer::keys_agree(tests[k], plan, db));
        assert(filter::test_within(lt[i], lc));
    }
    assert forall|i: int| 0 <= i < rt.len() implies answer::keys_agree(
        #[trigger] rt[i],
        right,
        db,
    ) by {
        assert(rt.contains(rt[i]));
        lemma_some_tests(tests, q, rt[i]);
        let k = choose|k: int| 0 <= k < tests.len() && tests[k] == rt[i];
        assert(answer::keys_agree(tests[k], plan, db));
        assert(filter::test_within(rt[i], rc));
        assert(rewrite::has_column(rc, rt[i].column));
        match rt[i].value {
            Operand::Column(other) => {
                assert(rewrite::has_column(rc, other));
            },
            _ => {},
        }
    }
    assert forall|i: int| 0 <= i < pt.len() implies answer::keys_agree(
        #[trigger] pt[i],
        plan,
        db,
    ) by {
        assert(pt.contains(pt[i]));
        lemma_some_tests(tests, o, pt[i]);
        let k = choose|k: int| 0 <= k < tests.len() && tests[k] == pt[i];
        assert(answer::keys_agree(tests[k], plan, db));
    }
}

/// Tests that have moved down keep the same records.
pub proof fn lemma_filtered(tests: Seq<Test>, plan: Plan, db: Database)
    requires
        answer::sound(plan, db.tables),
        filter::tests_within(tests, answer::columns_of(plan, db.tables)),
        answer::rows_fit(db),
        answer::all_keys_agree(tests, plan, db),
    ensures
        rewrite::filtered(tests, plan, db.tables) matches Ok(q) && answer::sound(q, db.tables)
            && schema::plan_schema(q, db.tables) == schema::plan_schema(plan, db.tables)
            && answer::answer(q, db) == answer::sifted(answer::answer(plan, db), tests)
            && answer::same_origins(q, plan, db.tables),
    decreases plan,
{
    match plan {
        Plan::Cross(l, r) => {
            let (lc, rc) = (answer::columns_of(*l, db.tables), answer::columns_of(*r, db.tables));
            let (lt, rt, pt) = (
                rewrite::left_tests(tests, lc, rc),
                rewrite::right_tests(tests, lc, rc),
                rewrite::pair_tests(tests, lc, rc),
            );
            let (a, b) = (answer::answer(*l, db), answer::answer(*r, db));
            lemma_sides_within(tests, lc, rc);
            lemma_side_keys(tests, *l, *r, db);
            let l2 = if lt.len() == 0 {
                answer::lemma_sift_none(a, lt);
                *l
            } else {
                lemma_filtered(lt, *l, db);
                rewrite::filtered(lt, *l, db.tables)->Ok_0
            };
            let r2 = if rt.len() == 0 {
                answer::lemma_sift_none(b, rt);
                *r
            } else {
                lemma_filtered(rt, *r, db);
                rewrite::filtered(rt, *r, db.tables)->Ok_0
            };
            let plain = Plan::Cross(Box::new(l2), Box::new(r2));
            assert(answer::same_origins(plain, plan, db.tables)) by {
                assert forall|n: Seq<char>| rewrite::has_column(lc + rc, n) implies
                    #[trigger] answer::origin(plain, n, db.tables) == answer::origin(
                    plan,
                    n,
                    db.tables,
                ) by {
                    answer::lemma_index_append(lc, rc, n);
                    assert(rewrite::has_column(lc, n) ==> answer::origin(l2, n, db.tables)
                        == answer::origin(*l, n, db.tables));
                    assert(rewrite::has_column(rc, n) ==> answer::origin(r2, n, db.tables)
                        == answer::origin(*r, n, db.tables));
                }
            }
            answer::lemma_keys_agree_same(pt, plain, plan, db);
            lemma_joined(l2, r2, pt, db);
            let q = rewrite::joined(l2, r2, pt, lc, rc);
            assert forall|n: Seq<char>| rewrite::has_column(lc + rc, n) implies
                #[trigger] answer::origin(q, n, db.tables) == answer::origin(plan, n, db.tables) by {
                assert(answer::origin(plain, n, db.tables) == answer::origin(plan, n, db.tables));
            }
            let yes = |u: Record, v: Record| true;
            let p1 = |u: Record, v: Record|
                answer::passes_all(u, lt) && answer::passes_all(v, rt) && yes(u, v);
            let p2 = |u: Record, v: Record| p1(u, v) && answer::passes_all(answer::both(u, v), pt);
            let p3 = |u: Record, v: Record| yes(u, v) && answer::passes_all(answer::both(u, v), tests);
            answer::lemma_pairs_of_sifted(a, b, yes, lt, rt);
            answer::lemma_sift_pairs(a, b, p1, pt);
            answer::lemma_sift_pairs(a, b, yes, tests);
            answer::lemma_named(*l, db);
            answer::lemma_named(*r, db);
            assert forall|m: int, n: int| 0 <= m < a.len() && 0 <= n < b.len() implies p2(
                #[trigger] a[m],
                #[trigger] b[n],
            ) == p3(a[m], b[n]) by {
                lemma_passes_parts(a[m], b[n], tests, lc, rc);
            }
            answer::lemma_pairs_same(a, b, p2, p3);
        },
        _ => {},
    }
}

/// Columns come from the same places through two changes of a plan.
proof fn lemma_origins_in_turn(q: Plan, c: Plan, plan: Plan, tables: Seq<Table>)
    requires
        answer::same_origins(q, c, tables),
        answer::same_origins(c, plan, tables),
        schema::plan_schema(c, tables) == schema::plan_schema(plan, tables),
    ensures
        answer::same_origins(q, plan, tables),
{
    assert forall|n: Seq<char>|
        rewrite::has_column(answer::columns_of(plan, tables), n) implies #[trigger] answer::origin(
        q,
        n,
        tables,
    ) == answer::origin(plan, n, tables) by {
        assert(answer::origin(c, n, tables) == answer::origin(plan, n, tables));
    }
}

/// A column of a plan under a sort comes from where it comes from without the sort.
proof fn lemma_sort_origin(keys: Seq<SortKey>, plan: Plan, n: Seq<char>, tables: Seq<Table>)
    ensures
        answer::origin(rewrite::resorted(keys, plan, tables), n, tables) == answer::origin(
            plan,
            n,
            tables,
        ),
{
    let below = match plan {
        Plan::Sort(_, child) => *child,
        other => other,
    };
    assert(answer::origin(plan, n, tables) == answer::origin(below, n, tables));
    let over = Plan::Sort(keys, Box::new(below));
    assert(answer::origin(over, n, tables) == answer::origin(below, n, tables));
}

/// Rewriting a plan succeeds, and keeps its columns and its answer. Equal values have to be
/// the same in the columns that a filter compares for equality: a hash join tells zero from
/// negative zero, a test does not.
pub proof fn rewriting_keeps_the_answer(plan: Plan, db: Database)
    requires
        answer::sound(plan, db.tables),
        answer::rows_fit(db),
        answer::joins_agree(plan, db),
    ensures
        rewrite::rewritten(plan, db.tables) matches Ok(q) && answer::sound(q, db.tables)
            && schema::plan_schema(q, db.tables) == schema::plan_schema(plan, db.tables)
            && answer::answer(q, db) == answer::answer(plan, db) && answer::same_origins(
            q,
            plan,
            db.tables,
        ),
    decreases plan,
{
    match plan {
        Plan::Scan(_) => {},
        Plan::Filter(tests, child) => {
            rewriting_keeps_the_answer(*child, db);
            let c = rewrite::rewritten(*child, db.tables)->Ok_0;
            answer::lemma_keys_agree_same(tests, c, *child, db);
            lemma_filtered(tests, c, db);
            let q = rewrite::filtered(tests, c, db.tables)->Ok_0;
            lemma_origins_in_turn(q, c, *child, db.tables);
            assert(answer::same_origins(q, plan, db.tables)) by {
                assert forall|n: Seq<char>|
                    rewrite::has_column(answer::columns_of(plan, db.tables), n) implies
                    #[trigger] answer::origin(q, n, db.tables) == answer::origin(
                    plan,
                    n,
                    db.tables,
                ) by {
                    assert(answer::origin(q, n, db.tables) == answer::origin(
                        *child,
                        n,
                        db.tables,
                    ));
                }
            }
        },
        Plan::Sort(keys, child) => {
            rewriting_keeps_the_answer(*child, db);
            let c = rewrite::rewritten(*child, db.tables)->Ok_0;
            let q = rewrite::resorted(keys, c, db.tables);
            assert forall|n: Seq<char>|
                rewrite::has_column(answer::columns_of(plan, db.tables), n) implies
                #[trigger] answer::origin(q, n, db.tables) == answer::origin(
                plan,
                n,
                db.tables,
            ) by {
                assert(answer::origin(c, n, db.tables) == answer::origin(*child, n, db.tables));
                lemma_sort_origin(keys, c, n, db.tables);
            }
        },
        Plan::Project(map, child) => {
            rewriting_keeps_the_answer(*child, db);
            let c = rewrite::rewritten(*child, db.tables)->Ok_0;
            answer::lemma_projection_origins(map, c, *child, db.tables);
        },
        Plan::Cross(l, r) => {
            rewriting_keeps_the_answer(*l, db);
            rewriting_keeps_the_answer(*r, db);
            let l2 = rewrite::rewritten(*l, db.tables)->Ok_0;
            let r2 = rewrite::rewritten(*r, db.tables)->Ok_0;
            let q = rewrite::rewritten(plan, db.tables)->Ok_0;
            answer::lemma_both_origins(q, plan, l2, *l, r2, *r, db.tables);
        },
        Plan::HashJoin(l, r, x, y) => {
            rewriting_keeps_the_answer(*l, db);
            rewriting_keeps_the_answer(*r, db);
            let l2 = rewrite::rewritten(*l, db.tables)->Ok_0;
            let r2 = rewrite::rewritten(*r, db.tables)->Ok_0;
            let q = rewrite::rewritten(plan, db.tables)->Ok_0;
            assert(answer::hashed(plan, *l, *r, x, y) && answer::hashed(q, l2, r2, x, y));
            answer::lemma_both_origins(q, plan, l2, *l, r2, *r, db.tables);
        },
    }
}

// ---- rewriting twice ----

/// Whether rewriting leaves each part of a plan as it is.
pub open spec fn settled(plan: Plan, tables: Seq<Table>) -> bool
    decreases plan,
{
    match plan {
        Plan::Scan(_) => true,
        Plan::Filter(tests, child) => settled(*child, tables) && rewrite::filtered(
            tests,
            *child,
            tables,
        ) == Ok::<Plan, Fault>(plan),
        Plan::Sort(keys, child) => settled(*child, tables) && !(*child is Sort)
            && !rewrite::already_sorted(*child, keys, tables),
        Plan::Project(_, child) => settled(*child, tables),
        Plan::Cross(l, r) => settled(*l, tables) && settled(*r, tables),
        Plan::HashJoin(l, r, _, _) => settled(*l, tables) && settled(*r, tables),
    }
}

proof fn lemma_settled(plan: Plan, tables: Seq<Table>)
    requires
        settled(plan, tables),
    ensures
        rewrite::rewritten(plan, tables) == Ok::<Plan, Fault>(plan),
    decreases plan,
{
    match plan {
        Plan::Scan(_) => {},
        Plan::Filter(_, child) => {
            lemma_settled(*child, tables);
        },
        Plan::Sort(_, child) => {
            lemma_settled(*child, tables);
        },
        Plan::Project(_, child) => {
            lemma_settled(*child, tables);
        },
        Plan::Cross(l, r) => {
            lemma_settled(*l, tables);
            lemma_settled(*r, tables);
        },
        Plan::HashJoin(l, r, _, _) => {
            lemma_settled(*l, tables);
            lemma_settled(*r, tables);
        },
    }
}

/// A condition that all tests satisfy, or none.
proof fn lemma_filter_all_or_none(tests: Seq<Test>, p: spec_fn(Test) -> bool)
    ensures
        (forall|t: Test| #[trigger] tests.contains(t) ==> p(t)) ==> tests.filter(p) == tests,
        (forall|t: Test| #[trigger] tests.contains(t) ==> !p(t)) ==> tests.filter(p).len() == 0,
    decreases tests.len(),
{
    reveal(Seq::filter);
    if tests.len() > 0 {
        let before = tests.drop_last();
        lemma_filter_all_or_none(before, p);
        assert(tests.contains(tests.last()));
        assert forall|t: Test| #[trigger] before.contains(t) implies tests.contains(t) by {
            let i = choose|i: int| 0 <= i < before.len() && before[i] == t;
            assert(tests[i] == t);
        }
        assert(before.push(tests.last()) =~= tests);
    } else {
        assert(tests.filter(p) =~= tests);
    }
}

/// The tests that neither input can make alone stay what they are.
proof fn lemma_pair_tests_stay(tests: Seq<Test>, l: Seq<Column>, r: Seq<Column>)
    ensures
        ({
            let pt = rewrite::pair_tests(tests, l, r);
            &&& rewrite::left_tests(pt, l, r).len() == 0
            &&& rewrite::right_tests(pt, l, r).len() == 0
            &&& rewrite::pair_tests(pt, l, r) == pt
        }),
{
    let p = |t: Test| rewrite::needs_left(t, l) && !rewrite::needs_right(t, l, r);
    let q = |t: Test| rewrite::needs_right(t, l, r) && !rewrite::needs_left(t, l);
    let o = |t: Test| rewrite::needs_left(t, l) == rewrite::needs_right(t, l, r);
    let pt = rewrite::pair_tests(tests, l, r);
    assert forall|t: Test| #[trigger] pt.contains(t) implies o(t) && !p(t) && !q(t) by {
        lemma_some_tests(tests, o, t);
    }
    lemma_filter_all_or_none(pt, p);
    lemma_filter_all_or_none(pt, q);
    lemma_filter_all_or_none(pt, o);
}

proof fn lemma_filtered_settled(tests: Seq<Test>, plan: Plan, tables: Seq<Table>)
    requires
        settled(plan, tables),
    ensures
        match rewrite::filtered(tests, plan, tables) {
            Ok(q) => settled(q, tables) && schema::plan_schema(q, tables) == schema::plan_schema(
                plan,
                tables,
            ),
            Err(_) => true,
        },
    decreases plan,
{
    match plan {
        Plan::Cross(l, r) => {
            match (schema::plan_schema(*l, tables), schema::plan_schema(*r, tables)) {
                (Ok(lc), Ok(rc)) => {
                    let lt = rewrite::left_tests(tests, lc, rc);
                    let rt = rewrite::right_tests(tests, lc, rc);
                    let pt = rewrite::pair_tests(tests, lc, rc);
                    let left = if lt.len() == 0 {
                        Ok(*l)
                    } else {
                        lemma_filtered_settled(lt, *l, tables);
                        rewrite::filtered(lt, *l, tables)
                    };
                    let right = if rt.len() == 0 {
                        Ok(*r)
                    } else {
                        lemma_filtered_settled(rt, *r, tables);
                        rewrite::filtered(rt, *r, tables)
                    };
                    match (left, right) {
                        (Ok(l2), Ok(r2)) => {
                            lemma_pair_tests_stay(tests, lc, rc);
                            let plain = Plan::Cross(Box::new(l2), Box::new(r2));
                            assert(settled(plain, tables));
                            let equi = |t: Test| rewrite::is_equi_join(t, lc, rc);
                            match seqs::first_where(pt, equi) {
                                Some(i) => {
                                    let join = rewrite::equi_joined(pt[i], l2, r2, lc);
                                    assert(settled(join, tables));
                                    assert(rewrite::filtered(pt.remove(i), join, tables) == Ok::<
                                        Plan,
                                        Fault,
                                    >(Plan::Filter(pt.remove(i), Box::new(join))));
                                    let q = rewrite::under(pt.remove(i), join);
                                    assert(settled(q, tables));
                                    assert(schema::plan_schema(join, tables) == Ok::<_, Fault>(
                                        lc + rc,
                                    ));
                                    assert(schema::plan_schema(q, tables) == Ok::<_, Fault>(lc + rc));
                                    assert(rewrite::filtered(tests, plan, tables) == Ok::<Plan, Fault>(q));
                                },
                                None => {
                                    assert(rewrite::joined(l2, r2, pt, lc, rc) == rewrite::under(
                                        pt,
                                        plain,
                                    ));
                                    assert(rewrite::filtered(pt, plain, tables) == Ok::<
                                        Plan,
                                        Fault,
                                    >(rewrite::under(pt, plain)));
                                    let q = rewrite::under(pt, plain);
                                    assert(settled(q, tables));
                                    assert(schema::plan_schema(plain, tables) == Ok::<_, Fault>(
                                        lc + rc,
                                    ));
                                    assert(schema::plan_schema(q, tables) == Ok::<_, Fault>(lc + rc));
                                    assert(rewrite::filtered(tests, plan, tables) == Ok::<Plan, Fault>(q));
                                },
                            }
                        },
                        _ => {},
                    }
                },
                _ => {},
            }
        },
        _ => {},
    }
}

pub proof fn lemma_rewritten_is_settled(plan: Plan, tables: Seq<Table>)
    ensures
        match rewrite::rewritten(plan, tables) {
            Ok(q) => settled(q, tables),
            Err(_) => true,
        },
    decreases plan,
{
    match plan {
        Plan::Scan(_) => {},
        Plan::Filter(tests, child) => {
            lemma_rewritten_is_settled(*child, tables);
            match rewrite::rewritten(*child, tables) {
                Ok(c) => {
                    lemma_filtered_settled(tests, c, tables);
                },
                Err(_) => {},
            }
        },
        Plan::Sort(_, child) => {
            lemma_rewritten_is_settled(*child, tables);
        },
        Plan::Project(_, child) => {
            lemma_rewritten_is_settled(*child, tables);
        },
        Plan::Cross(l, r) => {
            lemma_rewritten_is_settled(*l, tables);
            lemma_rewritten_is_settled(*r, tables);
        },
        Plan::HashJoin(l, r, _, _) => {
            lemma_rewritten_is_settled(*l, tables);
            lemma_rewritten_is_settled(*r, tables);
        },
    }
}

/// Rewriting a rewritten plan changes nothing.
pub proof fn rewriting_twice_changes_nothing(plan: Plan, tables: Seq<Table>)
    requires
        rewrite::rewritten(plan, tables) is Ok,
    ensures
        rewrite::rewritten(rewrite::rewritten(plan, tables)->Ok_0, tables) == rewrite::rewritten(
            plan,
            tables,
        ),
{
    lemma_rewritten_is_settled(plan, tables);
    lemma_settled(rewrite::rewritten(plan, tables)->Ok_0, tables);
}

// ---- sorts that are left out ----

/// Whether the rows of each table ascend in the columns of which its statistics say so.
pub open spec fn order_holds(db: Database) -> bool {
    forall|id: Seq<char>, k: int|
        #![trigger (db.rows)(id), db.tables[query::table_index(db.tables, id)->Some_0].columns[k]]
        query::table_index(db.tables, id) matches Some(t) && 0 <= k < db.tables[t].columns.len()
            && (db.tables[t].columns[k].stats matches Some(stats) && stats.contains(
            Stat::PhysicallyOrdered,
        )) ==> scan_laws::ascend((db.rows)(id), k)
}

/// The pair that gives a column is the first one with its name.
pub proof fn lemma_output(map: Seq<(Seq<char>, Seq<char>)>, name: Seq<char>)
    ensures
        match rewrite::output_index(map, name) {
            Some(j) => 0 <= j < map.len() && map[j].1 == name && (forall|i: int|
                0 <= i < j ==> (#[trigger] map[i]).1 != name),
            None => forall|i: int| 0 <= i < map.len() ==> (#[trigger] map[i]).1 != name,
        },
{
    assert forall|n: Seq<char>|
        match #[trigger] rewrite::output_index(map, n) {
            Some(j) => 0 <= j < map.len() && map[j].1 == n && (forall|i: int|
                0 <= i < j ==> (#[trigger] map[i]).1 != n),
            None => forall|i: int| 0 <= i < map.len() ==> (#[trigger] map[i]).1 != n,
        } by {
        let p = |pair: (Seq<char>, Seq<char>)| pair.1 == n;
        seqs::lemma_first_where(map, p);
        match rewrite::output_index(map, n) {
            Some(j) => {
                assert forall|i: int| 0 <= i < j implies (#[trigger] map[i]).1 != n by {
                    assert(!p(map[i]));
                }
            },
            None => {
                assert forall|i: int| 0 <= i < map.len() implies (#[trigger] map[i]).1 != n by {
                    assert(!p(map[i]));
                }
            },
        }
    }
}

/// Rows that ascend still do so where some are left out.
pub proof fn lemma_filter_ascends(all: Seq<Seq<Val>>, p: spec_fn(Seq<Val>) -> bool, col: int)
    requires
        scan_laws::ascend(all, col),
    ensures
        scan_laws::ascend(all.filter(p), col),
        forall|x: Seq<Val>| #[trigger] all.filter(p).contains(x) ==> all.contains(x),
    decreases all.len(),
{
    reveal(Seq::filter);
    if all.len() > 0 {
        let before = all.drop_last();
        assert forall|i: int, j: int| 0 <= i <= j < before.len() implies value::at_most(
            value::val_order(#[trigger] before[i][col], #[trigger] before[j][col]),
        ) by {
            assert(before[i] == all[i] && before[j] == all[j]);
        }
        lemma_filter_ascends(before, p, col);
        let (now, then) = (all.filter(p), before.filter(p));
        let x = all.last();
        assert forall|y: Seq<Val>| #[trigger] now.contains(y) implies all.contains(y) by {
            let i = choose|i: int| 0 <= i < now.len() && now[i] == y;
            if i < then.len() {
                assert(then[i] == y);
                assert(then.contains(y));
                assert(before.contains(y));
                let k = choose|k: int| 0 <= k < before.len() && before[k] == y;
                assert(all[k] == y);
            } else {
                assert(all[all.len() - 1] == y);
            }
        }
        assert forall|i: int, j: int| 0 <= i <= j < now.len() implies value::at_most(
            value::val_order(#[trigger] now[i][col], #[trigger] now[j][col]),
        ) by {
            if j < then.len() {
                assert(now[i] == then[i] && now[j] == then[j]);
            } else if i < then.len() {
                assert(now[i] == then[i]);
                assert(then.contains(then[i]));
                assert(before.contains(then[i]));
                let k = choose|k: int| 0 <= k < before.len() && before[k] == then[i];
                assert(all[k][col] == then[i][col]);
                assert(all[all.len() - 1][col] == now[j][col]);
            } else {
                assert(all[all.len() - 1][col] == now[j][col]);
            }
        }
    }
}

pub proof fn lemma_ordered_ascends(plan: Plan, name: Seq<char>, db: Database)
    requires
        answer::sound(plan, db.tables),
        answer::rows_fit(db),
        order_holds(db),
        rewrite::column_ordered(plan, name, db.tables),
    ensures
        schema::column_index(answer::columns_of(plan, db.tables), name) matches Some(i) && 0 <= i
            < answer::columns_of(plan, db.tables).len() && scan_laws::ascend(
            answer::rows_of(plan, db),
            i,
        ),
    decreases plan,
{
    let columns = answer::columns_of(plan, db.tables);
    answer::lemma_index(columns, name);
    match plan {
        Plan::Scan(id) => {
            let t = query::table_index(db.tables, id)->Some_0;
            let given = db.tables[t].columns;
            let k = query::spec_index(given, name)->Some_0;
            let p = |c: TableColumn| c.name == name;
            seqs::lemma_first_where(given, p);
            assert forall|j: int| 0 <= j < k implies (#[trigger] columns[j]).name != name by {
                assert(!p(given[j]));
            }
            seqs::lemma_first_where_is(columns, |c: Column| c.name == name, k);
            assert(scan_laws::ascend((db.rows)(id), k));
        },
        Plan::Filter(tests, child) => {
            lemma_ordered_ascends(*child, name, db);
            let i = schema::column_index(columns, name)->Some_0;
            lemma_filter_ascends(
                answer::rows_of(*child, db),
                |r: Seq<Val>| row::tests_outcome(r, columns, tests) == Ok::<bool, Fault>(true),
                i,
            );
        },
        Plan::Project(map, child) => {
            let below = answer::columns_of(*child, db.tables);
            let i = rewrite::output_index(map, name)->Some_0;
            seqs::lemma_first_where(map, |pair: (Seq<char>, Seq<char>)| pair.1 == name);
            lemma_ordered_ascends(*child, map[i].0, db);
            answer::lemma_projected(below, map);
            answer::lemma_sources(below, map);
            let at = project::sources(below, map)->Ok_0;
            assert(schema::column_index(below, map[i].0) == Some(at[i]));
            assert(schema::column_index(columns, name) == Some(i));
            let (all, out) = (answer::rows_of(*child, db), answer::rows_of(plan, db));
            assert forall|x: int, y: int| 0 <= x <= y < out.len() implies value::at_most(
                value::val_order(#[trigger] out[x][i], #[trigger] out[y][i]),
            ) by {
                assert(out[x][i] == all[x][at[i]]);
                assert(out[y][i] == all[y][at[i]]);
            }
        },
        _ => {},
    }
}

/// Where a sort is left out because the table is stored in its order, the rows come in its
/// order.
pub proof fn a_sort_is_left_out_of_sorted_rows(plan: Plan, keys: Seq<SortKey>, db: Database)
    requires
        answer::sound(plan, db.tables),
        answer::rows_fit(db),
        order_holds(db),
        rewrite::already_sorted(plan, keys, db.tables),
    ensures
        sort::key_positions(answer::columns_of(plan, db.tables), keys) matches Ok(at)
            && sort_laws::sorted(answer::rows_of(plan, db), at),
{
    let columns = answer::columns_of(plan, db.tables);
    lemma_ordered_ascends(plan, keys[0].column, db);
    let i = schema::column_index(columns, keys[0].column)->Some_0;
    reveal_with_fuel(sort::key_positions, 2);
    assert(keys.drop_last() =~= Seq::empty());
    let at = sort::key_positions(columns, keys)->Ok_0;
    assert(at =~= seq![(i, true)]);
    let all = answer::rows_of(plan, db);
    assert forall|x: int, y: int| 0 <= x < y < all.len() implies sort::rows_order(
        #[trigger] all[x],
        #[trigger] all[y],
        at,
    ) != Order::Greater by {
        assert(value::at_most(value::val_order(all[x][i], all[y][i])));
        reveal_with_fuel(sort::rows_order, 2);
    }
}

} // verus!
