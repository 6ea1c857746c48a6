//! Laws of the exchange of the sides of joins: it keeps the answer, up to its order.

use vstd::prelude::*;

use crate::answer::{Database, Record};
use crate::answer;
use crate::error::Fault;
use crate::ops::hash;
use crate::optimizer::pushdown;
use crate::optimizer::pushdown_laws;
use crate::optimizer::rewrite;
use crate::optimizer::rewrite_laws;
use crate::optimizer::swap;
use crate::query::Plan;
use crate::schema;
use crate::seqs;

verus! {

/// A join of exchanged inputs under the projection that puts its columns in their old order.
proof fn lemma_exchanged(
    l: Plan,
    r: Plan,
    kept: Plan,
    exchanged: Plan,
    p: spec_fn(Record, Record) -> bool,
    q: spec_fn(Record, Record) -> bool,
    db: Database,
)
    requires
        answer::sound(kept, db.tables),
        answer::sound(l, db.tables),
        answer::sound(r, db.tables),
        answer::rows_fit(db),
        schema::plan_schema(kept, db.tables) == Ok::<_, Fault>(
            answer::columns_of(l, db.tables) + answer::columns_of(r, db.tables),
        ),
        schema::plan_schema(exchanged, db.tables) == Ok::<_, Fault>(
            answer::columns_of(r, db.tables) + answer::columns_of(l, db.tables),
        ),
        answer::distinct(
            answer::columns_of(r, db.tables) + answer::columns_of(l, db.tables),
        ) ==> answer::sound(exchanged, db.tables),
        answer::answer(kept, db) == answer::pairs_if(
            answer::answer(l, db),
            answer::answer(r, db),
            p,
        ),
        answer::answer(exchanged, db) == answer::pairs_if(
            answer::answer(r, db),
            answer::answer(l, db),
            q,
        ),
        forall|a: Record, b: Record| #![trigger p(a, b)] #![trigger q(b, a)] p(a, b) == q(b, a),
    ensures
        swap::sided(l, r, kept, exchanged, db.tables) matches Ok(s) && answer::sound(s, db.tables)
            && schema::plan_schema(s, db.tables) == schema::plan_schema(kept, db.tables)
            && seqs::same_bag(answer::answer(s, db), answer::answer(kept, db)),
{
    let (lc, rc) = (answer::columns_of(l, db.tables), answer::columns_of(r, db.tables));
    let (columns, turned) = (lc + rc, rc + lc);
    rewrite_laws::lemma_distinct_parts(lc, rc);
    assert forall|i: int, j: int| 0 <= i < turned.len() && 0 <= j < turned.len() && i != j implies (
    #[trigger] turned[i]).name != (#[trigger] turned[j]).name by {
        let x = if i < rc.len() {
            lc.len() + i
        } else {
            i - rc.len()
        };
        let y = if j < rc.len() {
            lc.len() + j
        } else {
            j - rc.len()
        };
        assert(columns[x] == turned[i] && columns[y] == turned[j]);
    }
    assert forall|i: int| 0 <= i < columns.len() implies turned.contains(#[trigger] columns[i]) by {
        let x = if i < lc.len() {
            rc.len() + i
        } else {
            i - lc.len()
        };
        assert(turned[x] == columns[i]);
    }
    pushdown_laws::lemma_keeping(turned, columns);
    let map = pushdown::keeping(columns);
    let s = Plan::Project(map, Box::new(exchanged));
    let (a, b) = (answer::answer(l, db), answer::answer(r, db));
    let pairs = answer::answer(exchanged, db);
    answer::lemma_named(l, db);
    answer::lemma_named(r, db);
    answer::lemma_named(exchanged, db);
    answer::lemma_apart(a, lc, b, rc);
    answer::lemma_pairs_exchanged(a, b, p, q);
    assert forall|i: int| 0 <= i < pairs.len() implies #[trigger] answer::answer(s, db)[i]
        == pairs[i] by {
        let (x, y) = (pushdown_laws::restricted(pairs[i], columns), pairs[i]);
        assert(answer::answer(s, db)[i] == answer::renamed(pairs[i], map));
        assert forall|n: Seq<char>| #![auto] x.dom().contains(n) == y.dom().contains(n) by {
            answer::lemma_index_append(lc, rc, n);
            answer::lemma_index_append(rc, lc, n);
            assert(pairs[i].dom().contains(n) == rewrite::has_column(turned, n));
        }
        assert(x =~= y);
    }
    assert(answer::answer(s, db) =~= pairs);
    assert(answer::sound(s, db.tables));
    assert(answer::sound(kept, db.tables));
}

/// Exchanging the sides of joins succeeds, and keeps the columns of a plan and its answer,
/// up to its order.
pub proof fn exchanging_sides_keeps_the_answer(plan: Plan, db: Database)
    requires
        answer::sound(plan, db.tables),
        answer::rows_fit(db),
    ensures
        swap::swapped(plan, db.tables) matches Ok(q) && answer::sound(q, db.tables)
            && schema::plan_schema(q, db.tables) == schema::plan_schema(plan, db.tables)
            && seqs::same_bag(answer::answer(q, db), answer::answer(plan, db)),
    decreases plan,
{
    match plan {
        Plan::Scan(_) => {},
        Plan::Filter(tests, child) => {
            exchanging_sides_keeps_the_answer(*child, db);
            let c = swap::swapped(*child, db.tables)->Ok_0;
            answer::lemma_sift_bag(answer::answer(c, db), answer::answer(*child, db), tests);
        },
        Plan::Project(map, child) => {
            exchanging_sides_keeps_the_answer(*child, db);
            let c = swap::swapped(*child, db.tables)->Ok_0;
            seqs::lemma_map_bag(
                answer::answer(c, db),
                answer::answer(*child, db),
                |a: Record| answer::renamed(a, map),
            );
        },
        Plan::Sort(_, child) => {
            exchanging_sides_keeps_the_answer(*child, db);
        },
        Plan::Cross(l, r) => {
            exchanging_sides_keeps_the_answer(*l, db);
            exchanging_sides_keeps_the_answer(*r, db);
            let l2 = swap::swapped(*l, db.tables)->Ok_0;
            let r2 = swap::swapped(*r, db.tables)->Ok_0;
            let kept = Plan::Cross(Box::new(l2), Box::new(r2));
            let exchanged = Plan::Cross(Box::new(r2), Box::new(l2));
            let p = |a: Record, b: Record| true;
            answer::lemma_pairs_bag(
                answer::answer(l2, db),
                answer::answer(r2, db),
                answer::answer(*l, db),
                answer::answer(*r, db),
                p,
            );
            lemma_exchanged(l2, r2, kept, exchanged, p, p, db);
        },
        Plan::HashJoin(l, r, x, y) => {
            exchanging_sides_keeps_the_answer(*l, db);
            exchanging_sides_keeps_the_answer(*r, db);
            let l2 = swap::swapped(*l, db.tables)->Ok_0;
            let r2 = swap::swapped(*r, db.tables)->Ok_0;
            let kept = Plan::HashJoin(Box::new(l2), Box::new(r2), x, y);
            let exchanged = Plan::HashJoin(Box::new(r2), Box::new(l2), y, x);
            let p = |a: Record, b: Record| hash::same_key(b[y], a[x]);
            let q = |b: Record, a: Record| hash::same_key(a[x], b[y]);
            answer::lemma_pairs_bag(
                answer::answer(l2, db),
                answer::answer(r2, db),
                answer::answer(*l, db),
                answer::answer(*r, db),
                p,
            );
            lemma_exchanged(l2, r2, kept, exchanged, p, q, db);
        },
    }
}

} // verus!
