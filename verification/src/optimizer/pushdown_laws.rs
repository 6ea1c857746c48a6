//! Laws of the narrowing of scans: it keeps the answer.

use vstd::prelude::*;

use crate::answer::{Database, Record};
use crate::answer;
use crate::error::Fault;
use crate::ops::filter;
use crate::ops::hash;
use crate::optimizer::pushdown;
use crate::optimizer::rewrite;
use crate::optimizer::rewrite_laws;
use crate::query::{Operand, Plan, Table, Test};
use crate::schema::Column;
use crate::schema;
use crate::seqs;

verus! {

/// Whether columns are some of others.
pub open spec fn among(some: Seq<Column>, all: Seq<Column>) -> bool {
    forall|n: Seq<char>| #[trigger]
        rewrite::has_column(some, n) ==> rewrite::has_column(all, n)
            && some[schema::column_index(some, n)->Some_0].data_type
            == all[schema::column_index(all, n)->Some_0].data_type
}

/// Whether columns hold all those of others that are asked for.
pub open spec fn holds_asked(
    some: Seq<Column>,
    all: Seq<Column>,
    required: Option<Set<Seq<char>>>,
) -> bool {
    match required {
        None => some == all,
        Some(r) => forall|n: Seq<char>|
            r.contains(n) && #[trigger] rewrite::has_column(all, n) ==> rewrite::has_column(some, n),
    }
}

/// A record with the names of columns only.
pub open spec fn restricted(a: Record, columns: Seq<Column>) -> Record {
    Map::new(|n: Seq<char>| rewrite::has_column(columns, n), |n: Seq<char>| a[n])
}

/// Records with the names of columns only.
pub open spec fn all_restricted(all: Seq<Record>, columns: Seq<Column>) -> Seq<Record> {
    all.map_values(|a: Record| restricted(a, columns))
}

/// A record with all its names.
pub proof fn lemma_restricted_whole(all: Seq<Record>, columns: Seq<Column>)
    requires
        answer::named(all, columns),
    ensures
        all_restricted(all, columns) == all,
{
    assert forall|i: int| 0 <= i < all.len() implies #[trigger] all_restricted(all, columns)[i]
        == all[i] by {
        let (a, b) = (restricted(all[i], columns), all[i]);
        assert forall|n: Seq<char>| #![auto] a.dom().contains(n) == b.dom().contains(n) by {
            assert(all[i].dom().contains(n) == rewrite::has_column(columns, n));
        }
        assert(a =~= b);
    }
    assert(all_restricted(all, columns) =~= all);
}

/// What some columns hold.
proof fn lemma_some_columns(columns: Seq<Column>, p: spec_fn(Column) -> bool)
    ensures
        columns.filter(p).len() <= columns.len(),
        forall|c: Column|
            #![trigger columns.filter(p).contains(c)]
            columns.filter(p).contains(c) == (columns.contains(c) && p(c)),
        answer::distinct(columns) ==> answer::distinct(columns.filter(p)),
    decreases columns.len(),
{
    reveal(Seq::filter);
    if columns.len() > 0 {
        let before = columns.drop_last();
        let last = columns.last();
        lemma_some_columns(before, p);
        let (now, then) = (columns.filter(p), before.filter(p));
        assert forall|c: Column| columns.contains(c) == (before.contains(c) || c == last) by {
            if before.contains(c) {
                let i = choose|i: int| 0 <= i < before.len() && before[i] == c;
                assert(columns[i] == c);
            }
            if c == last {
                assert(columns[columns.len() - 1] == c);
            }
            if columns.contains(c) {
                let i = choose|i: int| 0 <= i < columns.len() && columns[i] == c;
                if i < before.len() {
                    assert(before[i] == c);
                }
            }
        }
        assert forall|c: Column|
            #![trigger now.contains(c)]
            now.contains(c) == (then.contains(c) || (p(last) && c == last)) by {
            if then.contains(c) {
                let i = choose|i: int| 0 <= i < then.len() && then[i] == c;
                assert(now[i] == c);
            }
            if p(last) && c == last {
                assert(now[then.len() as int] == c);
            }
            if now.contains(c) {
                let i = choose|i: int| 0 <= i < now.len() && now[i] == c;
                if i < then.len() {
                    assert(then[i] == c);
                }
            }
        }
        if answer::distinct(columns) {
            assert forall|i: int, j: int|
                0 <= i < before.len() && 0 <= j < before.len() && i != j implies (
            #[trigger] before[i]).name != (#[trigger] before[j]).name by {
                assert(before[i] == columns[i] && before[j] == columns[j]);
            }
            assert forall|i: int| 0 <= i < then.len() implies (#[trigger] then[i]).name
                != last.name by {
                assert(then.contains(then[i]));
                assert(before.contains(then[i]));
                let k = choose|k: int| 0 <= k < before.len() && before[k] == then[i];
                assert(columns[k] == then[i] && columns[columns.len() - 1] == last);
            }
            assert forall|i: int, j: int| 0 <= i < now.len() && 0 <= j < now.len() && i != j implies (
            #[trigger] now[i]).name != (#[trigger] now[j]).name by {
                if i < then.len() {
                    assert(now[i] == then[i]);
                }
                if j < then.len() {
                    assert(now[j] == then[j]);
                }
            }
        }
    }
}

/// A projection that keeps names.
pub proof fn lemma_keeping(columns: Seq<Column>, used: Seq<Column>)
    requires
        answer::distinct(columns),
        answer::distinct(used),
        forall|i: int| 0 <= i < used.len() ==> columns.contains(#[trigger] used[i]),
    ensures
        schema::projected_columns(columns, pushdown::keeping(used)) == Ok::<_, Fault>(used),
        forall|a: Record|
            #![trigger answer::renamed(a, pushdown::keeping(used))]
            answer::renamed(a, pushdown::keeping(used)) == restricted(a, used),
{
    let map = pushdown::keeping(used);
    assert forall|i: int| 0 <= i < used.len() implies schema::column_index(
        columns,
        (#[trigger] used[i]).name,
    ) is Some && columns[schema::column_index(columns, used[i].name)->Some_0] == used[i] by {
        let k = choose|k: int| 0 <= k < columns.len() && columns[k] == used[i];
        answer::lemma_has(columns, k);
    }
    assert forall|i: int| 0 <= i < map.len() implies rewrite::has_column(
        columns,
        (#[trigger] map[i]).0,
    ) by {
        assert(map[i].0 == used[i].name);
    }
    answer::lemma_projects(columns, map);
    answer::lemma_projected(columns, map);
    let given = schema::projected_columns(columns, map)->Ok_0;
    assert forall|i: int| 0 <= i < used.len() implies #[trigger] given[i] == used[i] by {
        assert(map[i].0 == used[i].name);
        assert(map[i].1 == used[i].name);
    }
    assert(given =~= used);
    assert forall|a: Record|
        #![trigger answer::renamed(a, map)]
        answer::renamed(a, map) == restricted(a, used) by {
        let (x, y) = (answer::renamed(a, map), restricted(a, used));
        assert forall|n: Seq<char>| #![auto] x.dom().contains(n) == y.dom().contains(n) by {
            assert(schema::column_index(used, n) == rewrite::output_index(map, n));
        }
        assert forall|n: Seq<char>| #![auto] x.dom().contains(n) implies x[n] == y[n] by {
            seqs::lemma_first_where(map, |pair: (Seq<char>, Seq<char>)| pair.1 == n);
            let i = rewrite::output_index(map, n)->Some_0;
            assert(map[i] == (used[i].name, used[i].name));
        }
        assert(x =~= y);
    }
}

proof fn lemma_narrowed(id: Seq<char>, r: Set<Seq<char>>, db: Database)
    requires
        answer::sound(Plan::Scan(id), db.tables),
        answer::rows_fit(db),
    ensures
        is_narrowing(Plan::Scan(id), Some(r), db),
{
    let plan = Plan::Scan(id);
    let columns = answer::columns_of(plan, db.tables);
    let p = |c: Column| r.contains(c.name);
    let used = columns.filter(p);
    answer::lemma_named(plan, db);
    lemma_some_columns(columns, p);
    let q = pushdown::narrowed(id, r, columns);
    assert(pushdown::pushed(plan, Some(r), db.tables) == Ok::<Plan, Fault>(q));
    if 0 < used.len() < columns.len() {
        assert forall|i: int| 0 <= i < used.len() implies columns.contains(#[trigger] used[i]) by {
            assert(used.contains(used[i]));
        }
        lemma_keeping(columns, used);
        assert(answer::columns_of(q, db.tables) == used);
        assert forall|n: Seq<char>| #[trigger] rewrite::has_column(used, n) implies rewrite::has_column(
            columns,
            n,
        ) && used[schema::column_index(used, n)->Some_0].data_type
            == columns[schema::column_index(columns, n)->Some_0].data_type by {
            answer::lemma_index(used, n);
            let i = schema::column_index(used, n)->Some_0;
            assert(columns.contains(used[i]));
            let k = choose|k: int| 0 <= k < columns.len() && columns[k] == used[i];
            answer::lemma_has(columns, k);
        }
        assert forall|n: Seq<char>|
            r.contains(n) && #[trigger] rewrite::has_column(columns, n) implies rewrite::has_column(
            used,
            n,
        ) by {
            answer::lemma_index(columns, n);
            let i = schema::column_index(columns, n)->Some_0;
            assert(columns.contains(columns[i]));
            assert(used.contains(columns[i]));
            let k = choose|k: int| 0 <= k < used.len() && used[k] == columns[i];
            answer::lemma_has(used, k);
        }
        let all = answer::answer(plan, db);
        assert(answer::answer(q, db) =~= all_restricted(all, used));
        assert(answer::sound(q, db.tables));
    } else {
        lemma_restricted_whole(answer::answer(plan, db), columns);
    }
}

/// Whether narrowing a plan succeeds, and its records keep what is asked for.
pub open spec fn is_narrowing(plan: Plan, required: Option<Set<Seq<char>>>, db: Database) -> bool {
    pushdown::pushed(plan, required, db.tables) matches Ok(q) && {
        let (some, all) = (answer::columns_of(q, db.tables), answer::columns_of(plan, db.tables));
        &&& answer::sound(q, db.tables)
        &&& among(some, all)
        &&& holds_asked(some, all, required)
        &&& answer::answer(q, db) == all_restricted(answer::answer(plan, db), some)
    }
}

/// The pairs of a projection that are asked for.
proof fn lemma_asked_pairs(map: Seq<(Seq<char>, Seq<char>)>, required: Option<Set<Seq<char>>>)
    ensures
        forall|i: int|
            #![trigger pushdown::asked_pairs(map, required)[i]]
            0 <= i < pushdown::asked_pairs(map, required).len() ==> map.contains(
                pushdown::asked_pairs(map, required)[i],
            ),
        required matches Some(r) ==> forall|i: int|
            0 <= i < map.len() && r.contains((#[trigger] map[i]).1) ==> pushdown::asked_pairs(
                map,
                required,
            ).contains(map[i]),
    decreases map.len(),
{
    let pairs = pushdown::asked_pairs(map, required);
    match required {
        None => {
            assert forall|i: int| #![trigger pairs[i]] 0 <= i < pairs.len() implies map.contains(
                pairs[i],
            ) by {
                assert(map[i] == pairs[i]);
            }
        },
        Some(r) => {
            reveal(Seq::filter);
            if map.len() > 0 {
                let before = map.drop_last();
                let then = pushdown::asked_pairs(before, required);
                lemma_asked_pairs(before, required);
                assert forall|i: int| #![trigger pairs[i]] 0 <= i < pairs.len() implies map.contains(
                    pairs[i],
                ) by {
                    if i < then.len() {
                        assert(pairs[i] == then[i]);
                        assert(before.contains(then[i]));
                        let k = choose|k: int| 0 <= k < before.len() && before[k] == then[i];
                        assert(map[k] == pairs[i]);
                    } else {
                        assert(map[map.len() - 1] == pairs[i]);
                    }
                }
                assert forall|i: int| 0 <= i < map.len() && r.contains((#[trigger] map[i]).1) implies pairs.contains(
                    map[i],
                ) by {
                    if i < before.len() {
                        assert(before[i] == map[i]);
                        assert(then.contains(before[i]));
                        let k = choose|k: int| 0 <= k < then.len() && then[k] == before[i];
                        assert(pairs[k] == map[i]);
                    } else {
                        assert(pairs[then.len() as int] == map[i]);
                    }
                }
            }
        },
    }
}

/// The outputs of the pairs that are asked for are distinct where all outputs are.
proof fn lemma_asked_distinct(map: Seq<(Seq<char>, Seq<char>)>, required: Option<Set<Seq<char>>>)
    requires
        outputs_distinct(map),
    ensures
        outputs_distinct(pushdown::asked_pairs(map, required)),
    decreases map.len(),
{
    match required {
        None => {},
        Some(_) => {
            reveal(Seq::filter);
            if map.len() > 0 {
                let before = map.drop_last();
                let (now, then) = (
                    pushdown::asked_pairs(map, required),
                    pushdown::asked_pairs(before, required),
                );
                assert forall|i: int, j: int|
                    0 <= i < before.len() && 0 <= j < before.len() && i != j implies (
                #[trigger] before[i]).1 != (#[trigger] before[j]).1 by {
                    assert(before[i] == map[i] && before[j] == map[j]);
                }
                lemma_asked_distinct(before, required);
                lemma_asked_pairs(before, required);
                assert forall|i: int| 0 <= i < then.len() implies (#[trigger] then[i]).1
                    != map.last().1 by {
                    assert(before.contains(then[i]));
                    let k = choose|k: int| 0 <= k < before.len() && before[k] == then[i];
                    assert(map[k] == then[i] && map[map.len() - 1] == map.last());
                }
                assert forall|i: int, j: int| 0 <= i < now.len() && 0 <= j < now.len() && i != j implies (
                #[trigger] now[i]).1 != (#[trigger] now[j]).1 by {
                    if i < then.len() {
                        assert(now[i] == then[i]);
                    }
                    if j < then.len() {
                        assert(now[j] == then[j]);
                    }
                }
            }
        },
    }
}

/// Whether no two pairs of a projection give the same name.
pub open spec fn outputs_distinct(map: Seq<(Seq<char>, Seq<char>)>) -> bool {
    forall|i: int, j: int|
        0 <= i < map.len() && 0 <= j < map.len() && i != j ==> (#[trigger] map[i]).1 != (
        #[trigger] map[j]).1
}

proof fn lemma_pushed_project(
    map: Seq<(Seq<char>, Seq<char>)>,
    child: Plan,
    required: Option<Set<Seq<char>>>,
    db: Database,
)
    requires
        answer::sound(Plan::Project(map, Box::new(child)), db.tables),
        answer::rows_fit(db),
        is_narrowing(
            child,
            Some(pushdown::source_names(pushdown::asked_pairs(map, required))),
            db,
        ),
    ensures
        is_narrowing(Plan::Project(map, Box::new(child)), required, db),
{
    let plan = Plan::Project(map, Box::new(child));
    let pairs = pushdown::asked_pairs(map, required);
    let asked = pushdown::source_names(pairs);
    let c = pushdown::pushed(child, Some(asked), db.tables)->Ok_0;
    let q = Plan::Project(pairs, Box::new(c));
    let (all, some) = (answer::columns_of(child, db.tables), answer::columns_of(c, db.tables));
    let columns = answer::columns_of(plan, db.tables);
    answer::lemma_projected(all, map);
    lemma_asked_pairs(map, required);
    assert(outputs_distinct(map)) by {
        assert forall|i: int, j: int|
            0 <= i < map.len() && 0 <= j < map.len() && i != j implies (#[trigger] map[i]).1 != (
        #[trigger] map[j]).1 by {
            assert(columns[i].name == map[i].1 && columns[j].name == map[j].1);
        }
    }
    lemma_asked_distinct(map, required);
    assert forall|i: int| 0 <= i < pairs.len() implies rewrite::has_column(
        some,
        (#[trigger] pairs[i]).0,
    ) by {
        assert(map.contains(pairs[i]));
        let k = choose|k: int| 0 <= k < map.len() && map[k] == pairs[i];
        assert(rewrite::has_column(all, map[k].0));
        assert(asked.contains(pairs[i].0));
    }
    answer::lemma_projects(some, pairs);
    answer::lemma_projected(some, pairs);
    let given = answer::columns_of(q, db.tables);
    assert(given == schema::projected_columns(some, pairs)->Ok_0);
    assert(answer::distinct(given)) by {
        assert forall|i: int, j: int|
            0 <= i < given.len() && 0 <= j < given.len() && i != j implies (#[trigger] given[i]).name
            != (#[trigger] given[j]).name by {
            assert(pairs[i].1 != pairs[j].1);
        }
    }
    assert(answer::sound(q, db.tables));
    // Each pair that is asked for is a pair of the projection.
    assert forall|i: int| #![trigger pairs[i]] 0 <= i < pairs.len() implies rewrite::output_index(
        map,
        pairs[i].1,
    ) matches Some(k) && map[k] == pairs[i] && columns[k] == given[i] by {
        assert(map.contains(pairs[i]));
        let k = choose|k: int| 0 <= k < map.len() && map[k] == pairs[i];
        assert(columns[k].name == pairs[i].1);
        answer::lemma_has(columns, k);
        assert(schema::column_index(columns, pairs[i].1) == rewrite::output_index(map, pairs[i].1));
        assert(rewrite::has_column(some, pairs[i].0));
    }
    assert(among(given, columns)) by {
        assert forall|n: Seq<char>| #[trigger] rewrite::has_column(given, n) implies rewrite::has_column(
            columns,
            n,
        ) && given[schema::column_index(given, n)->Some_0].data_type
            == columns[schema::column_index(columns, n)->Some_0].data_type by {
            answer::lemma_index(given, n);
            let i = schema::column_index(given, n)->Some_0;
            assert(given[i].name == pairs[i].1);
            assert(schema::column_index(columns, n) == rewrite::output_index(map, n));
        }
    }
    assert(holds_asked(given, columns, required)) by {
        match required {
            None => {
                assert forall|i: int| 0 <= i < map.len() implies #[trigger] given[i] == columns[i] by {
                    let k = rewrite::output_index(map, pairs[i].1)->Some_0;
                    assert(columns[k].name == columns[i].name);
                }
                assert(given =~= columns);
            },
            Some(r) => {
                assert forall|n: Seq<char>|
                    r.contains(n) && #[trigger] rewrite::has_column(columns, n) implies rewrite::has_column(
                    given,
                    n,
                ) by {
                    answer::lemma_index(columns, n);
                    let k = schema::column_index(columns, n)->Some_0;
                    assert(map[k].1 == n);
                    assert(pairs.contains(map[k]));
                    let i = choose|i: int| 0 <= i < pairs.len() && pairs[i] == map[k];
                    assert(given[i].name == n);
                    answer::lemma_has(given, i);
                }
            },
        }
    }
    let a = answer::answer(child, db);
    let (x, y) = (answer::answer(q, db), all_restricted(answer::answer(plan, db), given));
    assert forall|i: int| 0 <= i < a.len() implies #[trigger] x[i] == y[i] by {
        let u = answer::renamed(restricted(a[i], some), pairs);
        let v = restricted(answer::renamed(a[i], map), given);
        assert(x[i] == u && y[i] == v);
        assert forall|n: Seq<char>| #![auto] u.dom().contains(n) == v.dom().contains(n) by {
            assert(schema::column_index(given, n) == rewrite::output_index(pairs, n));
        }
        assert forall|n: Seq<char>| #![auto] u.dom().contains(n) implies u[n] == v[n] by {
            seqs::lemma_first_where(pairs, |pair: (Seq<char>, Seq<char>)| pair.1 == n);
            let k = rewrite::output_index(pairs, n)->Some_0;
            assert(pairs[k].1 == n);
            assert(rewrite::has_column(some, pairs[k].0));
        }
        assert(u =~= v);
    }
    assert(x =~= y);
}

proof fn lemma_pushed_filter(
    tests: Seq<Test>,
    child: Plan,
    required: Option<Set<Seq<char>>>,
    db: Database,
)
    requires
        answer::sound(Plan::Filter(tests, Box::new(child)), db.tables),
        answer::rows_fit(db),
        is_narrowing(child, pushdown::and_names(required, pushdown::test_names(tests)), db),
    ensures
        is_narrowing(Plan::Filter(tests, Box::new(child)), required, db),
{
    let plan = Plan::Filter(tests, Box::new(child));
    let asked = pushdown::and_names(required, pushdown::test_names(tests));
    let c = pushdown::pushed(child, asked, db.tables)->Ok_0;
    let q = Plan::Filter(tests, Box::new(c));
    let (all, some) = (answer::columns_of(child, db.tables), answer::columns_of(c, db.tables));
    assert forall|i: int| 0 <= i < tests.len() implies filter::test_within(#[trigger] tests[i], some) by {
        let t = tests[i];
        assert(filter::test_within(tests[i], all));
        assert(rewrite::has_column(all, t.column));
        assert(pushdown::names_column(tests[i], t.column));
        match t.value {
            Operand::Column(other) => {
                assert(rewrite::has_column(all, other));
                assert(pushdown::names_column(tests[i], other));
            },
            _ => {},
        }
    }
    assert(answer::sound(q, db.tables));
    let a = answer::answer(child, db);
    let f = |x: Record| restricted(x, some);
    assert forall|i: int| 0 <= i < a.len() implies answer::passes_all(f(#[trigger] a[i]), tests)
        == answer::passes_all(a[i], tests) by {
        let (u, v) = (f(a[i]), a[i]);
        assert forall|k: int| 0 <= k < tests.len() implies answer::passes(u, #[trigger] tests[k])
            == answer::passes(v, tests[k]) by {
            let t = tests[k];
            assert(filter::test_within(tests[k], some));
            assert(rewrite::has_column(some, t.column));
            match t.value {
                Operand::Column(other) => {
                    assert(rewrite::has_column(some, other));
                },
                _ => {},
            }
        }
        if answer::passes_all(v, tests) {
            assert forall|k: int| 0 <= k < tests.len() implies answer::passes(u, #[trigger] tests[k]) by {
                assert(answer::passes(v, tests[k]));
            }
        }
        if answer::passes_all(u, tests) {
            assert forall|k: int| 0 <= k < tests.len() implies answer::passes(v, #[trigger] tests[k]) by {
                assert(answer::passes(u, tests[k]));
            }
        }
    }
    answer::lemma_sift_changed(a, tests, f);
}

/// The columns of two narrowed inputs.
pub proof fn lemma_both_narrowed(
    ls: Seq<Column>,
    lc: Seq<Column>,
    rs: Seq<Column>,
    rc: Seq<Column>,
)
    requires
        answer::distinct(lc + rc),
        answer::distinct(ls),
        answer::distinct(rs),
        among(ls, lc),
        among(rs, rc),
    ensures
        answer::distinct(ls + rs),
        among(ls + rs, lc + rc),
{
    rewrite_laws::lemma_distinct_parts(lc, rc);
    let some = ls + rs;
    assert forall|i: int, j: int| 0 <= i < some.len() && 0 <= j < some.len() && i != j implies (
    #[trigger] some[i]).name != (#[trigger] some[j]).name by {
        if i < ls.len() && j >= ls.len() {
            answer::lemma_has(ls, i);
            answer::lemma_has(rs, j - ls.len());
            assert(rewrite::has_column(lc, ls[i].name));
        }
        if j < ls.len() && i >= ls.len() {
            answer::lemma_has(ls, j);
            answer::lemma_has(rs, i - ls.len());
            assert(rewrite::has_column(lc, ls[j].name));
        }
    }
    assert forall|n: Seq<char>| #[trigger] rewrite::has_column(some, n) implies rewrite::has_column(
        lc + rc,
        n,
    ) && some[schema::column_index(some, n)->Some_0].data_type == (lc + rc)[schema::column_index(
        lc + rc,
        n,
    )->Some_0].data_type by {
        answer::lemma_index_append(ls, rs, n);
        answer::lemma_index_append(lc, rc, n);
        answer::lemma_index(ls, n);
        answer::lemma_index(rs, n);
        answer::lemma_index(lc, n);
        answer::lemma_index(rc, n);
        if rewrite::has_column(ls, n) {
            assert(rewrite::has_column(lc, n));
        } else {
            assert(rewrite::has_column(rs, n));
            assert(rewrite::has_column(rc, n));
            assert(!rewrite::has_column(lc, n));
        }
    }
}

/// A pair of narrowed records is a narrowed pair.
proof fn lemma_both_restricted(
    a: Record,
    b: Record,
    ls: Seq<Column>,
    lc: Seq<Column>,
    rs: Seq<Column>,
    rc: Seq<Column>,
)
    requires
        answer::distinct(lc + rc),
        among(ls, lc),
        among(rs, rc),
        rewrite_laws::has_names(a, lc),
        rewrite_laws::has_names(b, rc),
    ensures
        answer::both(restricted(a, ls), restricted(b, rs)) == restricted(
            answer::both(a, b),
            ls + rs,
        ),
{
    rewrite_laws::lemma_distinct_parts(lc, rc);
    let u = answer::both(restricted(a, ls), restricted(b, rs));
    let v = restricted(answer::both(a, b), ls + rs);
    assert forall|n: Seq<char>| #![auto] u.dom().contains(n) == v.dom().contains(n) by {
        answer::lemma_index_append(ls, rs, n);
    }
    assert forall|n: Seq<char>| #![auto] u.dom().contains(n) implies u[n] == v[n] by {
        answer::lemma_index_append(ls, rs, n);
        if rewrite::has_column(ls, n) {
            assert(rewrite::has_column(lc, n));
            assert(a.dom().contains(n));
        } else {
            assert(rewrite::has_column(rs, n));
            assert(rewrite::has_column(rc, n));
            assert(!rewrite::has_column(lc, n));
            assert(!a.dom().contains(n));
            assert(b.dom().contains(n));
        }
    }
    assert(u =~= v);
}

/// What is asked of two inputs is there where it is asked of each.
proof fn lemma_both_asked(
    l: Plan,
    r: Plan,
    ls: Seq<Column>,
    rs: Seq<Column>,
    required: Option<Set<Seq<char>>>,
    left: Option<Set<Seq<char>>>,
    right: Option<Set<Seq<char>>>,
    tables: Seq<Table>,
)
    requires
        schema::plan_schema(l, tables) is Ok,
        schema::plan_schema(r, tables) is Ok,
        pushdown::names_for_inputs(l, r, required, tables) matches Ok(asked) && (required is None
            ==> left is None && right is None) && (required is Some ==> left is Some && right is Some
            && asked.0->Some_0.subset_of(left->Some_0) && asked.1->Some_0.subset_of(right->Some_0)),
        holds_asked(ls, answer::columns_of(l, tables), left),
        holds_asked(rs, answer::columns_of(r, tables), right),
    ensures
        holds_asked(
            ls + rs,
            answer::columns_of(l, tables) + answer::columns_of(r, tables),
            required,
        ),
{
    let (lc, rc) = (answer::columns_of(l, tables), answer::columns_of(r, tables));
    match required {
        None => {},
        Some(s) => {
            let asked = pushdown::names_for_inputs(l, r, required, tables)->Ok_0;
            assert forall|n: Seq<char>|
                s.contains(n) && #[trigger] rewrite::has_column(lc + rc, n) implies rewrite::has_column(
                ls + rs,
                n,
            ) by {
                answer::lemma_index_append(lc, rc, n);
                answer::lemma_index_append(ls, rs, n);
                if rewrite::has_column(lc, n) {
                    assert(asked.0->Some_0.contains(n));
                } else {
                    assert(rewrite::has_column(rc, n));
                    assert(asked.1->Some_0.contains(n));
                }
            }
        },
    }
}

proof fn lemma_pushed_pairs(
    l: Plan,
    r: Plan,
    l2: Plan,
    r2: Plan,
    p: spec_fn(Record, Record) -> bool,
    db: Database,
)
    requires
        answer::sound(l, db.tables),
        answer::sound(r, db.tables),
        answer::rows_fit(db),
        answer::distinct(answer::columns_of(l, db.tables) + answer::columns_of(r, db.tables)),
        among(answer::columns_of(l2, db.tables), answer::columns_of(l, db.tables)),
        among(answer::columns_of(r2, db.tables), answer::columns_of(r, db.tables)),
        answer::answer(l2, db) == all_restricted(
            answer::answer(l, db),
            answer::columns_of(l2, db.tables),
        ),
        answer::answer(r2, db) == all_restricted(
            answer::answer(r, db),
            answer::columns_of(r2, db.tables),
        ),
        forall|a: Record, b: Record|
            #![trigger p(a, b)]
            p(
                restricted(a, answer::columns_of(l2, db.tables)),
                restricted(b, answer::columns_of(r2, db.tables)),
            ) == p(a, b),
    ensures
        answer::pairs_if(answer::answer(l2, db), answer::answer(r2, db), p) == all_restricted(
            answer::pairs_if(answer::answer(l, db), answer::answer(r, db), p),
            answer::columns_of(l2, db.tables) + answer::columns_of(r2, db.tables),
        ),
{
    let (lc, rc) = (answer::columns_of(l, db.tables), answer::columns_of(r, db.tables));
    let (ls, rs) = (answer::columns_of(l2, db.tables), answer::columns_of(r2, db.tables));
    let (a, b) = (answer::answer(l, db), answer::answer(r, db));
    let f = |x: Record| restricted(x, ls);
    let g = |x: Record| restricted(x, rs);
    let h = |x: Record| restricted(x, ls + rs);
    answer::lemma_named(l, db);
    answer::lemma_named(r, db);
    assert forall|i: int, j: int| 0 <= i < a.len() && 0 <= j < b.len() implies p(
        f(#[trigger] a[i]),
        g(#[trigger] b[j]),
    ) == p(a[i], b[j]) && answer::both(f(a[i]), g(b[j])) == h(answer::both(a[i], b[j])) by {
        lemma_both_restricted(a[i], b[j], ls, lc, rs, rc);
        assert(p(a[i], b[j]) == p(a[i], b[j]));
    }
    answer::lemma_pairs_of_changed(a, b, p, f, g, p, h);
}

/// Narrowing succeeds, and the records keep what is asked for.
pub proof fn narrowing_keeps_what_is_asked_for(
    plan: Plan,
    required: Option<Set<Seq<char>>>,
    db: Database,
)
    requires
        answer::sound(plan, db.tables),
        answer::rows_fit(db),
    ensures
        is_narrowing(plan, required, db),
    decreases plan,
{
    match plan {
        Plan::Scan(id) => match required {
            None => {
                answer::lemma_named(plan, db);
                lemma_restricted_whole(
                    answer::answer(plan, db),
                    answer::columns_of(plan, db.tables),
                );
            },
            Some(r) => {
                lemma_narrowed(id, r, db);
            },
        },
        Plan::Project(map, child) => {
            let asked = pushdown::source_names(pushdown::asked_pairs(map, required));
            narrowing_keeps_what_is_asked_for(*child, Some(asked), db);
            lemma_pushed_project(map, *child, required, db);
        },
        Plan::Filter(tests, child) => {
            narrowing_keeps_what_is_asked_for(
                *child,
                pushdown::and_names(required, pushdown::test_names(tests)),
                db,
            );
            lemma_pushed_filter(tests, *child, required, db);
        },
        Plan::Sort(keys, child) => {
            narrowing_keeps_what_is_asked_for(
                *child,
                pushdown::and_names(required, pushdown::key_names(keys)),
                db,
            );
        },
        Plan::Cross(l, r) => {
            let asked = pushdown::names_for_inputs(*l, *r, required, db.tables)->Ok_0;
            narrowing_keeps_what_is_asked_for(*l, asked.0, db);
            narrowing_keeps_what_is_asked_for(*r, asked.1, db);
            let l2 = pushdown::pushed(*l, asked.0, db.tables)->Ok_0;
            let r2 = pushdown::pushed(*r, asked.1, db.tables)->Ok_0;
            let (lc, rc) = (answer::columns_of(*l, db.tables), answer::columns_of(*r, db.tables));
            let (ls, rs) = (answer::columns_of(l2, db.tables), answer::columns_of(r2, db.tables));
            lemma_both_narrowed(ls, lc, rs, rc);
            lemma_both_asked(*l, *r, ls, rs, required, asked.0, asked.1, db.tables);
            lemma_pushed_pairs(*l, *r, l2, r2, |a: Record, b: Record| true, db);
        },
        Plan::HashJoin(l, r, x, y) => {
            let asked = pushdown::names_for_inputs(*l, *r, required, db.tables)->Ok_0;
            let left = pushdown::and_names(asked.0, Set::empty().insert(x));
            let right = pushdown::and_names(asked.1, Set::empty().insert(y));
            narrowing_keeps_what_is_asked_for(*l, left, db);
            narrowing_keeps_what_is_asked_for(*r, right, db);
            let l2 = pushdown::pushed(*l, left, db.tables)->Ok_0;
            let r2 = pushdown::pushed(*r, right, db.tables)->Ok_0;
            let (lc, rc) = (answer::columns_of(*l, db.tables), answer::columns_of(*r, db.tables));
            let (ls, rs) = (answer::columns_of(l2, db.tables), answer::columns_of(r2, db.tables));
            lemma_both_narrowed(ls, lc, rs, rc);
            lemma_both_asked(*l, *r, ls, rs, required, left, right, db.tables);
            assert(rewrite::has_column(ls, x));
            assert(rewrite::has_column(rs, y));
            let p = |a: Record, b: Record| hash::same_key(b[y], a[x]);
            assert forall|a: Record, b: Record|
                #![trigger p(a, b)]
                p(restricted(a, ls), restricted(b, rs)) == p(a, b) by {}
            lemma_pushed_pairs(*l, *r, l2, r2, p, db);
        },
    }
}

/// Narrowing the scans of a plan succeeds, and keeps its columns and its answer.
pub proof fn narrowing_keeps_the_answer(plan: Plan, db: Database)
    requires
        answer::sound(plan, db.tables),
        answer::rows_fit(db),
    ensures
        pushdown::pushed(plan, None, db.tables) matches Ok(q) && answer::sound(q, db.tables)
            && schema::plan_schema(q, db.tables) == schema::plan_schema(plan, db.tables)
            && answer::answer(q, db) == answer::answer(plan, db),
{
    narrowing_keeps_what_is_asked_for(plan, None, db);
    answer::lemma_named(plan, db);
    lemma_restricted_whole(answer::answer(plan, db), answer::columns_of(plan, db.tables));
}

} // verus!
