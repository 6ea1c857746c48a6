//! Laws of the order of joins: where the tables can be joined on conditions alone, they are.

use vstd::prelude::*;

use crate::float;
use crate::optimizer::estimate::ONE;
use crate::optimizer::join_order::{Best, CROSS_PENALTY};
use crate::optimizer::join_order;
use crate::value::F64_INF;

verus! {

/// Whether the tables have at least one row each, by estimate.
pub open spec fn have_rows(cards: Seq<u64>) -> bool {
    forall|t: int| 0 <= t < cards.len() ==> ONE <= #[trigger] cards[t] <= F64_INF
}

/// Whether the chosen way to join a set of tables joins each with one before it on a
/// condition.
pub open spec fn all_connected(s: Set<int>, edges: Seq<Seq<bool>>, cards: Seq<u64>) -> bool
    decreases s.len(),
    when s.finite()
{
    let last = join_order::best(s, edges, cards).last;
    if s.len() <= 1 || !s.contains(last) {
        true
    } else {
        join_order::connected(s.remove(last), last, edges) && all_connected(
            s.remove(last),
            edges,
            cards,
        )
    }
}

/// The chosen way has a cost and gives rows.
proof fn lemma_best_is_positive(s: Set<int>, edges: Seq<Seq<bool>>, cards: Seq<u64>)
    requires
        join_order::some_tables(s, cards.len()),
        have_rows(cards),
    ensures
        ONE <= join_order::best(s, edges, cards).cost <= F64_INF,
        ONE <= join_order::best(s, edges, cards).card <= F64_INF,
    decreases s.len(),
{
    join_order::lemma_best(s, edges, cards);
    let t = join_order::best(s, edges, cards).last;
    assert(ONE <= cards[t] <= F64_INF);
    let rest = s.remove(t);
    if rest.len() > 0 {
        lemma_best_is_positive(rest, edges, cards);
        lemma_extended(join_order::best(rest, edges, cards), rest, t, edges, cards);
    }
}

/// One more table makes a way to join no cheaper. Without a condition it costs the penalty.
proof fn lemma_extended(b: Best, s: Set<int>, t: int, edges: Seq<Seq<bool>>, cards: Seq<u64>)
    requires
        ONE <= b.cost <= F64_INF,
        ONE <= b.card <= F64_INF,
        ONE <= cards[t] <= F64_INF,
    ensures
        b.cost <= join_order::extended(b, s, t, edges, cards).cost <= F64_INF,
        ONE <= join_order::extended(b, s, t, edges, cards).card <= F64_INF,
        !join_order::connected(s, t, edges) ==> CROSS_PENALTY <= join_order::extended(
            b,
            s,
            t,
            edges,
            cards,
        ).cost,
{
    if join_order::connected(s, t, edges) {
        let card = float::f64_greater(b.card, cards[t]);
        float::a_sum_is_not_less(b.cost, card);
    } else {
        let card = float::f64_product(b.card, cards[t]);
        float::a_product_is_not_less(b.card, cards[t]);
        float::a_sum_is_not_less(card, CROSS_PENALTY);
        float::a_sum_is_not_less(b.cost, float::f64_total(card, CROSS_PENALTY));
    }
}

/// A way that costs less than the penalty of one join without a condition has no such join.
pub proof fn a_cheap_order_joins_on_conditions(s: Set<int>, edges: Seq<Seq<bool>>, cards: Seq<u64>)
    requires
        join_order::some_tables(s, cards.len()),
        have_rows(cards),
        float::f64_less(join_order::best(s, edges, cards).cost, CROSS_PENALTY),
    ensures
        all_connected(s, edges, cards),
    decreases s.len(),
{
    join_order::lemma_best(s, edges, cards);
    let t = join_order::best(s, edges, cards).last;
    let rest = s.remove(t);
    assert(ONE <= cards[t] <= F64_INF);
    lemma_best_is_positive(s, edges, cards);
    if rest.len() > 0 {
        lemma_best_is_positive(rest, edges, cards);
        lemma_extended(join_order::best(rest, edges, cards), rest, t, edges, cards);
        a_cheap_order_joins_on_conditions(rest, edges, cards);
    }
}

// ---- the chosen way and others ----

/// A way to join tables in a given order.
pub open spec fn way(path: Seq<int>, edges: Seq<Seq<bool>>, cards: Seq<u64>) -> Best
    decreases path.len(),
{
    if path.len() <= 1 {
        Best { cost: cards[path[0]], card: cards[path[0]], last: path[0] }
    } else {
        join_order::extended(
            way(path.drop_last(), edges, cards),
            path.drop_last().to_set(),
            path.last(),
            edges,
            cards,
        )
    }
}

/// Whether each table of an order but the first has a join condition with one before it.
pub open spec fn on_conditions(path: Seq<int>, edges: Seq<Seq<bool>>) -> bool
    decreases path.len(),
{
    path.len() <= 1 || (join_order::connected(path.drop_last().to_set(), path.last(), edges)
        && on_conditions(path.drop_last(), edges))
}

/// Whether a number of rows is that of the largest table of a set.
spec fn is_largest(c: u64, s: Set<int>, cards: Seq<u64>) -> bool {
    (exists|t: int| s.contains(t) && #[trigger] cards[t] == c) && forall|t: int|
        s.contains(t) ==> #[trigger] cards[t] <= c
}

proof fn lemma_larger(c: u64, s: Set<int>, t: int, cards: Seq<u64>)
    requires
        is_largest(c, s.remove(t), cards),
        s.contains(t),
        ONE <= c <= F64_INF,
        ONE <= cards[t] <= F64_INF,
    ensures
        is_largest(float::f64_greater(c, cards[t]), s, cards),
{
    let rest = s.remove(t);
    let k = choose|k: int| rest.contains(k) && #[trigger] cards[k] == c;
    let d = float::f64_greater(c, cards[t]);
    if d == c {
        assert(s.contains(k) && cards[k] == d);
    } else {
        assert(s.contains(t) && cards[t] == d);
    }
    assert forall|x: int| s.contains(x) implies #[trigger] cards[x] <= d by {
        if x != t {
            assert(rest.contains(x));
        }
    }
}

/// A way on conditions alone gives as many rows as its largest table.
proof fn lemma_best_is_largest(s: Set<int>, edges: Seq<Seq<bool>>, cards: Seq<u64>)
    requires
        join_order::some_tables(s, cards.len()),
        have_rows(cards),
        all_connected(s, edges, cards),
    ensures
        is_largest(join_order::best(s, edges, cards).card, s, cards),
    decreases s.len(),
{
    join_order::lemma_best(s, edges, cards);
    let t = join_order::best(s, edges, cards).last;
    let rest = s.remove(t);
    assert(ONE <= cards[t] <= F64_INF);
    if rest.len() > 0 {
        lemma_best_is_largest(rest, edges, cards);
        lemma_best_is_positive(rest, edges, cards);
        lemma_larger(join_order::best(rest, edges, cards).card, s, t, cards);
    } else {
        assert(rest =~= Set::empty());
        assert forall|x: int| s.contains(x) implies #[trigger] cards[x] <= cards[t] by {
            if x != t {
                assert(rest.contains(x));
            }
        }
        assert(s.contains(t) && cards[t] == cards[t]);
    }
}

/// What a path holds before its last table.
proof fn lemma_path(path: Seq<int>)
    requires
        path.len() > 0,
        path.no_duplicates(),
    ensures
        path.to_set().finite(),
        path.to_set().len() == path.len(),
        path.to_set().contains(path.last()),
        path.drop_last().no_duplicates(),
        path.drop_last().to_set() == path.to_set().remove(path.last()),
{
    let before = path.drop_last();
    path.unique_seq_to_set();
    assert(path.contains(path.last()));
    assert forall|t: int| before.to_set().contains(t) == path.to_set().remove(path.last()).contains(t) by {
        if before.contains(t) {
            let i = choose|i: int| 0 <= i < before.len() && before[i] == t;
            assert(path[i] == t);
            assert(path[i] != path[path.len() - 1]);
        }
        if path.contains(t) && t != path.last() {
            let i = choose|i: int| 0 <= i < path.len() && path[i] == t;
            assert(before[i] == t);
        }
    }
    assert(before.to_set() =~= path.to_set().remove(path.last()));
}

proof fn lemma_way(path: Seq<int>, edges: Seq<Seq<bool>>, cards: Seq<u64>)
    requires
        path.len() > 0,
        path.no_duplicates(),
        forall|i: int| 0 <= i < path.len() ==> 0 <= #[trigger] path[i] < cards.len(),
        have_rows(cards),
    ensures
        ONE <= way(path, edges, cards).cost <= F64_INF,
        ONE <= way(path, edges, cards).card <= F64_INF,
        on_conditions(path, edges) ==> is_largest(
            way(path, edges, cards).card,
            path.to_set(),
            cards,
        ),
    decreases path.len(),
{
    lemma_path(path);
    let t = path.last();
    assert(0 <= path[path.len() - 1] < cards.len());
    assert(ONE <= cards[t] <= F64_INF);
    let before = path.drop_last();
    if path.len() > 1 {
        assert forall|i: int| 0 <= i < before.len() implies 0 <= #[trigger] before[i] < cards.len() by {
            assert(before[i] == path[i]);
        }
        lemma_way(before, edges, cards);
        lemma_extended(way(before, edges, cards), before.to_set(), t, edges, cards);
        if on_conditions(path, edges) {
            lemma_larger(way(before, edges, cards).card, path.to_set(), t, cards);
        }
    } else {
        assert forall|x: int| path.to_set().contains(x) implies #[trigger] cards[x] <= cards[t] by {
            let i = choose|i: int| 0 <= i < path.len() && path[i] == x;
        }
        assert(path.to_set().contains(t) && cards[t] == cards[t]);
    }
}

/// Where tables can be joined on conditions alone, and that costs less than the penalty of
/// one join without a condition, the chosen way joins them on conditions alone, and costs no
/// more.
pub proof fn tables_are_joined_on_conditions_where_they_can_be(
    path: Seq<int>,
    edges: Seq<Seq<bool>>,
    cards: Seq<u64>,
)
    requires
        path.len() > 0,
        path.no_duplicates(),
        forall|i: int| 0 <= i < path.len() ==> 0 <= #[trigger] path[i] < cards.len(),
        have_rows(cards),
        on_conditions(path, edges),
        float::f64_less(way(path, edges, cards).cost, CROSS_PENALTY),
    ensures
        all_connected(path.to_set(), edges, cards),
        !float::f64_less(
            way(path, edges, cards).cost,
            join_order::best(path.to_set(), edges, cards).cost,
        ),
    decreases path.len(),
{
    let s = path.to_set();
    let t = path.last();
    let before = path.drop_last();
    lemma_path(path);
    lemma_way(path, edges, cards);
    assert(0 <= path[path.len() - 1] < cards.len());
    assert(ONE <= cards[t] <= F64_INF);
    assert forall|x: int| s.contains(x) implies 0 <= x < cards.len() by {
        let i = choose|i: int| 0 <= i < path.len() && path[i] == x;
        assert(0 <= path[i] < cards.len());
    }
    assert(join_order::some_tables(s, cards.len()));
    lemma_best_is_positive(s, edges, cards);
    join_order::no_other_last_table_is_cheaper(s, t, edges, cards);
    if path.len() == 1 {
        assert(s.remove(t).len() == 0);
        assert(join_order::ending_with(s, t, edges, cards).cost == cards[t]);
    } else {
        assert forall|i: int| 0 <= i < before.len() implies 0 <= #[trigger] before[i] < cards.len() by {
            assert(before[i] == path[i]);
        }
        let rest = before.to_set();
        lemma_path(before);
        assert(join_order::some_tables(rest, cards.len()));
        lemma_way(before, edges, cards);
        lemma_extended(way(before, edges, cards), rest, t, edges, cards);
        tables_are_joined_on_conditions_where_they_can_be(before, edges, cards);
        lemma_best_is_positive(rest, edges, cards);
        lemma_best_is_largest(rest, edges, cards);
        let (b, w) = (join_order::best(rest, edges, cards), way(before, edges, cards));
        assert(b.card == w.card) by {
            let x = choose|x: int| rest.contains(x) && #[trigger] cards[x] == b.card;
            let y = choose|y: int| rest.contains(y) && #[trigger] cards[y] == w.card;
            assert(cards[x] <= w.card);
            assert(cards[y] <= b.card);
        }
        let card = float::f64_greater(b.card, cards[t]);
        assert(b.cost <= w.cost);
        float::sums_keep_the_order(b.cost, w.cost, card);
        assert(join_order::ending_with(s, t, edges, cards) == join_order::extended(
            b,
            rest,
            t,
            edges,
            cards,
        ));
        lemma_extended(b, rest, t, edges, cards);
    }
    a_cheap_order_joins_on_conditions(s, edges, cards);
}

} // verus!
