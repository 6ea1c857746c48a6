//! The order in which tables are joined: the cheapest, found by dynamic programming over
//! the sets of tables.

use vstd::prelude::*;
use vstd::set_lib::set_int_range;

use crate::float::{f64_add, f64_lt, f64_max, f64_mul};
use crate::float;
use crate::ops::rows;

verus! {

/// The binary64 pattern of 10 to the power of 15: what a join without a condition costs
/// above its rows.
pub const CROSS_PENALTY: u64 = 0x430c_6bf5_2634_0000;

/// The cheapest way to join a set of tables: its cost, the number of rows that it gives,
/// both binary64 patterns, and the table that is joined last.
pub struct Best {
    pub cost: u64,
    pub card: u64,
    pub last: int,
}

/// Whether a table has a join condition with one of a set.
pub open spec fn connected(s: Set<int>, t: int, edges: Seq<Seq<bool>>) -> bool {
    exists|k: int| s.contains(k) && #[trigger] edges[k][t]
}

/// A way to join a set of tables, and then one more: with a condition the join gives as
/// many rows as its larger input, without one it gives all pairs.
pub open spec fn extended(
    b: Best,
    s: Set<int>,
    t: int,
    edges: Seq<Seq<bool>>,
    cards: Seq<u64>,
) -> Best {
    if connected(s, t, edges) {
        let card = float::f64_greater(b.card, cards[t]);
        Best { cost: float::f64_total(b.cost, card), card, last: t }
    } else {
        let card = float::f64_product(b.card, cards[t]);
        Best {
            cost: float::f64_total(b.cost, float::f64_total(card, CROSS_PENALTY)),
            card,
            last: t,
        }
    }
}

/// The cheapest way to join a set of tables whose last table is `t`.
pub open spec fn ending_with(s: Set<int>, t: int, edges: Seq<Seq<bool>>, cards: Seq<u64>) -> Best
    decreases s.len(), 0nat,
    when s.finite() && s.contains(t)
{
    let rest = s.remove(t);
    if rest.len() == 0 {
        Best { cost: cards[t], card: cards[t], last: t }
    } else {
        extended(best(rest, edges, cards), rest, t, edges, cards)
    }
}

/// The cheapest way to join a set of tables, among those whose last table is `from` or a
/// later one. Among equal ones the later last table is taken.
pub open spec fn best_from(
    s: Set<int>,
    from: int,
    edges: Seq<Seq<bool>>,
    cards: Seq<u64>,
) -> Option<Best>
    decreases s.len(), cards.len() - from + 1,
    when s.finite() && from >= 0
{
    if from >= cards.len() {
        None
    } else {
        let later = best_from(s, from + 1, edges, cards);
        if s.contains(from) {
            let here = ending_with(s, from, edges, cards);
            match later {
                None => Some(here),
                Some(b) => if float::f64_less(here.cost, b.cost) {
                    Some(here)
                } else {
                    later
                },
            }
        } else {
            later
        }
    }
}

/// The cheapest way to join a set of tables.
pub open spec fn best(s: Set<int>, edges: Seq<Seq<bool>>, cards: Seq<u64>) -> Best
    decreases s.len(), cards.len() + 2,
    when s.finite()
{
    best_from(s, 0, edges, cards)->Some_0
}

/// The order in which the cheapest way joins a set of tables.
pub open spec fn order_of(s: Set<int>, edges: Seq<Seq<bool>>, cards: Seq<u64>) -> Seq<int>
    decreases s.len(),
    when s.finite()
{
    if s.len() == 0 || !s.contains(best(s, edges, cards).last) {
        Seq::empty()
    } else {
        let last = best(s, edges, cards).last;
        order_of(s.remove(last), edges, cards).push(last)
    }
}

/// The order in which all tables are joined.
pub open spec fn best_order(edges: Seq<Seq<bool>>, cards: Seq<u64>) -> Seq<int> {
    order_of(set_int_range(0, cards.len() as int), edges, cards)
}

/// Whether a set holds tables only, and at least one.
pub open spec fn some_tables(s: Set<int>, n: nat) -> bool {
    s.finite() && s.len() > 0 && forall|t: int| s.contains(t) ==> 0 <= t < n
}

/// The last table of the cheapest way is one of the set.
pub proof fn lemma_best_from(s: Set<int>, from: int, edges: Seq<Seq<bool>>, cards: Seq<u64>)
    requires
        s.finite(),
        0 <= from,
    ensures
        match best_from(s, from, edges, cards) {
            Some(b) => s.contains(b.last) && from <= b.last < cards.len() && b == ending_with(
                s,
                b.last,
                edges,
                cards,
            ),
            None => forall|t: int| from <= t < cards.len() ==> !s.contains(t),
        },
    decreases cards.len() - from,
{
    if from < cards.len() {
        lemma_best_from(s, from + 1, edges, cards);
        if s.contains(from) {
            assert(ending_with(s, from, edges, cards).last == from);
        }
    }
}

/// The cheapest way to join some tables ends with one of them.
pub proof fn lemma_best(s: Set<int>, edges: Seq<Seq<bool>>, cards: Seq<u64>)
    requires
        some_tables(s, cards.len()),
    ensures
        best_from(s, 0, edges, cards) == Some(best(s, edges, cards)),
        s.contains(best(s, edges, cards).last),
        best(s, edges, cards) == ending_with(s, best(s, edges, cards).last, edges, cards),
{
    lemma_best_from(s, 0, edges, cards);
    let t = s.choose();
    assert(s.contains(t));
}

// ---- sets as bits ----

/// The set whose members are the bits of a number.
spec fn members(mask: usize) -> Set<int> {
    Set::new(|t: int| 0 <= t < usize::BITS && mask & (1usize << (t as usize)) != 0)
}

proof fn lemma_members(mask: usize, t: usize)
    requires
        t < usize::BITS,
    ensures
        members(mask).contains(t as int) == (mask & (1usize << t) != 0),
        members(mask).finite(),
{
    vstd::set_lib::lemma_int_range(0, usize::BITS as int);
    assert(members(mask).subset_of(set_int_range(0, usize::BITS as int)));
}

proof fn lemma_without_bit(mask: usize, t: usize)
    requires
        t < usize::BITS,
        mask & (1usize << t) != 0,
    ensures
        (mask ^ (1usize << t)) < mask,
        members(mask ^ (1usize << t)) == members(mask).remove(t as int),
{
    assert((mask ^ (1usize << t)) < mask) by (bit_vector)
        requires
            t < usize::BITS,
            mask & (1usize << t) != 0,
    ;
    let rest = mask ^ (1usize << t);
    assert forall|i: int| members(rest).contains(i) == members(mask).remove(t as int).contains(i) by {
        if 0 <= i < usize::BITS {
            let k = i as usize;
            assert((((mask ^ (1usize << t)) & (1usize << k)) != 0) == ((mask & (1usize << k)) != 0
                && k != t)) by (bit_vector)
                requires
                    t < usize::BITS,
                    k < usize::BITS,
                    mask & (1usize << t) != 0,
            ;
        }
    }
    assert(members(rest) =~= members(mask).remove(t as int));
}

/// Where no bit below `n` is set, and none above can be, the number is zero.
proof fn lemma_no_bit(mask: usize, n: usize)
    requires
        n < usize::BITS,
        mask < (1usize << n),
        forall|t: int| 0 <= t < n ==> !members(mask).contains(t),
    ensures
        mask == 0,
    decreases n,
{
    if n == 0 {
        assert(1usize << 0usize == 1) by (bit_vector);
    } else {
        let t: usize = (n - 1) as usize;
        lemma_members(mask, t);
        assert(!members(mask).contains(t as int));
        assert(mask < (1usize << t)) by (bit_vector)
            requires
                0 < n < usize::BITS,
                t == n - 1,
                mask < (1usize << n),
                mask & (1usize << t) == 0,
        ;
        lemma_no_bit(mask, t);
    }
}

/// The members of a number below a power of two.
proof fn lemma_few_members(mask: usize, n: usize)
    requires
        n < usize::BITS,
        mask < (1usize << n),
    ensures
        members(mask).finite(),
        members(mask).len() == 0 <==> mask == 0,
        forall|t: int| members(mask).contains(t) ==> 0 <= t < n,
        mask != 0 ==> some_tables(members(mask), n as nat),
{
    lemma_members(mask, n);
    assert forall|i: int| members(mask).contains(i) implies 0 <= i < n by {
        let k = i as usize;
        if k >= n {
            assert(mask & (1usize << k) == 0) by (bit_vector)
                requires
                    n <= k < usize::BITS,
                    mask < (1usize << n),
            ;
        }
    }
    if mask == 0 {
        assert forall|i: int| !members(mask).contains(i) by {
            if 0 <= i < usize::BITS {
                let k = i as usize;
                assert(0usize & (1usize << k) == 0) by (bit_vector);
            }
        }
        assert(members(mask) =~= Set::empty());
    } else if members(mask).len() == 0 {
        assert(members(mask) =~= Set::empty());
        lemma_no_bit(mask, n);
    }
}

/// The members of the number whose low bits are all set.
proof fn lemma_all_members(full: usize, n: usize)
    requires
        n < usize::BITS,
        full == (1usize << n) - 1,
    ensures
        members(full) == set_int_range(0, n as int),
{
    assert forall|i: int| members(full).contains(i) == (0 <= i < n) by {
        if 0 <= i < usize::BITS {
            let k = i as usize;
            assert((full & (1usize << k) != 0) == (k < n)) by (bit_vector)
                requires
                    n < usize::BITS,
                    k < usize::BITS,
                    full == (1usize << n) - 1,
            ;
        }
    }
    assert(members(full) =~= set_int_range(0, n as int));
}

// ---- the search ----

/// Whether the edges are given for each pair of tables.
pub open spec fn is_square(edges: Seq<Seq<bool>>, n: nat) -> bool {
    edges.len() == n && forall|i: int| 0 <= i < n ==> (#[trigger] edges[i]).len() == n
}

/// Says whether a table has a join condition with a member of a set.
fn is_connected(mask: usize, t: usize, n: usize, edges: &Vec<Vec<bool>>) -> (res: bool)
    requires
        t < n < usize::BITS,
        mask < (1usize << n),
        is_square(edges.deep_view(), n as nat),
    ensures
        res == connected(members(mask), t as int, edges.deep_view()),
{
    let ghost e = edges.deep_view();
    proof {
        lemma_few_members(mask, n);
    }
    let mut k: usize = 0;
    while k < n
        invariant
            k <= n,
            t < n < usize::BITS,
            e == edges.deep_view(),
            is_square(e, n as nat),
            forall|j: int| 0 <= j < k && members(mask).contains(j) ==> !#[trigger] e[j][t as int],
        decreases n - k,
    {
        proof {
            lemma_members(mask, k);
            assert(e[k as int] == edges@[k as int].deep_view());
            assert(e[k as int].len() == n);
            assert(e[k as int][t as int] == edges@[k as int]@[t as int]);
        }
        if mask & (1usize << k) != 0 && edges[k][t] {
            assert(e[k as int][t as int]);
            return true;
        }
        k += 1;
    }
    false
}

fn extend(
    cost: u64,
    card: u64,
    mask: usize,
    t: usize,
    n: usize,
    edges: &Vec<Vec<bool>>,
    cards: &Vec<u64>,
) -> (res: (u64, u64, usize))
    requires
        t < n < usize::BITS,
        mask < (1usize << n),
        is_square(edges.deep_view(), n as nat),
        cards@.len() == n,
    ensures
        forall|last: int|
            #[trigger] as_best(res) == extended(
                Best { cost, card, last },
                members(mask),
                t as int,
                edges.deep_view(),
                cards@,
            ),
{
    if is_connected(mask, t, n, edges) {
        let rows: u64 = f64_max(card, cards[t]);
        (f64_add(cost, rows), rows, t)
    } else {
        let rows: u64 = f64_mul(card, cards[t]);
        (f64_add(cost, f64_add(rows, CROSS_PENALTY)), rows, t)
    }
}

spec fn as_best(entry: (u64, u64, usize)) -> Best {
    Best { cost: entry.0, card: entry.1, last: entry.2 as int }
}

/// Whether the entries up to a number hold the cheapest ways to join its members.
spec fn filled(
    table: Seq<(u64, u64, usize)>,
    upto: int,
    edges: Seq<Seq<bool>>,
    cards: Seq<u64>,
) -> bool {
    forall|m: usize|
        0 < m < upto ==> as_best(#[trigger] table[m as int]) == best(members(m), edges, cards)
}

/// Finds the cheapest way to join the members of a set, where that of each smaller set is
/// known.
fn find_best(mask: usize, n: usize, edges: &Vec<Vec<bool>>, cards: &Vec<u64>, table: &Vec<
    (u64, u64, usize),
>) -> (res: (u64, u64, usize))
    requires
        n < usize::BITS,
        0 < mask < (1usize << n),
        mask <= table@.len(),
        is_square(edges.deep_view(), n as nat),
        cards@.len() == n,
        filled(table@, mask as int, edges.deep_view(), cards@),
    ensures
        as_best(res) == best(members(mask), edges.deep_view(), cards@),
{
    let ghost (e, c, s) = (edges.deep_view(), cards@, members(mask));
    let mut found: Option<(u64, u64, usize)> = None;
    let mut t: usize = n;
    proof {
        lemma_few_members(mask, n);
    }
    while t > 0
        invariant
            t <= n,
            n < usize::BITS,
            0 < mask < (1usize << n),
            mask <= table@.len(),
            e == edges.deep_view(),
            c == cards@,
            s == members(mask),
            s.finite(),
            is_square(e, n as nat),
            c.len() == n,
            filled(table@, mask as int, e, c),
            match found {
                Some(b) => best_from(s, t as int, e, c) == Some(as_best(b)),
                None => best_from(s, t as int, e, c) is None,
            },
        decreases t,
    {
        t -= 1;
        proof {
            lemma_members(mask, t);
        }
        if mask & (1usize << t) != 0 {
            proof {
                lemma_without_bit(mask, t);
            }
            let rest: usize = mask ^ (1usize << t);
            proof {
                lemma_few_members(rest, n);
            }
            let here: (u64, u64, usize) = if rest == 0 {
                (cards[t], cards[t], t)
            } else {
                let before: (u64, u64, usize) = table[rest];
                proof {
                    assert(as_best(table@[rest as int]) == best(members(rest), e, c));
                }
                extend(before.0, before.1, rest, t, n, edges, cards)
            };
            assert(as_best(here) == ending_with(s, t as int, e, c));
            found = match found {
                None => Some(here),
                Some(b) => if f64_lt(here.0, b.0) {
                    Some(here)
                } else {
                    Some(b)
                },
            };
        }
    }
    proof {
        lemma_best(s, e, c);
    }
    match found {
        Some(b) => b,
        None => (0, 0, 0),
    }
}

/// Finds the order in which the tables are joined. `join_edges` says which pairs of tables
/// have a join condition, `effective_cards` the number of rows of each table.
pub fn find_best_join_order(n: usize, join_edges: &Vec<Vec<bool>>, effective_cards: &Vec<u64>) -> (res:
    Vec<usize>)
    requires
        n < usize::BITS,
        is_square(join_edges.deep_view(), n as nat),
        effective_cards@.len() == n,
    ensures
        rows::positions(res@) == best_order(join_edges.deep_view(), effective_cards@),
{
    let ghost (e, c) = (join_edges.deep_view(), effective_cards@);
    let size: usize = 1usize << n;
    assert(1usize << n >= 1) by (bit_vector)
        requires
            n < usize::BITS,
    ;
    let mut table: Vec<(u64, u64, usize)> = Vec::new();
    table.push((0, 0, 0));
    let mut mask: usize = 1;
    while mask < size
        invariant
            1 <= mask <= size,
            n < usize::BITS,
            size == 1usize << n,
            table@.len() == mask,
            e == join_edges.deep_view(),
            c == effective_cards@,
            is_square(e, n as nat),
            c.len() == n,
            filled(table@, mask as int, e, c),
        decreases size - mask,
    {
        let entry: (u64, u64, usize) = find_best(mask, n, join_edges, effective_cards, &table);
        table.push(entry);
        mask += 1;
    }
    let mut order: Vec<usize> = Vec::new();
    let mut left: usize = size - 1;
    let ghost full = left;
    proof {
        lemma_all_members(full, n);
    }
    assert(order_of(members(full), e, c) =~= order_of(members(left), e, c) + rows::positions(
        order@,
    ).reverse());
    while left != 0
        invariant
            left < size,
            n < usize::BITS,
            size == 1usize << n,
            table@.len() == size,
            c.len() == n,
            filled(table@, size as int, e, c),
            order_of(members(full), e, c) == order_of(members(left), e, c) + rows::positions(
                order@,
            ).reverse(),
        decreases left,
    {
        let last: usize = table[left].2;
        let ghost before = rows::positions(order@);
        proof {
            lemma_few_members(left, n);
            lemma_best(members(left), e, c);
            assert(as_best(table@[left as int]) == best(members(left), e, c));
            lemma_members(left, last);
            lemma_without_bit(left, last);
        }
        order.push(last);
        proof {
            let rest = order_of(members(left).remove(last as int), e, c);
            assert(rows::positions(order@) =~= before.push(last as int));
            assert(rest.push(last as int) + before.reverse() =~= rest + before.push(
                last as int,
            ).reverse());
        }
        left = left ^ (1usize << last);
    }
    proof {
        lemma_few_members(left, n);
        assert(order_of(members(left), e, c) =~= Seq::empty());
    }
    let turned = reverse(&order);
    assert(rows::positions(turned@) =~= rows::positions(order@).reverse());
    assert(best_order(e, c) =~= rows::positions(turned@));
    turned
}

fn reverse(v: &Vec<usize>) -> (res: Vec<usize>)
    ensures
        res@ == v@.reverse(),
{
    let mut out: Vec<usize> = Vec::new();
    let mut i: usize = v.len();
    while i > 0
        invariant
            i <= v@.len(),
            out@.len() == v@.len() - i,
            forall|j: int| 0 <= j < out@.len() ==> #[trigger] out@[j] == v@[v@.len() - 1 - j],
        decreases i,
    {
        i -= 1;
        out.push(v[i]);
    }
    assert(out@ =~= v@.reverse());
    out
}

// ---- laws ----

pub proof fn lemma_order_of(s: Set<int>, edges: Seq<Seq<bool>>, cards: Seq<u64>)
    requires
        s.finite(),
        forall|t: int| s.contains(t) ==> 0 <= t < cards.len(),
    ensures
        order_of(s, edges, cards).len() == s.len(),
        order_of(s, edges, cards).no_duplicates(),
        forall|t: int| order_of(s, edges, cards).contains(t) <==> s.contains(t),
    decreases s.len(),
{
    let order = order_of(s, edges, cards);
    if s.len() == 0 {
        assert(s =~= Set::empty());
        assert(order =~= Seq::empty());
    } else {
        lemma_best(s, edges, cards);
        let last = best(s, edges, cards).last;
        let rest = order_of(s.remove(last), edges, cards);
        lemma_order_of(s.remove(last), edges, cards);
        assert(order == rest.push(last));
        assert(!rest.contains(last));
        assert forall|t: int| order.contains(t) <==> s.contains(t) by {
            if order.contains(t) {
                let k = choose|k: int| 0 <= k < order.len() && order[k] == t;
                if k < rest.len() {
                    assert(rest[k] == t);
                    assert(rest.contains(t));
                }
            }
            if s.contains(t) {
                if t == last {
                    assert(order[rest.len() as int] == t);
                } else {
                    assert(rest.contains(t));
                    let k = choose|k: int| 0 <= k < rest.len() && rest[k] == t;
                    assert(order[k] == t);
                }
            }
        }
        assert forall|i: int, j: int| 0 <= i < order.len() && 0 <= j < order.len() && i != j implies order[i]
            != order[j] by {
            if i < rest.len() {
                assert(rest.contains(rest[i]));
            }
            if j < rest.len() {
                assert(rest.contains(rest[j]));
            }
        }
    }
}

/// The order takes each table once.
pub proof fn the_order_takes_each_table_once(edges: Seq<Seq<bool>>, cards: Seq<u64>)
    ensures
        best_order(edges, cards).len() == cards.len(),
        best_order(edges, cards).no_duplicates(),
        forall|t: int| best_order(edges, cards).contains(t) <==> 0 <= t < cards.len(),
{
    vstd::set_lib::lemma_int_range(0, cards.len() as int);
    let all = set_int_range(0, cards.len() as int);
    lemma_order_of(all, edges, cards);
    assert forall|t: int| best_order(edges, cards).contains(t) <==> 0 <= t < cards.len() by {
        assert(order_of(all, edges, cards).contains(t) <==> all.contains(t));
        assert(all.contains(t) <==> 0 <= t < cards.len());
    }
}

pub proof fn lemma_none_is_cheaper(
    s: Set<int>,
    from: int,
    t: int,
    edges: Seq<Seq<bool>>,
    cards: Seq<u64>,
)
    requires
        s.finite(),
        s.contains(t),
        0 <= from <= t < cards.len(),
    ensures
        best_from(s, from, edges, cards) is Some,
        !float::f64_less(
            ending_with(s, t, edges, cards).cost,
            best_from(s, from, edges, cards)->Some_0.cost,
        ),
    decreases cards.len() - from,
{
    lemma_best_from(s, from + 1, edges, cards);
    if from < t {
        lemma_none_is_cheaper(s, from + 1, t, edges, cards);
    }
}

/// No way to join a set of tables that ends with another table, and joins those before it
/// in their cheapest way, is cheaper.
pub proof fn no_other_last_table_is_cheaper(
    s: Set<int>,
    t: int,
    edges: Seq<Seq<bool>>,
    cards: Seq<u64>,
)
    requires
        some_tables(s, cards.len()),
        s.contains(t),
    ensures
        !float::f64_less(
            ending_with(s, t, edges, cards).cost,
            best(s, edges, cards).cost,
        ),
{
    lemma_best(s, edges, cards);
    lemma_none_is_cheaper(s, 0, t, edges, cards);
}

} // verus!
