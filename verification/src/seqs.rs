//! Sequences: the first element with a property, and what they hold.

use vstd::multiset::Multiset;
use vstd::prelude::*;

verus! {

/// The position of the first element of `s` that satisfies `p`.
pub open spec fn first_where<A>(s: Seq<A>, p: spec_fn(A) -> bool) -> Option<int>
    decreases s.len(),
{
    if s.len() == 0 {
        None
    } else if p(s[0]) {
        Some(0)
    } else {
        match first_where(s.drop_first(), p) {
            Some(i) => Some(i + 1),
            None => None,
        }
    }
}

/// What [`first_where`] finds satisfies `p`, and nothing before it does.
pub proof fn lemma_first_where<A>(s: Seq<A>, p: spec_fn(A) -> bool)
    ensures
        match first_where(s, p) {
            Some(i) => 0 <= i < s.len() && p(s[i]) && forall|j: int| 0 <= j < i ==> !p(#[trigger] s[j]),
            None => forall|j: int| 0 <= j < s.len() ==> !p(#[trigger] s[j]),
        },
    decreases s.len(),
{
    if s.len() > 0 && !p(s[0]) {
        let t = s.drop_first();
        lemma_first_where(t, p);
        match first_where(t, p) {
            Some(i) => {
                assert(t[i] == s[i + 1]);
                assert forall|j: int| 0 <= j < i + 1 implies !p(#[trigger] s[j]) by {
                    if j > 0 {
                        assert(t[j - 1] == s[j]);
                    }
                }
            },
            None => {
                assert forall|j: int| 0 <= j < s.len() implies !p(#[trigger] s[j]) by {
                    if j > 0 {
                        assert(t[j - 1] == s[j]);
                    }
                }
            },
        }
    }
}

/// An element that satisfies `p`, with none before it that does, is what
/// [`first_where`] finds.
pub proof fn lemma_first_where_is<A>(s: Seq<A>, p: spec_fn(A) -> bool, i: int)
    requires
        0 <= i < s.len(),
        p(s[i]),
        forall|j: int| 0 <= j < i ==> !p(#[trigger] s[j]),
    ensures
        first_where(s, p) == Some(i),
{
    lemma_first_where(s, p);
    match first_where(s, p) {
        Some(k) => {
            if k < i {
                assert(!p(s[k]));
            }
            if i < k {
                assert(!p(s[i]));
            }
        },
        None => {
            assert(!p(s[i]));
        },
    }
}

/// Where no element satisfies `p`, [`first_where`] finds nothing.
pub proof fn lemma_first_where_none<A>(s: Seq<A>, p: spec_fn(A) -> bool)
    requires
        forall|j: int| 0 <= j < s.len() ==> !p(#[trigger] s[j]),
    ensures
        first_where(s, p) is None,
{
    lemma_first_where(s, p);
}

/// A sequence of nothing holds nothing.
pub proof fn lemma_empty_multiset<A>()
    ensures
        Seq::<A>::empty().to_multiset() == Multiset::<A>::empty(),
{
    let s = Seq::<A>::empty();
    s.to_multiset_ensures();
    assert(s.to_multiset() =~= Multiset::<A>::empty());
}

// ---- what the elements give, one behind the other ----

/// What each element gives, one behind the other.
pub open spec fn flat<A, B>(s: Seq<A>, f: spec_fn(A) -> Seq<B>) -> Seq<B>
    decreases s.len(),
{
    if s.len() == 0 {
        Seq::empty()
    } else {
        flat(s.drop_last(), f) + f(s.last())
    }
}

/// An element, where a condition holds.
pub open spec fn one_if<A>(condition: bool, a: A) -> Seq<A> {
    if condition {
        seq![a]
    } else {
        Seq::empty()
    }
}

/// What gives the same on each element, gives the same in all.
pub proof fn lemma_flat_same<A, B>(s: Seq<A>, f: spec_fn(A) -> Seq<B>, g: spec_fn(A) -> Seq<B>)
    requires
        forall|i: int| 0 <= i < s.len() ==> f(#[trigger] s[i]) == g(s[i]),
    ensures
        flat(s, f) == flat(s, g),
    decreases s.len(),
{
    if s.len() > 0 {
        let t = s.drop_last();
        assert forall|i: int| 0 <= i < t.len() implies f(#[trigger] t[i]) == g(t[i]) by {
            assert(t[i] == s[i]);
        }
        lemma_flat_same(t, f, g);
        assert(f(s[s.len() - 1]) == g(s[s.len() - 1]));
    }
}

/// Where no element gives anything, nothing comes.
pub proof fn lemma_flat_nothing<A, B>(s: Seq<A>, f: spec_fn(A) -> Seq<B>)
    requires
        forall|i: int| 0 <= i < s.len() ==> f(#[trigger] s[i]) == Seq::<B>::empty(),
    ensures
        flat(s, f) == Seq::<B>::empty(),
    decreases s.len(),
{
    if s.len() > 0 {
        let t = s.drop_last();
        assert forall|i: int| 0 <= i < t.len() implies f(#[trigger] t[i]) == Seq::<B>::empty() by {
            assert(t[i] == s[i]);
        }
        lemma_flat_nothing(t, f);
        assert(f(s[s.len() - 1]) == Seq::<B>::empty());
        assert(flat(s, f) =~= Seq::<B>::empty());
    }
}

/// What two sequences give, one behind the other.
pub proof fn lemma_flat_append<A, B>(s: Seq<A>, t: Seq<A>, f: spec_fn(A) -> Seq<B>)
    ensures
        flat(s + t, f) == flat(s, f) + flat(t, f),
    decreases t.len(),
{
    if t.len() == 0 {
        assert(s + t =~= s);
        assert(flat(s, f) + flat(t, f) =~= flat(s, f));
    } else {
        assert((s + t).drop_last() =~= s + t.drop_last());
        assert((s + t).last() == t.last());
        lemma_flat_append(s, t.drop_last(), f);
        assert(flat(s, f) + (flat(t.drop_last(), f) + f(t.last())) =~= (flat(s, f) + flat(
            t.drop_last(),
            f,
        )) + f(t.last()));
    }
}

/// What one element gives.
pub proof fn lemma_flat_one<A, B>(a: A, f: spec_fn(A) -> Seq<B>)
    ensures
        flat(seq![a], f) == f(a),
        flat(Seq::<A>::empty(), f) == Seq::<B>::empty(),
{
    assert(seq![a].drop_last() =~= Seq::<A>::empty());
    assert(flat(seq![a].drop_last(), f) =~= Seq::<B>::empty());
    assert(Seq::<B>::empty() + f(a) =~= f(a));
}

/// What is given in two steps, given in one.
pub proof fn lemma_flat_flat<A, B, C>(
    s: Seq<A>,
    f: spec_fn(A) -> Seq<B>,
    g: spec_fn(B) -> Seq<C>,
    h: spec_fn(A) -> Seq<C>,
)
    requires
        forall|i: int| 0 <= i < s.len() ==> flat(f(#[trigger] s[i]), g) == h(s[i]),
    ensures
        flat(flat(s, f), g) == flat(s, h),
    decreases s.len(),
{
    if s.len() > 0 {
        let t = s.drop_last();
        assert forall|i: int| 0 <= i < t.len() implies flat(f(#[trigger] t[i]), g) == h(t[i]) by {
            assert(t[i] == s[i]);
        }
        lemma_flat_flat(t, f, g, h);
        lemma_flat_append(flat(t, f), f(s.last()), g);
        assert(flat(f(s[s.len() - 1]), g) == h(s[s.len() - 1]));
    }
}

/// Elements that are each changed.
pub proof fn lemma_flat_map<A, B>(s: Seq<A>, f: spec_fn(A) -> Seq<B>, g: spec_fn(A) -> B)
    requires
        forall|i: int| 0 <= i < s.len() ==> f(#[trigger] s[i]) == seq![g(s[i])],
    ensures
        flat(s, f) == s.map_values(g),
    decreases s.len(),
{
    if s.len() > 0 {
        let t = s.drop_last();
        assert forall|i: int| 0 <= i < t.len() implies f(#[trigger] t[i]) == seq![g(t[i])] by {
            assert(t[i] == s[i]);
        }
        lemma_flat_map(t, f, g);
        assert(f(s[s.len() - 1]) == seq![g(s[s.len() - 1])]);
        assert(flat(s, f) =~= s.map_values(g));
    } else {
        assert(flat(s, f) =~= s.map_values(g));
    }
}

/// Where each element comes from.
pub proof fn lemma_flat_source<A, B>(s: Seq<A>, f: spec_fn(A) -> Seq<B>, b: B)
    requires
        flat(s, f).contains(b),
    ensures
        exists|i: int| 0 <= i < s.len() && f(#[trigger] s[i]).contains(b),
    decreases s.len(),
{
    if s.len() > 0 {
        let t = s.drop_last();
        let k = choose|k: int| 0 <= k < flat(s, f).len() && flat(s, f)[k] == b;
        if k < flat(t, f).len() {
            assert(flat(t, f)[k] == b);
            lemma_flat_source(t, f, b);
            let i = choose|i: int| 0 <= i < t.len() && f(#[trigger] t[i]).contains(b);
            assert(f(s[i]).contains(b));
        } else {
            assert(f(s.last())[k - flat(t, f).len()] == b);
            assert(f(s[s.len() - 1]).contains(b));
        }
    }
}

// ---- up to their order ----

/// Two sequences that hold the same elements.
pub open spec fn same_bag<A>(s: Seq<A>, t: Seq<A>) -> bool {
    s.to_multiset() == t.to_multiset()
}

/// What stands one behind the other, and what each part holds.
pub proof fn lemma_bag_append<A>(s: Seq<A>, t: Seq<A>, u: Seq<A>, v: Seq<A>)
    requires
        same_bag(s, u),
        same_bag(t, v),
    ensures
        same_bag(s + t, u + v),
        same_bag(s + t, v + u),
{
    vstd::seq_lib::lemma_multiset_commutative(s, t);
    vstd::seq_lib::lemma_multiset_commutative(u, v);
    vstd::seq_lib::lemma_multiset_commutative(v, u);
    assert(s.to_multiset().add(t.to_multiset()) =~= v.to_multiset().add(u.to_multiset()));
}

/// An element taken out of its place and put to the end.
pub proof fn lemma_bag_last<A>(s: Seq<A>, i: int)
    requires
        0 <= i < s.len(),
    ensures
        same_bag(s, s.remove(i).push(s[i])),
{
    let (a, b) = (s.take(i), s.skip(i + 1));
    let x = seq![s[i]];
    assert(s =~= a + (x + b));
    assert(s.remove(i).push(s[i]) =~= a + (b + x));
    lemma_bag_append(x, b, x, b);
    lemma_bag_append(a, x + b, a, b + x);
}

/// A sequence that holds what another holds has its last element somewhere.
pub proof fn lemma_bag_place<A>(s: Seq<A>, t: Seq<A>) -> (i: int)
    requires
        s.len() > 0,
        same_bag(s, t),
    ensures
        0 <= i < t.len(),
        t[i] == s.last(),
        same_bag(s.drop_last(), t.remove(i)),
{
    s.to_multiset_ensures();
    t.to_multiset_ensures();
    let x = s.last();
    assert(s.contains(x));
    assert(s.to_multiset().count(x) > 0);
    assert(t.contains(x));
    let i = choose|i: int| 0 <= i < t.len() && t[i] == x;
    vstd::seq_lib::to_multiset_remove(t, i);
    vstd::seq_lib::to_multiset_remove(s, s.len() - 1);
    assert(s.remove(s.len() - 1) =~= s.drop_last());
    i
}

/// Sequences that hold the same give the same, up to its order.
pub proof fn lemma_flat_bag<A, B>(
    s: Seq<A>,
    t: Seq<A>,
    f: spec_fn(A) -> Seq<B>,
    g: spec_fn(A) -> Seq<B>,
)
    requires
        same_bag(s, t),
        forall|i: int| 0 <= i < s.len() ==> same_bag(f(#[trigger] s[i]), g(s[i])),
    ensures
        same_bag(flat(s, f), flat(t, g)),
    decreases s.len(),
{
    if s.len() == 0 {
        s.to_multiset_ensures();
        t.to_multiset_ensures();
        assert(t.len() == 0);
        assert(flat(s, f) =~= flat(t, g));
    } else {
        let i = lemma_bag_place(s, t);
        let (u, v) = (s.drop_last(), t.remove(i));
        assert forall|k: int| 0 <= k < u.len() implies same_bag(f(#[trigger] u[k]), g(u[k])) by {
            assert(u[k] == s[k]);
        }
        lemma_flat_bag(u, v, f, g);
        let x = s.last();
        assert(same_bag(f(s[s.len() - 1]), g(s[s.len() - 1])));
        let (a, b) = (t.take(i), t.skip(i + 1));
        assert(t =~= a + seq![x] + b);
        assert(v =~= a + b);
        lemma_flat_append(a + seq![x], b, g);
        lemma_flat_append(a, seq![x], g);
        lemma_flat_append(a, b, g);
        lemma_flat_one(x, g);
        let (fa, fb) = (flat(a, g), flat(b, g));
        lemma_bag_append(g(x), fb, g(x), fb);
        lemma_bag_append(fa, g(x) + fb, fa, fb + g(x));
        assert(fa + g(x) + fb =~= fa + (g(x) + fb));
        assert(fa + (fb + g(x)) =~= (fa + fb) + g(x));
        lemma_bag_append(flat(u, f), f(x), flat(v, g), g(x));
    }
}

/// What each element gives in two parts.
pub proof fn lemma_flat_sum<A, B>(
    s: Seq<A>,
    f: spec_fn(A) -> Seq<B>,
    g: spec_fn(A) -> Seq<B>,
    h: spec_fn(A) -> Seq<B>,
)
    requires
        forall|i: int| 0 <= i < s.len() ==> h(#[trigger] s[i]) == f(s[i]) + g(s[i]),
    ensures
        same_bag(flat(s, h), flat(s, f) + flat(s, g)),
    decreases s.len(),
{
    if s.len() == 0 {
        assert(flat(s, h) =~= flat(s, f) + flat(s, g));
    } else {
        let t = s.drop_last();
        assert forall|i: int| 0 <= i < t.len() implies h(#[trigger] t[i]) == f(t[i]) + g(t[i]) by {
            assert(t[i] == s[i]);
        }
        lemma_flat_sum(t, f, g, h);
        let x = s.last();
        assert(h(s[s.len() - 1]) == f(s[s.len() - 1]) + g(s[s.len() - 1]));
        let (a, b, c, d) = (flat(t, f), flat(t, g), f(x), g(x));
        lemma_bag_append(flat(t, h), c + d, a + b, c + d);
        lemma_bag_append(b, c, b, c);
        lemma_bag_append(b + c, d, c + b, d);
        lemma_bag_append(a, (b + c) + d, a, (c + b) + d);
        assert((a + b) + (c + d) =~= a + ((b + c) + d));
        assert(a + ((c + b) + d) =~= (a + c) + (b + d));
    }
}

/// Pairs, taken from the one side or from the other.
pub proof fn lemma_flat_swap<A, B, C>(
    s: Seq<A>,
    t: Seq<B>,
    h: spec_fn(A, B) -> Seq<C>,
)
    ensures
        same_bag(
            flat(s, |a: A| flat(t, |b: B| h(a, b))),
            flat(t, |b: B| flat(s, |a: A| h(a, b))),
        ),
    decreases s.len(),
{
    let rows = |a: A| flat(t, |b: B| h(a, b));
    let columns = |b: B| flat(s, |a: A| h(a, b));
    if s.len() == 0 {
        assert forall|i: int| 0 <= i < t.len() implies columns(#[trigger] t[i]) == Seq::<C>::empty() by {
            assert(columns(t[i]) =~= Seq::<C>::empty());
        }
        lemma_flat_nothing(t, columns);
        assert(flat(s, rows) =~= flat(t, columns));
    } else {
        let u = s.drop_last();
        let x = s.last();
        lemma_flat_swap(u, t, h);
        let shorter = |b: B| flat(u, |a: A| h(a, b));
        let one = |b: B| h(x, b);
        assert forall|i: int| 0 <= i < t.len() implies columns(#[trigger] t[i]) == shorter(t[i]) + one(
            t[i],
        ) by {
            let b = t[i];
            let at = |a: A| h(a, b);
            assert(columns(b) == flat(s, at));
            assert(shorter(b) == flat(u, at));
        }
        lemma_flat_sum(t, shorter, one, columns);
        assert(flat(s, rows) == flat(u, rows) + rows(x));
        assert(rows(x) == flat(t, one));
        lemma_bag_append(flat(u, rows), flat(t, one), flat(t, shorter), flat(t, one));
    }
}

/// Elements that are each changed in the same way.
pub proof fn lemma_map_bag<A, B>(s: Seq<A>, t: Seq<A>, f: spec_fn(A) -> B)
    requires
        same_bag(s, t),
    ensures
        same_bag(s.map_values(f), t.map_values(f)),
{
    let g = |a: A| seq![f(a)];
    lemma_flat_map(s, g, f);
    lemma_flat_map(t, g, f);
    lemma_flat_bag(s, t, g, g);
}

/// An order that takes each of `n` places once.
pub open spec fn is_arrangement(order: Seq<int>, n: nat) -> bool {
    order.len() == n && order.no_duplicates() && forall|i: int|
        0 <= i < n ==> 0 <= #[trigger] order[i] < n
}

/// An order that takes each place once takes every place.
pub proof fn lemma_arrangement_takes_all(order: Seq<int>, n: nat, k: int) -> (i: int)
    requires
        is_arrangement(order, n),
        0 <= k < n,
    ensures
        0 <= i < n,
        order[i] == k,
{
    let all = vstd::set_lib::set_int_range(0, n as int);
    vstd::set_lib::lemma_int_range(0, n as int);
    order.unique_seq_to_set();
    assert(order.to_set().subset_of(all)) by {
        assert forall|x: int| order.to_set().contains(x) implies all.contains(x) by {
            let i = choose|i: int| 0 <= i < order.len() && order[i] == x;
            assert(0 <= order[i] < n);
        }
    }
    vstd::set_lib::lemma_subset_equality(order.to_set(), all);
    assert(order.to_set().contains(k));
    choose|i: int| 0 <= i < order.len() && order[i] == k
}

/// Elements in another order are the same elements.
pub proof fn lemma_arranged_bag<A>(s: Seq<A>, order: Seq<int>)
    requires
        is_arrangement(order, s.len()),
    ensures
        same_bag(s, order.map_values(|i: int| s[i])),
    decreases s.len(),
{
    let t = order.map_values(|i: int| s[i]);
    if s.len() == 0 {
        assert(s =~= t);
    } else {
        let last = s.len() - 1;
        let k = lemma_arrangement_takes_all(order, s.len(), last);
        let rest = order.remove(k);
        let u = s.drop_last();
        assert(is_arrangement(rest, u.len())) by {
            assert forall|i: int| 0 <= i < u.len() implies 0 <= #[trigger] rest[i] < u.len() by {
                let j = if i < k {
                    i
                } else {
                    i + 1
                };
                assert(rest[i] == order[j]);
                assert(order[j] != order[k]);
            }
            assert forall|i: int, j: int| 0 <= i < rest.len() && 0 <= j < rest.len() && i != j implies rest[i]
                != rest[j] by {
                let x = if i < k {
                    i
                } else {
                    i + 1
                };
                let y = if j < k {
                    j
                } else {
                    j + 1
                };
                assert(rest[i] == order[x] && rest[j] == order[y]);
            }
        }
        lemma_arranged_bag(u, rest);
        assert(t.remove(k) =~= rest.map_values(|i: int| u[i]));
        lemma_bag_last(t, k);
        let x = seq![s[last]];
        lemma_bag_append(u, x, t.remove(k), x);
        assert(s =~= u + x);
        assert(t.remove(k).push(t[k]) =~= t.remove(k) + x);
    }
}

} // verus!
