//! What a hash join gives: every pair of a left and a right row with the same key.

use vstd::multiset::Multiset;
use vstd::prelude::*;

use crate::ops::hash;
use crate::ops::hash_join;
use crate::ops::joiner;
use crate::seqs;
use crate::value::Val;

verus! {

/// The pairs of left and right rows with the same key.
pub open spec fn equi_pairs(
    left: Seq<Seq<Val>>,
    left_key: int,
    right: Seq<Seq<Val>>,
    right_key: int,
) -> Seq<Seq<Val>> {
    joiner::probed(right, right_key, left, left_key, false)
}

/// The rows of a bucket.
pub open spec fn rows_of_bucket(rows: Seq<Seq<Val>>, key: int, b: int) -> Seq<Seq<Val>> {
    rows.filter(|r: Seq<Val>| hash_join::bucket_of(r[key]) == b)
}

// ---- buckets ----

/// All rows with a key are in the bucket of the key.
pub proof fn a_key_is_in_its_bucket(rows: Seq<Seq<Val>>, key: int, v: Val)
    ensures
        hash::matching(rows_of_bucket(rows, key, hash_join::bucket_of(v)), key, v)
            == hash::matching(rows, key, v),
    decreases rows.len(),
{
    reveal(Seq::filter);
    let b = hash_join::bucket_of(v);
    if rows.len() > 0 {
        let before = rows.drop_last();
        a_key_is_in_its_bucket(before, key, v);
        let r = rows.last();
        let some = rows_of_bucket(before, key, b);
        if hash_join::bucket_of(r[key]) == b {
            assert(some.push(r).drop_last() =~= some);
        }
    }
}

/// A key that the filter does not know is the key of none of the rows it was made of.
pub proof fn an_unknown_key_has_no_match(
    rows: Seq<Seq<Val>>,
    key: int,
    bloom: Set<int>,
    v: Val,
)
    requires
        forall|i: int|
            0 <= i < rows.len() ==> hash::bit_places(#[trigger] rows[i][key]).subset_of(bloom),
        !hash::bit_places(v).subset_of(bloom),
    ensures
        hash::matching(rows, key, v) == Seq::<Seq<Val>>::empty(),
    decreases rows.len(),
{
    reveal(Seq::filter);
    if rows.len() > 0 {
        let before = rows.drop_last();
        assert forall|i: int| 0 <= i < before.len() implies hash::bit_places(
            #[trigger] before[i][key],
        ).subset_of(bloom) by {
            assert(before[i] == rows[i]);
        }
        an_unknown_key_has_no_match(before, key, bloom, v);
        assert(hash::bit_places(rows[rows.len() - 1][key]).subset_of(bloom));
    }
}

// ---- passes ----

proof fn lemma_paired_append(r: Seq<Val>, a: Seq<Seq<Val>>, b: Seq<Seq<Val>>, first: bool)
    ensures
        hash_join::paired(r, a + b, first) == hash_join::paired(r, a, first) + hash_join::paired(
            r,
            b,
            first,
        ),
{
    assert(hash_join::paired(r, a + b, first) =~= hash_join::paired(r, a, first)
        + hash_join::paired(r, b, first));
}

/// Matching rows in two parts gives the pairs of the one and then those of the other.
pub proof fn matching_in_parts_agrees(
    held: Seq<Seq<Val>>,
    held_key: int,
    a: Seq<Seq<Val>>,
    b: Seq<Seq<Val>>,
    key: int,
    left_is_build: bool,
)
    ensures
        joiner::probed(held, held_key, a + b, key, left_is_build) == joiner::probed(
            held,
            held_key,
            a,
            key,
            left_is_build,
        ) + joiner::probed(held, held_key, b, key, left_is_build),
    decreases b.len(),
{
    if b.len() == 0 {
        assert(a + b =~= a);
        assert(joiner::probed(held, held_key, a, key, left_is_build) + Seq::empty()
            =~= joiner::probed(held, held_key, a, key, left_is_build));
    } else {
        assert((a + b).drop_last() =~= a + b.drop_last());
        matching_in_parts_agrees(held, held_key, a, b.drop_last(), key, left_is_build);
        let x = joiner::probed(held, held_key, a, key, left_is_build);
        let y = joiner::probed(held, held_key, b.drop_last(), key, left_is_build);
        let z = hash_join::paired(
            b.last(),
            hash::matching(held, held_key, b.last()[key]),
            !left_is_build,
        );
        assert((x + y) + z =~= x + (y + z));
    }
}

/// Holding rows in two passes gives, in some order, the pairs of holding them at once.
pub proof fn holding_in_passes_agrees(
    a: Seq<Seq<Val>>,
    b: Seq<Seq<Val>>,
    held_key: int,
    rows: Seq<Seq<Val>>,
    key: int,
    left_is_build: bool,
)
    ensures
        joiner::probed(a + b, held_key, rows, key, left_is_build).to_multiset() == joiner::probed(
            a,
            held_key,
            rows,
            key,
            left_is_build,
        ).to_multiset().add(
            joiner::probed(b, held_key, rows, key, left_is_build).to_multiset(),
        ),
    decreases rows.len(),
{
    if rows.len() == 0 {
        seqs::lemma_empty_multiset::<Seq<Val>>();
        assert(Multiset::<Seq<Val>>::empty().add(Multiset::empty()) =~= Multiset::empty());
    } else {
        let before = rows.drop_last();
        let r = rows.last();
        holding_in_passes_agrees(a, b, held_key, before, key, left_is_build);
        let p = |x: Seq<Val>| hash::same_key(x[held_key], r[key]);
        Seq::filter_distributes_over_add(a, b, p);
        let (ma, mb) = (
            hash::matching(a, held_key, r[key]),
            hash::matching(b, held_key, r[key]),
        );
        lemma_paired_append(r, ma, mb, !left_is_build);
        let (xa, xb) = (
            joiner::probed(a, held_key, before, key, left_is_build),
            joiner::probed(b, held_key, before, key, left_is_build),
        );
        let xx = joiner::probed(a + b, held_key, before, key, left_is_build);
        let (ya, yb) = (
            hash_join::paired(r, ma, !left_is_build),
            hash_join::paired(r, mb, !left_is_build),
        );
        vstd::seq_lib::lemma_multiset_commutative(xx, ya + yb);
        vstd::seq_lib::lemma_multiset_commutative(ya, yb);
        vstd::seq_lib::lemma_multiset_commutative(xa, ya);
        vstd::seq_lib::lemma_multiset_commutative(xb, yb);
        assert(xx.to_multiset().add(ya.to_multiset().add(yb.to_multiset()))
            =~= xa.to_multiset().add(ya.to_multiset()).add(
            xb.to_multiset().add(yb.to_multiset()),
        ));
    }
}

// ---- sides ----

proof fn lemma_one_held(r: Seq<Val>, right_key: int, left: Seq<Seq<Val>>, left_key: int)
    ensures
        joiner::probed(seq![r], right_key, left, left_key, false) == hash_join::paired(
            r,
            hash::matching(left, left_key, r[right_key]),
            false,
        ),
    decreases left.len(),
{
    reveal(Seq::filter);
    if left.len() == 0 {
        assert(hash::matching(left, left_key, r[right_key]) =~= Seq::empty());
        assert(hash_join::paired(r, Seq::empty(), false) =~= Seq::empty());
    } else {
        let before = left.drop_last();
        let l = left.last();
        lemma_one_held(r, right_key, before, left_key);
        let m = hash::matching(before, left_key, r[right_key]);
        let one = hash::matching(seq![r], right_key, l[left_key]);
        assert(seq![r].drop_last() =~= Seq::<Seq<Val>>::empty());
        let p = |x: Seq<Val>| hash::same_key(x[right_key], l[left_key]);
        assert(seq![r].drop_last().filter(p) =~= Seq::empty());
        if hash::same_key(l[left_key], r[right_key]) {
            assert(one =~= seq![r]);
            assert(hash_join::paired(l, one, true) =~= seq![l + r]);
            assert(hash_join::paired(r, m.push(l), false) =~= hash_join::paired(r, m, false)
                + seq![l + r]);
        } else {
            assert(one =~= Seq::empty());
            assert(hash_join::paired(l, one, true) =~= Seq::empty());
            assert(hash_join::paired(r, m, false) + Seq::empty() =~= hash_join::paired(
                r,
                m,
                false,
            ));
        }
    }
}

/// Whichever side is held, the pairs are the same, in some order.
pub proof fn either_side_can_be_held(
    left: Seq<Seq<Val>>,
    left_key: int,
    right: Seq<Seq<Val>>,
    right_key: int,
)
    ensures
        joiner::probed(left, left_key, right, right_key, true).to_multiset() == equi_pairs(
            left,
            left_key,
            right,
            right_key,
        ).to_multiset(),
    decreases right.len(),
{
    if right.len() == 0 {
        lemma_nothing_held(left, left_key, right_key);
        assert(right =~= Seq::empty());
    } else {
        let before = right.drop_last();
        let r = right.last();
        either_side_can_be_held(left, left_key, before, right_key);
        holding_in_passes_agrees(before, seq![r], right_key, left, left_key, false);
        assert(before + seq![r] =~= right);
        lemma_one_held(r, right_key, left, left_key);
        let x = joiner::probed(left, left_key, before, right_key, true);
        let y = hash_join::paired(r, hash::matching(left, left_key, r[right_key]), false);
        vstd::seq_lib::lemma_multiset_commutative(x, y);
    }
}

proof fn lemma_nothing_held(left: Seq<Seq<Val>>, left_key: int, right_key: int)
    ensures
        joiner::probed(Seq::empty(), right_key, left, left_key, false) == Seq::<
            Seq<Val>,
        >::empty(),
    decreases left.len(),
{
    reveal(Seq::filter);
    if left.len() > 0 {
        lemma_nothing_held(left.drop_last(), left_key, right_key);
        let m = hash::matching(Seq::empty(), right_key, left.last()[left_key]);
        assert(m =~= Seq::empty());
        assert(hash_join::paired(left.last(), m, true) =~= Seq::empty());
        assert(Seq::<Seq<Val>>::empty() + Seq::empty() =~= Seq::<Seq<Val>>::empty());
    }
}

// ---- all buckets ----

/// The pairs of the first `n` buckets.
pub open spec fn bucket_pairs(
    left: Seq<Seq<Val>>,
    left_key: int,
    right: Seq<Seq<Val>>,
    right_key: int,
    n: nat,
) -> Multiset<Seq<Val>>
    decreases n,
{
    if n == 0 {
        Multiset::empty()
    } else {
        let b = n - 1;
        bucket_pairs(left, left_key, right, right_key, (n - 1) as nat).add(
            equi_pairs(
                rows_of_bucket(left, left_key, b),
                left_key,
                rows_of_bucket(right, right_key, b),
                right_key,
            ).to_multiset(),
        )
    }
}

proof fn lemma_no_left_pairs(
    left_key: int,
    right: Seq<Seq<Val>>,
    right_key: int,
    n: nat,
)
    ensures
        bucket_pairs(Seq::empty(), left_key, right, right_key, n) == Multiset::<Seq<Val>>::empty(),
    decreases n,
{
    reveal(Seq::filter);
    if n > 0 {
        lemma_no_left_pairs(left_key, right, right_key, (n - 1) as nat);
        let none = rows_of_bucket(Seq::empty(), left_key, n - 1);
        assert(none =~= Seq::empty());
        seqs::lemma_empty_multiset::<Seq<Val>>();
        assert(Multiset::<Seq<Val>>::empty().add(Multiset::empty()) =~= Multiset::empty());
    }
}

proof fn lemma_one_left_more(
    left: Seq<Seq<Val>>,
    l: Seq<Val>,
    left_key: int,
    right: Seq<Seq<Val>>,
    right_key: int,
    n: nat,
)
    ensures
        bucket_pairs(left.push(l), left_key, right, right_key, n) == if hash_join::bucket_of(
            l[left_key],
        ) < n {
            bucket_pairs(left, left_key, right, right_key, n).add(
                hash_join::paired(
                    l,
                    hash::matching(right, right_key, l[left_key]),
                    true,
                ).to_multiset(),
            )
        } else {
            bucket_pairs(left, left_key, right, right_key, n)
        },
    decreases n,
{
    reveal(Seq::filter);
    if n > 0 {
        lemma_one_left_more(left, l, left_key, right, right_key, (n - 1) as nat);
        let b = n - 1;
        let all = left.push(l);
        assert(all.drop_last() =~= left);
        let lb = rows_of_bucket(left, left_key, b);
        let rb = rows_of_bucket(right, right_key, b);
        if hash_join::bucket_of(l[left_key]) == b {
            assert(rows_of_bucket(all, left_key, b) == lb.push(l));
            assert(lb.push(l).drop_last() =~= lb);
            a_key_is_in_its_bucket(right, right_key, l[left_key]);
            let x = equi_pairs(lb, left_key, rb, right_key);
            let y = hash_join::paired(l, hash::matching(rb, right_key, l[left_key]), true);
            vstd::seq_lib::lemma_multiset_commutative(x, y);
            let before = bucket_pairs(left, left_key, right, right_key, (n - 1) as nat);
            assert(before.add(x.to_multiset().add(y.to_multiset())) =~= before.add(
                x.to_multiset(),
            ).add(y.to_multiset()));
        } else {
            assert(rows_of_bucket(all, left_key, b) == lb);
            if hash_join::bucket_of(l[left_key]) < b {
                let before = bucket_pairs(left, left_key, right, right_key, (n - 1) as nat);
                let x = equi_pairs(lb, left_key, rb, right_key).to_multiset();
                let y = hash_join::paired(
                    l,
                    hash::matching(right, right_key, l[left_key]),
                    true,
                ).to_multiset();
                assert(before.add(y).add(x) =~= before.add(x).add(y));
            }
        }
    }
}

/// The buckets together give, in some order, all pairs of rows with the same key.
pub proof fn buckets_give_all_pairs(
    left: Seq<Seq<Val>>,
    left_key: int,
    right: Seq<Seq<Val>>,
    right_key: int,
)
    ensures
        bucket_pairs(left, left_key, right, right_key, hash_join::NUM_BUCKETS as nat)
            == equi_pairs(left, left_key, right, right_key).to_multiset(),
    decreases left.len(),
{
    if left.len() == 0 {
        assert(left =~= Seq::empty());
        lemma_no_left_pairs(left_key, right, right_key, hash_join::NUM_BUCKETS as nat);
        seqs::lemma_empty_multiset::<Seq<Val>>();
    } else {
        let before = left.drop_last();
        let l = left.last();
        buckets_give_all_pairs(before, left_key, right, right_key);
        lemma_one_left_more(
            before,
            l,
            left_key,
            right,
            right_key,
            hash_join::NUM_BUCKETS as nat,
        );
        assert(before.push(l) =~= left);
        let x = equi_pairs(before, left_key, right, right_key);
        let y = hash_join::paired(l, hash::matching(right, right_key, l[left_key]), true);
        vstd::seq_lib::lemma_multiset_commutative(x, y);
    }
}

} // verus!
