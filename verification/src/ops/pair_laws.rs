//! Laws of pairs: which pairs of rows joins give.

use vstd::prelude::*;

use crate::ops::cross;
use crate::ops::hash;
use crate::ops::hash_join;
use crate::ops::join_laws;
use crate::schema::Column;
use crate::value::Val;

verus! {

/// Whether a row is the pair of two rows, the left one first.
pub open spec fn is_pair(
    p: Seq<Val>,
    left: Seq<Seq<Val>>,
    right: Seq<Seq<Val>>,
    i: int,
    j: int,
) -> bool {
    0 <= i < left.len() && 0 <= j < right.len() && p == left[i] + right[j]
}

proof fn lemma_in_push<A>(s: Seq<A>, a: A, x: A)
    ensures
        s.push(a).contains(x) <==> s.contains(x) || x == a,
{
    let t = s.push(a);
    if s.contains(x) {
        let i = choose|i: int| 0 <= i < s.len() && s[i] == x;
        assert(t[i] == x);
    }
    if x == a {
        assert(t[s.len() as int] == x);
    }
    if t.contains(x) {
        let i = choose|i: int| 0 <= i < t.len() && t[i] == x;
        if i < s.len() {
            assert(s[i] == x);
        }
    }
}

proof fn lemma_in_sum<A>(s: Seq<A>, t: Seq<A>, x: A)
    ensures
        (s + t).contains(x) <==> s.contains(x) || t.contains(x),
{
    let u = s + t;
    if s.contains(x) {
        let i = choose|i: int| 0 <= i < s.len() && s[i] == x;
        assert(u[i] == x);
    }
    if t.contains(x) {
        let i = choose|i: int| 0 <= i < t.len() && t[i] == x;
        assert(u[s.len() + i] == x);
    }
    if u.contains(x) {
        let i = choose|i: int| 0 <= i < u.len() && u[i] == x;
        if i < s.len() {
            assert(s[i] == x);
        } else {
            assert(t[i - s.len()] == x);
        }
    }
}

proof fn lemma_in_each(a: Seq<Val>, right: Seq<Seq<Val>>, columns: Seq<Column>, p: Seq<Val>)
    ensures
        cross::with_each(a, right, columns, None).1 is None,
        cross::with_each(a, right, columns, None).0.len() == right.len(),
        cross::with_each(a, right, columns, None).0.contains(p) <==> exists|j: int|
            0 <= j < right.len() && p == a + #[trigger] right[j],
    decreases right.len(),
{
    if right.len() > 0 {
        let before = right.drop_last();
        let n = right.len() - 1;
        lemma_in_each(a, before, columns, p);
        let some = cross::with_each(a, before, columns, None).0;
        lemma_in_push(some, a + right[n], p);
        assert(right.last() == right[n]);
        assert forall|j: int| 0 <= j < n implies #[trigger] before[j] == right[j] by {}
        if exists|j: int| 0 <= j < before.len() && p == a + #[trigger] before[j] {
            let j = choose|j: int| 0 <= j < before.len() && p == a + #[trigger] before[j];
            assert(p == a + right[j]);
        }
        if exists|j: int| 0 <= j < right.len() && p == a + #[trigger] right[j] {
            let j = choose|j: int| 0 <= j < right.len() && p == a + #[trigger] right[j];
            if j < n {
                assert(p == a + before[j]);
            }
        }
    }
}

/// A cross join without tests gives each pair of a left row and a right row, and nothing else:
/// as many pairs as the product of the numbers of rows.
pub proof fn a_cross_join_gives_all_pairs(
    left: Seq<Seq<Val>>,
    right: Seq<Seq<Val>>,
    columns: Seq<Column>,
    p: Seq<Val>,
)
    ensures
        cross::all_pairs(left, right, columns, None).1 is None,
        cross::all_pairs(left, right, columns, None).0.len() == left.len() * right.len(),
        cross::all_pairs(left, right, columns, None).0.contains(p) <==> exists|i: int, j: int|
            is_pair(p, left, right, i, j),
    decreases left.len(),
{
    if left.len() > 0 {
        let before = left.drop_last();
        let n = left.len() - 1;
        a_cross_join_gives_all_pairs(before, right, columns, p);
        lemma_in_each(left[n], right, columns, p);
        let some = cross::all_pairs(before, right, columns, None).0;
        let here = cross::with_each(left[n], right, columns, None).0;
        lemma_in_sum(some, here, p);
        assert(left.last() == left[n]);
        assert((n + 1) * right.len() == n * right.len() + right.len()) by (nonlinear_arith);
        if exists|i: int, j: int| is_pair(p, before, right, i, j) {
            let (i, j) = choose|i: int, j: int| is_pair(p, before, right, i, j);
            assert(is_pair(p, left, right, i, j));
        }
        if exists|j: int| 0 <= j < right.len() && p == left[n] + #[trigger] right[j] {
            let j = choose|j: int| 0 <= j < right.len() && p == left[n] + #[trigger] right[j];
            assert(is_pair(p, left, right, n, j));
        }
        if exists|i: int, j: int| is_pair(p, left, right, i, j) {
            let (i, j) = choose|i: int, j: int| is_pair(p, left, right, i, j);
            if i < n {
                assert(is_pair(p, before, right, i, j));
            } else {
                assert(p == left[n] + right[j]);
            }
        }
    } else {
        assert(0 * right.len() == 0);
    }
}

proof fn lemma_in_matching(rows: Seq<Seq<Val>>, col: int, key: Val, a: Seq<Val>, p: Seq<Val>)
    ensures
        hash_join::paired(a, hash::matching(rows, col, key), true).contains(p) <==> exists|j: int|
            0 <= j < rows.len() && p == a + #[trigger] rows[j] && hash::same_key(rows[j][col], key),
    decreases rows.len(),
{
    reveal(Seq::filter);
    let all = hash_join::paired(a, hash::matching(rows, col, key), true);
    if rows.len() > 0 {
        let before = rows.drop_last();
        let n = rows.len() - 1;
        let r = rows[n];
        lemma_in_matching(before, col, key, a, p);
        let some = hash_join::paired(a, hash::matching(before, col, key), true);
        assert(rows.last() == r);
        assert forall|j: int| 0 <= j < n implies #[trigger] before[j] == rows[j] by {}
        if hash::same_key(r[col], key) {
            assert(hash::matching(rows, col, key) == hash::matching(before, col, key).push(r));
            assert(all =~= some.push(a + r));
            lemma_in_push(some, a + r, p);
        } else {
            assert(hash::matching(rows, col, key) == hash::matching(before, col, key));
        }
        if exists|j: int|
            0 <= j < before.len() && p == a + #[trigger] before[j] && hash::same_key(before[j][col], key) {
            let j = choose|j: int|
                0 <= j < before.len() && p == a + #[trigger] before[j] && hash::same_key(
                    before[j][col],
                    key,
                );
            assert(p == a + rows[j] && hash::same_key(rows[j][col], key));
        }
        if exists|j: int|
            0 <= j < rows.len() && p == a + #[trigger] rows[j] && hash::same_key(rows[j][col], key) {
            let j = choose|j: int|
                0 <= j < rows.len() && p == a + #[trigger] rows[j] && hash::same_key(rows[j][col], key);
            if j < n {
                assert(p == a + before[j] && hash::same_key(before[j][col], key));
            }
        }
    }
}

/// A hash join gives each pair of a left row and a right row whose keys match, and nothing else.
pub proof fn a_hash_join_gives_the_pairs_whose_keys_match(
    left: Seq<Seq<Val>>,
    x: int,
    right: Seq<Seq<Val>>,
    y: int,
    p: Seq<Val>,
)
    ensures
        join_laws::equi_pairs(left, x, right, y).contains(p) <==> exists|i: int, j: int|
            #[trigger] is_pair(p, left, right, i, j) && hash::same_key(right[j][y], left[i][x]),
    decreases left.len(),
{
    if left.len() > 0 {
        let before = left.drop_last();
        let n = left.len() - 1;
        let a = left[n];
        a_hash_join_gives_the_pairs_whose_keys_match(before, x, right, y, p);
        lemma_in_matching(right, y, a[x], a, p);
        let some = join_laws::equi_pairs(before, x, right, y);
        let here = hash_join::paired(a, hash::matching(right, y, a[x]), true);
        assert(left.last() == a);
        assert(join_laws::equi_pairs(left, x, right, y) == some + here);
        lemma_in_sum(some, here, p);
        if exists|i: int, j: int|
            #[trigger] is_pair(p, before, right, i, j) && hash::same_key(right[j][y], before[i][x]) {
            let (i, j) = choose|i: int, j: int|
                #[trigger] is_pair(p, before, right, i, j) && hash::same_key(right[j][y], before[i][x]);
            assert(before[i] == left[i]);
            assert(is_pair(p, left, right, i, j));
        }
        if exists|j: int|
            0 <= j < right.len() && p == a + #[trigger] right[j] && hash::same_key(right[j][y], a[x]) {
            let j = choose|j: int|
                0 <= j < right.len() && p == a + #[trigger] right[j] && hash::same_key(right[j][y], a[x]);
            assert(is_pair(p, left, right, n, j));
        }
        if exists|i: int, j: int|
            #[trigger] is_pair(p, left, right, i, j) && hash::same_key(right[j][y], left[i][x]) {
            let (i, j) = choose|i: int, j: int|
                #[trigger] is_pair(p, left, right, i, j) && hash::same_key(right[j][y], left[i][x]);
            if i < n {
                assert(before[i] == left[i]);
                assert(is_pair(p, before, right, i, j));
            } else {
                assert(p == a + right[j]);
            }
        }
    }
}

} // verus!
