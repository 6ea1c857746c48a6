//! Sorting: the order of rows by sort keys, and the sorting of a chunk of rows.

use vstd::prelude::*;

use crate::error::{DbError, Fault};
use crate::ops::rows;
use crate::query::{SortKey, SortSpec};
use crate::schema::{find_column, Column, ColumnInfo};
use crate::schema;
use crate::seqs;
use crate::value::{Data, Order, Val};
use crate::value;

verus! {

// ---- sort keys ----

/// For each sort key the position of its column and its direction, or the first
/// column that the input lacks.
pub open spec fn key_positions(columns: Seq<Column>, specs: Seq<SortKey>) -> Result<
    Seq<(int, bool)>,
    Fault,
>
    decreases specs.len(),
{
    if specs.len() == 0 {
        Ok(Seq::empty())
    } else {
        match key_positions(columns, specs.drop_last()) {
            Err(e) => Err(e),
            Ok(before) => match schema::column_index(columns, specs.last().column) {
                None => Err(Fault::SortColumn(specs.last().column)),
                Some(i) => Ok(before.push((i, specs.last().ascending))),
            },
        }
    }
}

/// Sort keys as positions and directions.
pub open spec fn keys_view(keys: Seq<(usize, bool)>) -> Seq<(int, bool)> {
    keys.map_values(|k: (usize, bool)| (k.0 as int, k.1))
}

/// Whether all sort keys lie within a width.
pub open spec fn keys_within(keys: Seq<(usize, bool)>, width: nat) -> bool {
    forall|i: int| 0 <= i < keys.len() ==> (#[trigger] keys[i]).0 < width
}

proof fn lemma_keys_fail(columns: Seq<Column>, specs: Seq<SortKey>, n: int)
    requires
        0 <= n <= specs.len(),
        key_positions(columns, specs.take(n)) is Err,
    ensures
        key_positions(columns, specs) == key_positions(columns, specs.take(n)),
    decreases specs.len() - n,
{
    if n == specs.len() {
        assert(specs.take(n) =~= specs);
    } else {
        assert(specs.take(n + 1).drop_last() =~= specs.take(n));
        lemma_keys_fail(columns, specs, n + 1);
    }
}

/// Finds the columns of the sort keys.
pub fn find_sort_keys(columns: &Vec<ColumnInfo>, specs: &Vec<SortSpec>) -> (res: Result<
    Vec<(usize, bool)>,
    DbError,
>)
    ensures
        match res {
            Ok(keys) => key_positions(columns.deep_view(), specs.deep_view()) == Ok::<
                Seq<(int, bool)>,
                Fault,
            >(keys_view(keys@)) && keys_within(keys@, columns@.len()) && keys@.len() == specs@.len()
                && forall|i: int|
                0 <= i < specs@.len() ==> (#[trigger] keys@[i]).1 == specs@[i].ascending
                    && columns@[keys@[i].0 as int].name@ == specs@[i].column_name@,
            Err(e) => key_positions(columns.deep_view(), specs.deep_view()) == Err::<
                Seq<(int, bool)>,
                Fault,
            >(e@),
        },
{
    let ghost (c, s) = (columns.deep_view(), specs.deep_view());
    let mut keys: Vec<(usize, bool)> = Vec::new();
    let mut i: usize = 0;
    assert(s.take(0) =~= Seq::empty());
    assert(keys_view(keys@) =~= Seq::<(int, bool)>::empty());
    while i < specs.len()
        invariant
            i <= specs@.len(),
            c == columns.deep_view(),
            s == specs.deep_view(),
            keys@.len() == i,
            keys_within(keys@, columns@.len()),
            key_positions(c, s.take(i as int)) == Ok::<Seq<(int, bool)>, Fault>(keys_view(keys@)),
            forall|j: int|
                0 <= j < i ==> (#[trigger] keys@[j]).1 == specs@[j].ascending
                    && columns@[keys@[j].0 as int].name@ == specs@[j].column_name@,
        decreases specs@.len() - i,
    {
        proof {
            assert(s.take(i + 1).drop_last() =~= s.take(i as int));
            assert(s.take(i + 1).last() == s[i as int]);
        }
        match find_column(columns, &specs[i].column_name) {
            Some(k) => {
                let ghost before = keys_view(keys@);
                proof {
                    let p = |col: Column| col.name == s[i as int].column;
                    seqs::lemma_first_where(c, p);
                    assert(p(c[k as int]));
                    assert(c[k as int] == columns@[k as int].deep_view());
                }
                keys.push((k, specs[i].ascending));
                assert(keys_view(keys@) =~= before.push((k as int, s[i as int].ascending)));
            },
            None => {
                proof {
                    lemma_keys_fail(c, s, i + 1);
                }
                return Err(DbError::SortColumn(specs[i].column_name.clone()));
            },
        }
        i += 1;
    }
    assert(s.take(i as int) =~= s);
    Ok(keys)
}

// ---- the order of rows ----

/// How two rows compare by one key. Values that do not compare count as equal.
pub open spec fn key_order(a: Seq<Val>, b: Seq<Val>, key: (int, bool)) -> Order {
    let o = match value::val_order(a[key.0], b[key.0]) {
        Some(o) => o,
        None => Order::Equal,
    };
    if key.1 {
        o
    } else {
        o.flipped()
    }
}

/// How two rows compare: the first key by which they differ decides.
pub open spec fn rows_order(a: Seq<Val>, b: Seq<Val>, keys: Seq<(int, bool)>) -> Order
    decreases keys.len(),
{
    if keys.len() == 0 {
        Order::Equal
    } else {
        match rows_order(a, b, keys.drop_last()) {
            Order::Equal => key_order(a, b, keys.last()),
            o => o,
        }
    }
}

proof fn lemma_rows_order_decided(a: Seq<Val>, b: Seq<Val>, keys: Seq<(int, bool)>, n: int)
    requires
        0 <= n <= keys.len(),
        rows_order(a, b, keys.take(n)) != Order::Equal,
    ensures
        rows_order(a, b, keys) == rows_order(a, b, keys.take(n)),
    decreases keys.len() - n,
{
    if n == keys.len() {
        assert(keys.take(n) =~= keys);
    } else {
        assert(keys.take(n + 1).drop_last() =~= keys.take(n));
        lemma_rows_order_decided(a, b, keys, n + 1);
    }
}

/// Compares two rows by the sort keys.
pub fn order_rows(a: &Vec<Data>, b: &Vec<Data>, keys: &Vec<(usize, bool)>) -> (res: Order)
    requires
        keys_within(keys@, a@.len()),
        keys_within(keys@, b@.len()),
    ensures
        res == rows_order(a.deep_view(), b.deep_view(), keys_view(keys@)),
{
    let ghost (x, y, k) = (a.deep_view(), b.deep_view(), keys_view(keys@));
    let mut i: usize = 0;
    assert(k.take(0) =~= Seq::empty());
    while i < keys.len()
        invariant
            i <= keys@.len(),
            keys_within(keys@, a@.len()),
            keys_within(keys@, b@.len()),
            x == a.deep_view(),
            y == b.deep_view(),
            k == keys_view(keys@),
            rows_order(x, y, k.take(i as int)) == Order::Equal,
        decreases keys@.len() - i,
    {
        proof {
            assert(k.take(i + 1).drop_last() =~= k.take(i as int));
            assert(k.take(i + 1).last() == k[i as int]);
        }
        let (col, ascending) = keys[i];
        let o = match a[col].order(&b[col]) {
            Some(o) => o,
            None => Order::Equal,
        };
        let o = if ascending {
            o
        } else {
            o.reverse()
        };
        if o != Order::Equal {
            proof {
                lemma_rows_order_decided(x, y, k, i + 1);
            }
            return o;
        }
        i += 1;
    }
    assert(k.take(i as int) =~= k);
    Order::Equal
}

/// Whether no key of a row is a NaN.
pub open spec fn has_keys(r: Seq<Val>, keys: Seq<(int, bool)>) -> bool {
    forall|i: int| 0 <= i < keys.len() ==> !value::is_nan(r[(#[trigger] keys[i]).0])
}

/// Whether no key of any row is a NaN.
pub open spec fn all_have_keys(rows: Seq<Seq<Val>>, keys: Seq<(int, bool)>) -> bool {
    forall|i: int| 0 <= i < rows.len() ==> has_keys(#[trigger] rows[i], keys)
}

proof fn lemma_has_fewer_keys(r: Seq<Val>, keys: Seq<(int, bool)>)
    requires
        has_keys(r, keys),
        keys.len() > 0,
    ensures
        has_keys(r, keys.drop_last()),
        !value::is_nan(r[keys.last().0]),
{
    assert forall|i: int| 0 <= i < keys.drop_last().len() implies !value::is_nan(
        r[(#[trigger] keys.drop_last()[i]).0],
    ) by {
        assert(keys.drop_last()[i] == keys[i]);
    }
    assert(!value::is_nan(r[keys[keys.len() - 1].0]));
}

/// Exchanging two rows exchanges the outcome of their comparison.
pub proof fn rows_order_is_antisymmetric(a: Seq<Val>, b: Seq<Val>, keys: Seq<(int, bool)>)
    ensures
        rows_order(b, a, keys) == rows_order(a, b, keys).flipped(),
    decreases keys.len(),
{
    if keys.len() > 0 {
        rows_order_is_antisymmetric(a, b, keys.drop_last());
        value::order_is_antisymmetric(a[keys.last().0], b[keys.last().0]);
    }
}

/// The order of rows without NaN keys is transitive.
pub proof fn rows_order_is_transitive(
    a: Seq<Val>,
    b: Seq<Val>,
    c: Seq<Val>,
    keys: Seq<(int, bool)>,
)
    requires
        has_keys(a, keys),
        has_keys(b, keys),
        has_keys(c, keys),
        rows_order(a, b, keys) != Order::Greater,
        rows_order(b, c, keys) != Order::Greater,
    ensures
        rows_order(a, c, keys) != Order::Greater,
        rows_order(a, c, keys) == Order::Equal ==> rows_order(a, b, keys) == Order::Equal
            && rows_order(b, c, keys) == Order::Equal,
    decreases keys.len(),
{
    if keys.len() > 0 {
        let before = keys.drop_last();
        let k = keys.last();
        lemma_has_fewer_keys(a, keys);
        lemma_has_fewer_keys(b, keys);
        lemma_has_fewer_keys(c, keys);
        rows_order_is_transitive(a, b, c, before);
        let (x, y, z) = (a[k.0], b[k.0], c[k.0]);
        value::order_is_antisymmetric(x, y);
        value::order_is_antisymmetric(y, z);
        value::order_is_antisymmetric(x, z);
        if k.1 {
            if value::at_most(value::val_order(x, y)) && value::at_most(value::val_order(y, z)) {
                value::order_is_transitive(x, y, z);
            }
        } else {
            if value::at_most(value::val_order(z, y)) && value::at_most(value::val_order(y, x)) {
                value::order_is_transitive(z, y, x);
            }
        }
    }
}

// ---- sorting positions ----

/// Whether `p` holds each position from `lo` to `hi` once.
pub open spec fn arranges(p: Seq<usize>, lo: int, hi: int) -> bool {
    &&& p.len() == hi - lo
    &&& p.no_duplicates()
    &&& forall|i: int| 0 <= i < p.len() ==> lo <= (#[trigger] p[i]) < hi
}

/// Whether rows at `x` and `y` stand in order: by their keys, and by their positions
/// where those are equal.
pub open spec fn in_order(rows: Seq<Seq<Val>>, x: int, y: int, keys: Seq<(int, bool)>) -> bool {
    match rows_order(rows[x], rows[y], keys) {
        Order::Less => true,
        Order::Equal => x <= y,
        Order::Greater => false,
    }
}

/// Whether positions are in the order of their rows.
pub open spec fn ordered(rows: Seq<Seq<Val>>, p: Seq<usize>, keys: Seq<(int, bool)>) -> bool {
    forall|i: int, j: int|
        0 <= i < j < p.len() ==> in_order(
            rows,
            (#[trigger] p[i]) as int,
            (#[trigger] p[j]) as int,
            keys,
        )
}

proof fn lemma_in_order_transitive(
    rows: Seq<Seq<Val>>,
    x: int,
    y: int,
    z: int,
    keys: Seq<(int, bool)>,
)
    requires
        all_have_keys(rows, keys),
        0 <= x < rows.len(),
        0 <= y < rows.len(),
        0 <= z < rows.len(),
        in_order(rows, x, y, keys),
        in_order(rows, y, z, keys),
    ensures
        in_order(rows, x, z, keys),
{
    assert(has_keys(rows[x], keys) && has_keys(rows[y], keys) && has_keys(rows[z], keys));
    rows_order_is_transitive(rows[x], rows[y], rows[z], keys);
}

/// Whether what was merged stands before what is left of one side.
spec fn before_rest(
    rows: Seq<Seq<Val>>,
    out: Seq<usize>,
    rest: Seq<usize>,
    keys: Seq<(int, bool)>,
) -> bool {
    forall|i: int, j: int|
        0 <= i < out.len() && 0 <= j < rest.len() ==> in_order(
            rows,
            (#[trigger] out[i]) as int,
            (#[trigger] rest[j]) as int,
            keys,
        )
}

fn merge_positions(
    vals: &Vec<Vec<Data>>,
    keys: &Vec<(usize, bool)>,
    a: &Vec<usize>,
    b: &Vec<usize>,
    lo: usize,
    mid: usize,
    hi: usize,
) -> (res: Vec<usize>)
    requires
        lo <= mid <= hi <= vals@.len(),
        forall|i: int| 0 <= i < vals@.len() ==> keys_within(keys@, (#[trigger] vals@[i])@.len()),
        arranges(a@, lo as int, mid as int),
        arranges(b@, mid as int, hi as int),
    ensures
        arranges(res@, lo as int, hi as int),
        all_have_keys(vals.deep_view(), keys_view(keys@)) && ordered(
            vals.deep_view(),
            a@,
            keys_view(keys@),
        ) && ordered(vals.deep_view(), b@, keys_view(keys@)) ==> ordered(
            vals.deep_view(),
            res@,
            keys_view(keys@),
        ),
{
    let ghost (v, k) = (vals.deep_view(), keys_view(keys@));
    let ghost good = all_have_keys(v, k) && ordered(v, a@, k) && ordered(v, b@, k);
    let mut out: Vec<usize> = Vec::new();
    let mut i: usize = 0;
    let mut j: usize = 0;
    while i < a.len() || j < b.len()
        invariant
            lo <= mid <= hi <= vals@.len(),
            i <= a@.len(),
            j <= b@.len(),
            v == vals.deep_view(),
            k == keys_view(keys@),
            forall|n: int|
                0 <= n < vals@.len() ==> keys_within(keys@, (#[trigger] vals@[n])@.len()),
            arranges(a@, lo as int, mid as int),
            arranges(b@, mid as int, hi as int),
            good == (all_have_keys(v, k) && ordered(v, a@, k) && ordered(v, b@, k)),
            out@.len() == i + j,
            out@.no_duplicates(),
            forall|n: int| 0 <= n < out@.len() ==> lo <= (#[trigger] out@[n]) < hi,
            forall|n: int, m: int|
                0 <= n < out@.len() && i <= m < a@.len() ==> #[trigger] out@[n] != #[trigger] a@[m],
            forall|n: int, m: int|
                0 <= n < out@.len() && j <= m < b@.len() ==> #[trigger] out@[n] != #[trigger] b@[m],
            good ==> ordered(v, out@, k),
            good ==> before_rest(v, out@, a@.skip(i as int), k),
            good ==> before_rest(v, out@, b@.skip(j as int), k),
        decreases a@.len() - i + b@.len() - j,
    {
        let from_a = if j >= b.len() {
            true
        } else if i >= a.len() {
            false
        } else {
            let x: usize = a[i];
            let y: usize = b[j];
            let o = order_rows(&vals[x], &vals[y], keys);
            o != Order::Greater
        };
        let ghost before = out@;
        if from_a {
            let x: usize = a[i];
            out.push(x);
            proof {
                assert forall|n: int, m: int|
                    0 <= n < out@.len() && i + 1 <= m < a@.len() implies #[trigger] out@[n]
                    != #[trigger] a@[m] by {
                    if n == before.len() {
                        assert(a@[i as int] != a@[m]);
                    }
                }
                assert forall|n: int, m: int|
                    0 <= n < out@.len() && j <= m < b@.len() implies #[trigger] out@[n]
                    != #[trigger] b@[m] by {
                    if n == before.len() {
                        assert(a@[i as int] < mid <= b@[m]);
                    }
                }
                if good {
                    lemma_taken(v, before, x, a@.skip(i as int), k);
                    let ra = a@.skip(i + 1);
                    assert forall|n: int, m: int|
                        0 <= n < out@.len() && 0 <= m < ra.len() implies in_order(
                        v,
                        (#[trigger] out@[n]) as int,
                        (#[trigger] ra[m]) as int,
                        k,
                    ) by {
                        if n < before.len() {
                            assert(a@.skip(i as int)[m + 1] == ra[m]);
                            assert(out@[n] == before[n]);
                        } else {
                            assert(in_order(v, a@[i as int] as int, a@[i + 1 + m] as int, k));
                        }
                    }
                    let rb = b@.skip(j as int);
                    assert forall|n: int, m: int|
                        0 <= n < out@.len() && 0 <= m < rb.len() implies in_order(
                        v,
                        (#[trigger] out@[n]) as int,
                        (#[trigger] rb[m]) as int,
                        k,
                    ) by {
                        if n < before.len() {
                            assert(out@[n] == before[n]);
                        } else {
                            let y = b@[j as int] as int;
                            assert(in_order(v, x as int, y, k));
                            if m > 0 {
                                assert(in_order(v, y, b@[j + m] as int, k));
                                lemma_in_order_transitive(v, x as int, y, rb[m] as int, k);
                            }
                        }
                    }
                }
            }
            i += 1;
        } else {
            let y: usize = b[j];
            out.push(y);
            proof {
                assert forall|n: int, m: int|
                    0 <= n < out@.len() && j + 1 <= m < b@.len() implies #[trigger] out@[n]
                    != #[trigger] b@[m] by {
                    if n == before.len() {
                        assert(b@[j as int] != b@[m]);
                    }
                }
                assert forall|n: int, m: int|
                    0 <= n < out@.len() && i <= m < a@.len() implies #[trigger] out@[n]
                    != #[trigger] a@[m] by {
                    if n == before.len() {
                        assert(a@[m] < mid <= b@[j as int]);
                    }
                }
                if good {
                    lemma_taken(v, before, y, b@.skip(j as int), k);
                    let rb = b@.skip(j + 1);
                    assert forall|n: int, m: int|
                        0 <= n < out@.len() && 0 <= m < rb.len() implies in_order(
                        v,
                        (#[trigger] out@[n]) as int,
                        (#[trigger] rb[m]) as int,
                        k,
                    ) by {
                        if n < before.len() {
                            assert(b@.skip(j as int)[m + 1] == rb[m]);
                            assert(out@[n] == before[n]);
                        } else {
                            assert(in_order(v, b@[j as int] as int, b@[j + 1 + m] as int, k));
                        }
                    }
                    let ra = a@.skip(i as int);
                    assert forall|n: int, m: int|
                        0 <= n < out@.len() && 0 <= m < ra.len() implies in_order(
                        v,
                        (#[trigger] out@[n]) as int,
                        (#[trigger] ra[m]) as int,
                        k,
                    ) by {
                        if n < before.len() {
                            assert(out@[n] == before[n]);
                        } else {
                            let x = a@[i as int] as int;
                            rows_order_is_antisymmetric(v[x], v[y as int], k);
                            assert(in_order(v, y as int, x, k));
                            if m > 0 {
                                assert(in_order(v, x, a@[i + m] as int, k));
                                lemma_in_order_transitive(v, y as int, x, ra[m] as int, k);
                            }
                        }
                    }
                }
            }
            j += 1;
        }
    }
    out
}

/// An element that stands behind what was merged can be put behind it.
proof fn lemma_taken(
    v: Seq<Seq<Val>>,
    out: Seq<usize>,
    x: usize,
    rest: Seq<usize>,
    k: Seq<(int, bool)>,
)
    requires
        ordered(v, out, k),
        rest.len() > 0,
        rest[0] == x,
        before_rest(v, out, rest, k),
    ensures
        ordered(v, out.push(x), k),
{
    let p = out.push(x);
    assert forall|i: int, j: int| 0 <= i < j < p.len() implies in_order(
        v,
        (#[trigger] p[i]) as int,
        (#[trigger] p[j]) as int,
        k,
    ) by {
        assert(p[i] == out[i]);
        if j < out.len() {
            assert(p[j] == out[j]);
        } else {
            assert(in_order(v, out[i] as int, rest[0] as int, k));
        }
    }
}

fn sort_range(vals: &Vec<Vec<Data>>, keys: &Vec<(usize, bool)>, lo: usize, hi: usize) -> (res: Vec<
    usize,
>)
    requires
        lo <= hi <= vals@.len(),
        forall|i: int| 0 <= i < vals@.len() ==> keys_within(keys@, (#[trigger] vals@[i])@.len()),
    ensures
        arranges(res@, lo as int, hi as int),
        all_have_keys(vals.deep_view(), keys_view(keys@)) ==> ordered(
            vals.deep_view(),
            res@,
            keys_view(keys@),
        ),
    decreases hi - lo,
{
    if hi - lo == 0 {
        Vec::new()
    } else if hi - lo == 1 {
        let mut one: Vec<usize> = Vec::new();
        one.push(lo);
        one
    } else {
        let mid: usize = lo + (hi - lo) / 2;
        let a = sort_range(vals, keys, lo, mid);
        let b = sort_range(vals, keys, mid, hi);
        merge_positions(vals, keys, &a, &b, lo, mid, hi)
    }
}

/// Sorts the positions of rows by their keys. Rows of equal keys keep their order.
pub fn sort_positions(vals: &Vec<Vec<Data>>, keys: &Vec<(usize, bool)>) -> (res: Vec<usize>)
    requires
        forall|i: int| 0 <= i < vals@.len() ==> keys_within(keys@, (#[trigger] vals@[i])@.len()),
    ensures
        arranges(res@, 0, vals@.len() as int),
        all_have_keys(vals.deep_view(), keys_view(keys@)) ==> ordered(
            vals.deep_view(),
            res@,
            keys_view(keys@),
        ),
{
    sort_range(vals, keys, 0, vals.len())
}

/// Copies sort keys.
pub fn copy_keys(keys: &Vec<(usize, bool)>) -> (res: Vec<(usize, bool)>)
    ensures
        res@ == keys@,
{
    let mut out: Vec<(usize, bool)> = Vec::new();
    let mut i: usize = 0;
    while i < keys.len()
        invariant
            i <= keys@.len(),
            out@ == keys@.take(i as int),
        decreases keys@.len() - i,
    {
        out.push(keys[i]);
        assert(out@ =~= keys@.take(i + 1));
        i += 1;
    }
    assert(out@ =~= keys@);
    out
}

} // verus!
