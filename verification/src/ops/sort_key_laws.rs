//! What sort keys mean: which columns they take, in which direction, and which of two rows
//! they put first.

use vstd::prelude::*;

use crate::error::Fault;
use crate::ops::sort;
use crate::ops::sort_laws;
use crate::query::SortKey;
use crate::row_laws;
use crate::schema::Column;
use crate::schema;
use crate::value::{Order, Val};
use crate::value;

verus! {

/// Each key takes the first column of the name that it gives, and keeps its own direction.
pub proof fn each_key_takes_its_column_and_direction(
    columns: Seq<Column>,
    specs: Seq<SortKey>,
    i: int,
)
    requires
        0 <= i < specs.len(),
    ensures
        sort::key_positions(columns, specs) matches Ok(keys) ==> {
            &&& keys.len() == specs.len()
            &&& keys[i].1 == specs[i].ascending
            &&& row_laws::is_first(columns, specs[i].column, keys[i].0)
        },
    decreases specs.len(),
{
    let before = specs.drop_last();
    if sort::key_positions(columns, specs) is Ok {
        let keys = sort::key_positions(columns, specs)->Ok_0;
        row_laws::the_first_column_of_a_name_is_found(columns, specs[i].column, keys[i].0);
        if i < before.len() {
            each_key_takes_its_column_and_direction(columns, before, i);
            assert(before[i] == specs[i]);
        } else {
            if before.len() > 0 {
                each_key_takes_its_column_and_direction(columns, before, 0);
            }
            assert(specs.last() == specs[i]);
        }
    }
}

/// Keys are found where each has its column; otherwise the first one without a column is
/// named.
pub proof fn keys_need_their_columns(columns: Seq<Column>, specs: Seq<SortKey>)
    ensures
        sort::key_positions(columns, specs) is Ok <==> (forall|i: int| 0 <= i < specs.len()
            ==> schema::column_index(columns, (#[trigger] specs[i]).column) is Some),
        sort::key_positions(columns, specs) matches Err(e) ==> exists|i: int|
            {
                &&& 0 <= i < specs.len()
                &&& e == Fault::SortColumn((#[trigger] specs[i]).column)
                &&& schema::column_index(columns, specs[i].column) is None
                &&& forall|j: int|
                    0 <= j < i ==> schema::column_index(columns, (#[trigger] specs[j]).column) is Some
            },
    decreases specs.len(),
{
    if specs.len() > 0 {
        let before = specs.drop_last();
        let n = specs.len() - 1;
        keys_need_their_columns(columns, before);
        assert forall|i: int| 0 <= i < n implies #[trigger] before[i] == specs[i] by {}
        if sort::key_positions(columns, before) is Ok {
            assert forall|i: int| 0 <= i < n implies schema::column_index(
                columns,
                (#[trigger] specs[i]).column,
            ) is Some by {
                assert(before[i] == specs[i]);
            }
            assert(specs.last() == specs[n]);
        } else {
            let e = sort::key_positions(columns, before)->Err_0;
            let i = choose|i: int|
                {
                    &&& 0 <= i < before.len()
                    &&& e == Fault::SortColumn((#[trigger] before[i]).column)
                    &&& schema::column_index(columns, before[i].column) is None
                    &&& forall|j: int|
                        0 <= j < i ==> schema::column_index(columns, (#[trigger] before[j]).column) is Some
                };
            assert(before[i] == specs[i]);
            assert forall|j: int| 0 <= j < i implies schema::column_index(
                columns,
                (#[trigger] specs[j]).column,
            ) is Some by {
                assert(before[j] == specs[j]);
            }
        }
    }
}

/// Whether two rows do not differ by a key: their values are equal, or do not compare.
pub open spec fn same_by(a: Seq<Val>, b: Seq<Val>, key: (int, bool)) -> bool {
    value::val_order(a[key.0], b[key.0]) is None || value::val_order(a[key.0], b[key.0]) == Some(
        Order::Equal,
    )
}

/// Whether a row stands before another by a key: its value is the lesser one where the key
/// ascends, and the greater one where it descends.
pub open spec fn before_by(a: Seq<Val>, b: Seq<Val>, key: (int, bool)) -> bool {
    if key.1 {
        value::val_order(a[key.0], b[key.0]) == Some(Order::Less)
    } else {
        value::val_order(a[key.0], b[key.0]) == Some(Order::Greater)
    }
}

/// Whether key `k` is the first by which two rows differ, and puts `a` first.
pub open spec fn decided_at(a: Seq<Val>, b: Seq<Val>, keys: Seq<(int, bool)>, k: int) -> bool {
    &&& 0 <= k < keys.len()
    &&& before_by(a, b, keys[k])
    &&& forall|j: int| 0 <= j < k ==> same_by(a, b, #[trigger] keys[j])
}

/// The first key by which two rows differ decides which of them comes first, in its own
/// direction; the keys behind it do not count, and rows that differ by no key are equal.
pub proof fn the_first_differing_key_decides(a: Seq<Val>, b: Seq<Val>, keys: Seq<(int, bool)>)
    ensures
        sort::rows_order(a, b, keys) == Order::Less <==> exists|k: int| decided_at(a, b, keys, k),
        sort::rows_order(a, b, keys) == Order::Greater <==> exists|k: int| decided_at(b, a, keys, k),
        sort::rows_order(a, b, keys) == Order::Equal <==> (forall|k: int| 0 <= k < keys.len()
            ==> same_by(a, b, #[trigger] keys[k])),
    decreases keys.len(),
{
    if keys.len() > 0 {
        let before = keys.drop_last();
        let n = keys.len() - 1;
        the_first_differing_key_decides(a, b, before);
        assert forall|j: int| 0 <= j < n implies #[trigger] before[j] == keys[j] by {}
        assert(keys.last() == keys[n]);
        value::order_is_antisymmetric(a[keys[n].0], b[keys[n].0]);
        lemma_decided_alike(a, b, keys);
        lemma_decided_alike(b, a, keys);
        if sort::rows_order(a, b, before) == Order::Equal {
            assert forall|j: int| 0 <= j < n implies same_by(a, b, #[trigger] keys[j]) && same_by(
                b,
                a,
                keys[j],
            ) by {
                assert(before[j] == keys[j]);
                value::order_is_antisymmetric(a[keys[j].0], b[keys[j].0]);
            }
            if before_by(a, b, keys[n]) {
                assert(decided_at(a, b, keys, n));
            }
            if before_by(b, a, keys[n]) {
                assert(decided_at(b, a, keys, n));
            }
            assert forall|k: int| decided_at(a, b, keys, k) implies k == n by {
                if k < n {
                    assert(same_by(a, b, keys[k]));
                }
            }
            assert forall|k: int| decided_at(b, a, keys, k) implies k == n by {
                if k < n {
                    assert(same_by(b, a, keys[k]));
                }
            }
        } else {
            let k = if sort::rows_order(a, b, before) == Order::Less {
                choose|k: int| decided_at(a, b, before, k)
            } else {
                choose|k: int| decided_at(b, a, before, k)
            };
            assert(before[k] == keys[k]);
            value::order_is_antisymmetric(a[keys[k].0], b[keys[k].0]);
            assert(!same_by(a, b, keys[k]));
            assert(!same_by(b, a, keys[k]));
            assert forall|m: int| decided_at(b, a, keys, m) implies m <= k by {
                if m > k {
                    assert(same_by(b, a, keys[k]));
                }
            }
            assert forall|m: int| decided_at(a, b, keys, m) implies m <= k by {
                if m > k {
                    assert(same_by(a, b, keys[k]));
                }
            }
        }
    }
}

/// Up to the last key, rows are decided by all keys as by all but the last.
proof fn lemma_decided_alike(a: Seq<Val>, b: Seq<Val>, keys: Seq<(int, bool)>)
    requires
        keys.len() > 0,
    ensures
        forall|k: int| #![trigger decided_at(a, b, keys.drop_last(), k)]
            decided_at(a, b, keys.drop_last(), k) ==> decided_at(a, b, keys, k),
        forall|k: int| #![trigger decided_at(a, b, keys, k)]
            k < keys.len() - 1 && decided_at(a, b, keys, k) ==> decided_at(a, b, keys.drop_last(), k),
{
    let before = keys.drop_last();
    assert forall|j: int| 0 <= j < before.len() implies #[trigger] before[j] == keys[j] by {}
    assert forall|k: int| #![trigger decided_at(a, b, before, k)]
        decided_at(a, b, before, k) implies decided_at(a, b, keys, k) by {
        assert(before[k] == keys[k]);
        assert forall|j: int| 0 <= j < k implies same_by(a, b, #[trigger] keys[j]) by {
            assert(before[j] == keys[j]);
        }
    }
    assert forall|k: int| #![trigger decided_at(a, b, keys, k)]
        k < keys.len() - 1 && decided_at(a, b, keys, k) implies decided_at(a, b, before, k) by {
        assert(before[k] == keys[k]);
        assert forall|j: int| 0 <= j < k implies same_by(a, b, #[trigger] before[j]) by {
            assert(before[j] == keys[j]);
        }
    }
}

/// Rows that ascend by keys never have a row behind one that the keys put after it: of any
/// two rows, the first key by which they differ puts the one that comes first before the
/// other.
pub proof fn sorted_rows_are_decided_by_their_keys(
    rows: Seq<Seq<Val>>,
    keys: Seq<(int, bool)>,
    i: int,
    j: int,
)
    requires
        sort_laws::sorted(rows, keys),
        0 <= i < j < rows.len(),
    ensures
        forall|k: int| !decided_at(rows[j], rows[i], keys, k),
        (exists|k: int| decided_at(rows[i], rows[j], keys, k)) || (forall|k: int|
            0 <= k < keys.len() ==> same_by(rows[i], rows[j], #[trigger] keys[k])),
{
    the_first_differing_key_decides(rows[i], rows[j], keys);
}

} // verus!
