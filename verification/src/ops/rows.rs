//! Copies, pairs and selections of rows.

use vstd::prelude::*;

use crate::value::{Data, Val};

verus! {

/// Copies a row.
pub fn clone_row(row: &Vec<Data>) -> (res: Vec<Data>)
    ensures
        res.deep_view() == row.deep_view(),
        res@.len() == row@.len(),
{
    let mut out: Vec<Data> = Vec::new();
    let mut i: usize = 0;
    while i < row.len()
        invariant
            i <= row@.len(),
            out@ == row@.take(i as int),
        decreases row@.len() - i,
    {
        out.push(row[i].clone());
        assert(out@ =~= row@.take(i + 1));
        i += 1;
    }
    assert(out@ =~= row@);
    out
}

/// Joins two rows.
pub fn join_row(left: &Vec<Data>, right: &Vec<Data>) -> (res: Vec<Data>)
    ensures
        res.deep_view() == left.deep_view() + right.deep_view(),
        res@.len() == left@.len() + right@.len(),
{
    let mut out = clone_row(left);
    let mut more = clone_row(right);
    let ghost (l, r) = (out.deep_view(), more.deep_view());
    out.append(&mut more);
    assert(out.deep_view() =~= l + r);
    out
}

/// The values of a row at these positions.
pub open spec fn picked(row: Seq<Val>, positions: Seq<int>) -> Seq<Val> {
    positions.map_values(|i: int| row[i])
}

/// Positions as integers.
pub open spec fn positions(v: Seq<usize>) -> Seq<int> {
    v.map_values(|i: usize| i as int)
}

/// Whether all positions lie below a width.
pub open spec fn all_below(v: Seq<usize>, width: int) -> bool {
    forall|i: int| 0 <= i < v.len() ==> (#[trigger] v[i]) < width
}

/// Takes the values of a row at these positions.
pub fn pick(row: &Vec<Data>, indices: &Vec<usize>) -> (res: Vec<Data>)
    requires
        all_below(indices@, row@.len() as int),
    ensures
        res.deep_view() == picked(row.deep_view(), positions(indices@)),
        res@.len() == indices@.len(),
{
    let mut out: Vec<Data> = Vec::new();
    let mut i: usize = 0;
    while i < indices.len()
        invariant
            i <= indices@.len(),
            all_below(indices@, row@.len() as int),
            out@.len() == i,
            forall|j: int| 0 <= j < i ==> (#[trigger] out@[j]) == row@[indices@[j] as int],
        decreases indices@.len() - i,
    {
        let k: usize = indices[i];
        out.push(row[k].clone());
        i += 1;
    }
    assert(out.deep_view() =~= picked(row.deep_view(), positions(indices@)));
    out
}

} // verus!
