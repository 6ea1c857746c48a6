//! Projections: which columns of the input a row keeps, and in what order.

use vstd::prelude::*;

use crate::error::{DbError, Fault};
use crate::ops::rows;
use crate::query::{DbContext, ProjectData, QueryOp};
use crate::row;
use crate::schema::{find_column, get_schema, Column, ColumnInfo};
use crate::schema;
use crate::value::Val;

verus! {

/// For each pair of a projection the position of its input column.
pub open spec fn sources(columns: Seq<Column>, map: Seq<(Seq<char>, Seq<char>)>) -> Result<
    Seq<int>,
    Seq<char>,
>
    decreases map.len(),
{
    if map.len() == 0 {
        Ok(Seq::empty())
    } else {
        match sources(columns, map.drop_last()) {
            Err(e) => Err(e),
            Ok(before) => match schema::column_index(columns, map.last().0) {
                None => Err(map.last().0),
                Some(i) => Ok(before.push(i)),
            },
        }
    }
}

proof fn lemma_sources_fail(columns: Seq<Column>, map: Seq<(Seq<char>, Seq<char>)>, n: int)
    requires
        0 <= n <= map.len(),
        sources(columns, map.take(n)) is Err,
    ensures
        sources(columns, map) == sources(columns, map.take(n)),
    decreases map.len() - n,
{
    if n == map.len() {
        assert(map.take(n) =~= map);
    } else {
        assert(map.take(n + 1).drop_last() =~= map.take(n));
        lemma_sources_fail(columns, map, n + 1);
    }
}

/// Finds for each pair of a projection the position of its input column, or the
/// name of the first column that the input lacks.
pub fn find_sources(columns: &Vec<ColumnInfo>, map: &Vec<(String, String)>) -> (res: Result<
    Vec<usize>,
    String,
>)
    ensures
        match res {
            Ok(v) => sources(columns.deep_view(), map.deep_view()) == Ok::<Seq<int>, Seq<char>>(
                rows::positions(v@),
            ) && rows::all_below(v@, columns@.len() as int) && v@.len() == map@.len(),
            Err(name) => sources(columns.deep_view(), map.deep_view()) == Err::<
                Seq<int>,
                Seq<char>,
            >(name@),
        },
{
    let ghost (c, m) = (columns.deep_view(), map.deep_view());
    let mut out: Vec<usize> = Vec::new();
    let mut i: usize = 0;
    assert(m.take(0) =~= Seq::empty());
    assert(rows::positions(out@) =~= Seq::<int>::empty());
    while i < map.len()
        invariant
            i <= map@.len(),
            out@.len() == i,
            c == columns.deep_view(),
            m == map.deep_view(),
            sources(c, m.take(i as int)) == Ok::<Seq<int>, Seq<char>>(rows::positions(out@)),
            rows::all_below(out@, columns@.len() as int),
        decreases map@.len() - i,
    {
        proof {
            assert(m.take(i + 1).drop_last() =~= m.take(i as int));
            assert(m.take(i + 1).last() == m[i as int]);
        }
        match find_column(columns, &map[i].0) {
            Some(k) => {
                let ghost before = rows::positions(out@);
                out.push(k);
                assert(rows::positions(out@) =~= before.push(k as int));
            },
            None => {
                proof {
                    lemma_sources_fail(c, m, i + 1);
                }
                return Err(map[i].0.clone());
            },
        }
        i += 1;
    }
    assert(m.take(i as int) =~= m);
    Ok(out)
}

/// Whether the positions ascend without repetition.
pub open spec fn strictly_ascending(v: Seq<usize>) -> bool {
    forall|i: int, j: int| 0 <= i < j < v.len() ==> (#[trigger] v[i]) < (#[trigger] v[j])
}

/// Puts a position into ascending positions, where it is not there yet.
fn add_position(keep: &mut Vec<usize>, k: usize)
    requires
        strictly_ascending(old(keep)@),
    ensures
        strictly_ascending(final(keep)@),
        forall|x: usize| #[trigger]
            final(keep)@.contains(x) <==> (old(keep)@.contains(x) || x == k),
{
    let ghost before = keep@;
    let mut at: usize = 0;
    while at < keep.len() && keep[at] < k
        invariant
            at <= keep@.len(),
            keep@ == before,
            strictly_ascending(before),
            forall|j: int| 0 <= j < at ==> (#[trigger] before[j]) < k,
        decreases keep@.len() - at,
    {
        at += 1;
    }
    if at < keep.len() && keep[at] == k {
        assert(before.contains(k)) by {
            assert(before[at as int] == k);
        }
        return;
    }
    keep.insert(at, k);
    let ghost after = keep@;
    proof {
        assert(after == before.insert(at as int, k));
        assert forall|x: usize| #[trigger] after.contains(x) <==> (before.contains(x) || x == k) by {
            if before.contains(x) {
                let j = choose|j: int| 0 <= j < before.len() && before[j] == x;
                if j < at {
                    assert(after[j] == x);
                } else {
                    assert(after[j + 1] == x);
                }
            }
            if x == k {
                assert(after[at as int] == k);
            }
            if after.contains(x) {
                let j = choose|j: int| 0 <= j < after.len() && after[j] == x;
                if j < at {
                    assert(before[j] == x);
                } else if j > at {
                    assert(before[j - 1] == x);
                }
            }
        }
        assert forall|i: int, j: int| 0 <= i < j < after.len() implies (#[trigger] after[i]) < (
        #[trigger] after[j]) by {
            let bi = if i < at {
                i
            } else {
                i - 1
            };
            let bj = if j < at {
                j
            } else {
                j - 1
            };
            if i != at && j != at {
                assert(before[bi] < before[bj]);
            } else if i == at {
                assert(before[at as int] <= before[bj]);
            }
        }
    }
}

/// The positions that a projection takes, in ascending order, each once.
pub fn keep_indices(indices: &Vec<usize>) -> (res: Vec<usize>)
    ensures
        strictly_ascending(res@),
        forall|x: usize| #[trigger] res@.contains(x) <==> indices@.contains(x),
{
    let mut keep: Vec<usize> = Vec::new();
    let mut i: usize = 0;
    while i < indices.len()
        invariant
            i <= indices@.len(),
            strictly_ascending(keep@),
            forall|x: usize| #[trigger]
                keep@.contains(x) <==> indices@.take(i as int).contains(x),
        decreases indices@.len() - i,
    {
        let ghost before = keep@;
        add_position(&mut keep, indices[i]);
        proof {
            let t = indices@.take(i as int);
            let u = indices@.take(i + 1);
            assert(u =~= t.push(indices@[i as int]));
            assert forall|x: usize| #[trigger] keep@.contains(x) <==> u.contains(x) by {
                if t.contains(x) {
                    let j = choose|j: int| 0 <= j < t.len() && t[j] == x;
                    assert(u[j] == x);
                }
                if x == indices@[i as int] {
                    assert(u[i as int] == x);
                }
                if u.contains(x) {
                    let j = choose|j: int| 0 <= j < u.len() && u[j] == x;
                    if j < i {
                        assert(t[j] == x);
                    }
                }
            }
        }
        i += 1;
    }
    assert(indices@.take(i as int) =~= indices@);
    keep
}

/// Where each position of a projection stands among the kept positions.
pub fn positions_in(keep: &Vec<usize>, indices: &Vec<usize>) -> (res: Vec<usize>)
    requires
        forall|x: usize| indices@.contains(x) ==> #[trigger] keep@.contains(x),
    ensures
        res@.len() == indices@.len(),
        rows::all_below(res@, keep@.len() as int),
        forall|i: int| 0 <= i < res@.len() ==> keep@[#[trigger] res@[i] as int] == indices@[i],
{
    let mut out: Vec<usize> = Vec::new();
    let mut i: usize = 0;
    while i < indices.len()
        invariant
            i <= indices@.len(),
            forall|x: usize| indices@.contains(x) ==> #[trigger] keep@.contains(x),
            out@.len() == i,
            rows::all_below(out@, keep@.len() as int),
            forall|j: int| 0 <= j < i ==> keep@[#[trigger] out@[j] as int] == indices@[j],
        decreases indices@.len() - i,
    {
        let k: usize = indices[i];
        assert(indices@.contains(k));
        assert(keep@.contains(k));
        let n: usize = keep.len();
        let mut at: usize = 0;
        while keep[at] != k
            invariant
                at < n,
                n == keep@.len(),
                keep@.contains(k),
                forall|j: int| 0 <= j < at ==> (#[trigger] keep@[j]) != k,
            decreases keep@.len() - at,
        {
            proof {
                let j = choose|j: int| 0 <= j < keep@.len() && keep@[j] == k;
                assert(j > at);
            }
            at += 1;
        }
        out.push(at);
        i += 1;
    }
    out
}

/// Marks the positions that are kept.
pub fn wanted_columns(keep: &Vec<usize>, width: usize) -> (res: Vec<bool>)
    ensures
        res@.len() == width,
        forall|i: int| 0 <= i < width ==> (#[trigger] res@[i]) == keep@.contains(i as usize),
{
    let mut out: Vec<bool> = Vec::new();
    let mut i: usize = 0;
    while i < width
        invariant
            i <= width,
            out@.len() == i,
            forall|j: int| 0 <= j < i ==> (#[trigger] out@[j]) == keep@.contains(j as usize),
        decreases width - i,
    {
        let mut found = false;
        let mut k: usize = 0;
        while k < keep.len()
            invariant
                k <= keep@.len(),
                found == keep@.take(k as int).contains(i),
            decreases keep@.len() - k,
        {
            proof {
                let t = keep@.take(k as int);
                let u = keep@.take(k + 1);
                assert(u =~= t.push(keep@[k as int]));
                if t.contains(i) {
                    let j = choose|j: int| 0 <= j < t.len() && t[j] == i;
                    assert(u[j] == i);
                }
                if keep@[k as int] == i {
                    assert(u[k as int] == i);
                }
                if u.contains(i) {
                    let j = choose|j: int| 0 <= j < u.len() && u[j] == i;
                    if j < k {
                        assert(t[j] == i);
                    }
                }
            }
            if keep[k] == i {
                found = true;
            }
            k += 1;
        }
        assert(keep@.take(k as int) =~= keep@);
        out.push(found);
        i += 1;
    }
    out
}

/// How the rows of a scan become the rows of a projection: only the kept columns are
/// decoded, and their values are then put in order.
pub struct ScanColumns {
    pub wanted: Vec<bool>,
    pub keep: Vec<usize>,
    pub order: Vec<usize>,
}

impl ScanColumns {
    /// Whether the parts are those of a projection of these positions: exactly these columns
    /// are kept.
    pub open spec fn serves(self, indices: Seq<usize>, width: int) -> bool {
        &&& strictly_ascending(self.keep@)
        &&& rows::all_below(self.keep@, width)
        &&& forall|i: int| 0 <= i < self.keep@.len() ==> indices.contains(#[trigger] self.keep@[i])
        &&& self.wanted@.len() == width
        &&& forall|i: int|
            0 <= i < width ==> (#[trigger] self.wanted@[i]) == self.keep@.contains(i as usize)
        &&& self.order@.len() == indices.len()
        &&& rows::all_below(self.order@, self.keep@.len() as int)
        &&& forall|i: int|
            0 <= i < indices.len() ==> self.keep@[#[trigger] self.order@[i] as int] == indices[i]
    }

    /// Prepares the projection of these positions.
    pub fn new(indices: &Vec<usize>, width: usize) -> (res: ScanColumns)
        requires
            rows::all_below(indices@, width as int),
        ensures
            res.serves(indices@, width as int),
    {
        let keep = keep_indices(indices);
        let order = positions_in(&keep, indices);
        let wanted = wanted_columns(&keep, width);
        assert forall|i: int| 0 <= i < keep@.len() implies (#[trigger] keep@[i]) < width by {
            assert(keep@.contains(keep@[i]));
            assert(indices@.contains(keep@[i]));
            let j = choose|j: int| 0 <= j < indices@.len() && indices@[j] == keep@[i];
            assert(indices@[j] < width);
        }
        assert forall|i: int| 0 <= i < keep@.len() implies indices@.contains(
            #[trigger] keep@[i],
        ) by {
            assert(keep@.contains(keep@[i]));
        }
        ScanColumns { wanted, keep, order }
    }
}

/// A projection, prepared: the positions of its columns and the columns it gives.
pub struct Projection {
    pub indices: Vec<usize>,
    pub columns: Vec<ColumnInfo>,
}

/// The columns that positions of the input give under the names of a projection.
pub open spec fn renamed(
    columns: Seq<Column>,
    at: Seq<int>,
    map: Seq<(Seq<char>, Seq<char>)>,
) -> Seq<Column> {
    Seq::new(at.len(), |i: int| Column { name: map[i].1, data_type: columns[at[i]].data_type })
}

pub proof fn lemma_projected_is_renamed(columns: Seq<Column>, map: Seq<(Seq<char>, Seq<char>)>)
    ensures
        match sources(columns, map) {
            Ok(at) => at.len() == map.len() && schema::projected_columns(columns, map) == Ok::<
                Seq<Column>,
                Fault,
            >(renamed(columns, at, map)),
            Err(name) => schema::projected_columns(columns, map) == Err::<Seq<Column>, Fault>(
                Fault::ProjectColumn(name),
            ),
        },
    decreases map.len(),
{
    if map.len() == 0 {
        assert(renamed(columns, Seq::empty(), map) =~= Seq::empty());
    } else {
        let before = map.drop_last();
        lemma_projected_is_renamed(columns, before);
        match (sources(columns, before), schema::column_index(columns, map.last().0)) {
            (Ok(at), Some(i)) => {
                assert(renamed(columns, at, before).push(
                    Column { name: map.last().1, data_type: columns[i].data_type },
                ) =~= renamed(columns, at.push(i), map));
            },
            _ => {},
        }
    }
}

/// Prepares a projection of an input with these columns.
pub fn prepare_projection(columns: &Vec<ColumnInfo>, map: &Vec<(String, String)>) -> (res: Result<
    Projection,
    DbError,
>)
    ensures
        match res {
            Ok(p) => {
                &&& sources(columns.deep_view(), map.deep_view()) == Ok::<Seq<int>, Seq<char>>(
                    rows::positions(p.indices@),
                )
                &&& rows::all_below(p.indices@, columns@.len() as int)
                &&& p.indices@.len() == map@.len()
                &&& schema::projected_columns(columns.deep_view(), map.deep_view()) == Ok::<
                    Seq<Column>,
                    Fault,
                >(p.columns.deep_view())
            },
            Err(e) => schema::projected_columns(columns.deep_view(), map.deep_view()) == Err::<
                Seq<Column>,
                Fault,
            >(e@),
        },
{
    let ghost (c, m) = (columns.deep_view(), map.deep_view());
    proof {
        lemma_projected_is_renamed(c, m);
    }
    let indices = match find_sources(columns, map) {
        Ok(v) => v,
        Err(name) => {
            return Err(DbError::ProjectColumn(name));
        },
    };
    let ghost at = rows::positions(indices@);
    let mut out: Vec<ColumnInfo> = Vec::new();
    let mut i: usize = 0;
    while i < indices.len()
        invariant
            i <= indices@.len(),
            indices@.len() == map@.len(),
            c == columns.deep_view(),
            m == map.deep_view(),
            at == rows::positions(indices@),
            rows::all_below(indices@, columns@.len() as int),
            out@.len() == i,
            forall|j: int|
                0 <= j < i ==> (#[trigger] out@[j]).deep_view() == renamed(c, at, m)[j],
        decreases indices@.len() - i,
    {
        let k: usize = indices[i];
        out.push(ColumnInfo { name: map[i].1.clone(), data_type: columns[k].data_type });
        i += 1;
    }
    assert(out.deep_view() =~= renamed(c, at, m));
    Ok(Projection { indices, columns: out })
}

/// How a projection is carried out.
pub enum ProjectPlan {
    /// The scan below gives the columns.
    Scan { indices: Vec<usize>, columns: ScanColumns },
    /// The projection takes the columns of the rows that come from below.
    Stream { indices: Vec<usize>, width: usize },
}

impl ProjectPlan {
    /// The positions of the columns that the projection takes.
    pub open spec fn taken(self) -> Seq<int> {
        match self {
            ProjectPlan::Scan { indices, .. } => rows::positions(indices@),
            ProjectPlan::Stream { indices, .. } => rows::positions(indices@),
        }
    }
}

/// Decides how a projection is carried out: by the scan, if one stands below it.
pub fn plan_project(project: &ProjectData, ctx: &DbContext) -> (res: Result<ProjectPlan, DbError>)
    ensures
        ({
            let below = schema::plan_schema(project.underlying.plan(), ctx@);
            let map = project.column_name_map.deep_view();
            match res {
                Ok(way) => below matches Ok(columns) && {
                    &&& sources(columns, map) == Ok::<Seq<int>, Seq<char>>(way.taken())
                    &&& match way {
                        ProjectPlan::Scan { indices, columns: c } => {
                            &&& project.underlying.plan() is Scan
                            &&& c.serves(indices@, columns.len() as int)
                            &&& rows::all_below(indices@, columns.len() as int)
                        },
                        ProjectPlan::Stream { indices, width } => {
                            &&& project.underlying.plan() !is Scan
                            &&& width == columns.len()
                            &&& rows::all_below(indices@, columns.len() as int)
                        },
                    }
                },
                Err(e) => match below {
                    Err(f) => e@ == f,
                    Ok(columns) => sources(columns, map) matches Err(name) && e@
                        == Fault::ProjectColumn(name),
                },
            }
        }),
{
    let child = get_schema(&project.underlying, ctx)?;
    assert(child.deep_view().len() == child@.len());
    proof {
        lemma_projected_is_renamed(child.deep_view(), project.column_name_map.deep_view());
    }
    let projection = prepare_projection(&child, &project.column_name_map)?;
    match &*project.underlying {
        QueryOp::Scan(_) => {
            let columns = ScanColumns::new(&projection.indices, child.len());
            Ok(ProjectPlan::Scan { indices: projection.indices, columns })
        },
        _ => Ok(ProjectPlan::Stream { indices: projection.indices, width: child.len() }),
    }
}

// ---- what a projection gives ----

/// Decoding only the columns that are kept, narrowing the row to them and putting
/// them in order gives the same row as decoding all columns and projecting.
pub proof fn projecting_while_scanning_agrees(
    row: Seq<Val>,
    seen: Seq<Val>,
    columns: ScanColumns,
    indices: Seq<usize>,
)
    requires
        columns.serves(indices, row.len() as int),
        rows::all_below(indices, row.len() as int),
        seen.len() == row.len(),
        forall|i: int|
            0 <= i < row.len() && columns.wanted@[i] ==> (#[trigger] seen[i]) == row[i],
    ensures
        rows::picked(
            rows::picked(seen, rows::positions(columns.keep@)),
            rows::positions(columns.order@),
        ) == rows::picked(row, rows::positions(indices)),
{
    let a = rows::picked(seen, rows::positions(columns.keep@));
    let b = rows::picked(a, rows::positions(columns.order@));
    let c = rows::picked(row, rows::positions(indices));
    assert forall|i: int| 0 <= i < indices.len() implies b[i] == c[i] by {
        let p = columns.order@[i] as int;
        assert(columns.keep@[p] == indices[i]);
        assert(columns.keep@.contains(indices[i]));
        assert(columns.wanted@[indices[i] as int]);
        assert(seen[indices[i] as int] == row[indices[i] as int]);
    }
    assert(b =~= c);
}

} // verus!
