//! Scans: which blocks of a table are read, and which of their rows pass.

use vstd::prelude::*;
use vstd::string::*;
use vstd::utf8::*;

use crate::block;
use crate::bytes::append_bytes;
use crate::disk::{flush_disk_write_buffer, Disk, DiskState};
use crate::error::{DbError, Fault};
use crate::query::{
    ColumnStat, ComparisionOperator, ComparisionValue, Operand, Predicate, Range, RangeStat, Stat,
    Table, TableSpec, Test,
};
use crate::query;
use crate::row::{coerce_literal, compare_data};
use crate::row;
use crate::schema::{find_column, Column, ColumnInfo};
use crate::schema;
use crate::text::{parse_u64, trim};
use crate::text;
use crate::value::{Data, Order, Val};
use crate::value;

verus! {

// ---- where a table lies ----

/// The first block and the number of blocks of tables that were asked for.
pub struct TableMeta {
    pub entries: Vec<(String, (u64, u64))>,
}

/// The place of a table, if it was asked for.
pub open spec fn meta_of(entries: Seq<(Seq<char>, (u64, u64))>, id: Seq<char>) -> Option<
    (u64, u64),
>
    decreases entries.len(),
{
    if entries.len() == 0 {
        None
    } else if entries.last().0 == id {
        Some(entries.last().1)
    } else {
        meta_of(entries.drop_last(), id)
    }
}

impl View for TableMeta {
    type V = spec_fn(Seq<char>) -> Option<(u64, u64)>;

    open spec fn view(&self) -> spec_fn(Seq<char>) -> Option<(u64, u64)> {
        |id: Seq<char>| meta_of(self.entries.deep_view(), id)
    }
}

impl TableMeta {
    /// No table was asked for.
    pub fn new() -> (res: TableMeta)
        ensures
            forall|id: Seq<char>| (#[trigger] res@(id)) is None,
    {
        TableMeta { entries: Vec::new() }
    }

    /// The place of a table, if it was asked for.
    pub fn get(&self, id: &String) -> (res: Option<(u64, u64)>)
        ensures
            res == self@(id@),
    {
        let ghost e = self.entries.deep_view();
        let mut i: usize = self.entries.len();
        assert(e.take(i as int) =~= e);
        while i > 0
            invariant
                i <= self.entries@.len(),
                e == self.entries.deep_view(),
                meta_of(e, id@) == meta_of(e.take(i as int), id@),
            decreases i,
        {
            i -= 1;
            assert(e.take(i + 1).drop_last() =~= e.take(i as int));
            assert(e.take(i + 1).last() == e[i as int]);
            if self.entries[i].0 == *id {
                return Some(self.entries[i].1);
            }
        }
        None
    }

    /// Remembers the place of a table.
    pub fn insert(&mut self, id: &String, place: (u64, u64))
        ensures
            final(self)@(id@) == Some(place),
            forall|other: Seq<char>| other != id@ ==> #[trigger] final(self)@(other) == old(self)@(other),
    {
        let ghost before = self.entries.deep_view();
        self.entries.push((id.clone(), place));
        let ghost after = self.entries.deep_view();
        assert(after =~= before.push((id@, place)));
        assert(after.drop_last() =~= before);
        assert(after.last() == (id@, place));
    }
}

/// The commands that ask for the place of a table.
pub open spec fn file_command(id: Seq<char>) -> Seq<u8> {
    encode_utf8("get file start-block "@ + id + "\n"@) + encode_utf8(
        "get file num-blocks "@ + id + "\n"@,
    )
}

/// Gives the bytes that ask for the place of a table: the buffered writes and two
/// commands. The disk replies with two lines.
pub fn ask_table_place(disk: &mut DiskState, id: &String) -> (res: Vec<u8>)
    ensures
        res@ == old(disk)@.buffer + file_command(id@),
        final(disk)@ == (Disk { buffer: Seq::empty(), ..old(disk)@ }),
        final(disk).cache == old(disk).cache,
{
    let mut out = flush_disk_write_buffer(disk);
    let ghost sent = out@;
    let mut first = String::new();
    first.append("get file start-block ");
    first.append(id.as_str());
    first.append("\n");
    let mut second = String::new();
    second.append("get file num-blocks ");
    second.append(id.as_str());
    second.append("\n");
    assert(first@ =~= "get file start-block "@ + id@ + "\n"@);
    assert(second@ =~= "get file num-blocks "@ + id@ + "\n"@);
    append_bytes(&mut out, first.as_str().as_bytes());
    append_bytes(&mut out, second.as_str().as_bytes());
    assert(out@ =~= sent + file_command(id@));
    out
}

/// How the place of a table is found.
pub enum PlaceRequest {
    /// It is known: the first block and the number of blocks. These buffered writes have to
    /// be sent.
    Known((u64, u64), Vec<u8>),
    /// These bytes have to be sent; the disk replies with two lines.
    Ask(Vec<u8>),
}

/// Says where a table lies, if it was asked for before, or gives the bytes that ask for it.
/// The buffered writes are sent either way.
pub fn find_table_place(meta: &TableMeta, disk: &mut DiskState, id: &String) -> (res: PlaceRequest)
    ensures
        match meta@(id@) {
            Some(place) => res matches PlaceRequest::Known(p, bytes) && p == place && bytes@ == old(
                disk,
            )@.buffer,
            None => res matches PlaceRequest::Ask(bytes) && bytes@ == old(disk)@.buffer
                + file_command(id@),
        },
        final(disk)@ == (Disk { buffer: Seq::empty(), ..old(disk)@ }),
        final(disk).cache == old(disk).cache,
{
    match meta.get(id) {
        Some(place) => PlaceRequest::Known(place, flush_disk_write_buffer(disk)),
        None => PlaceRequest::Ask(ask_table_place(disk, id)),
    }
}

/// The number that a line of the disk holds.
pub fn number_reply(line: &str) -> (res: Result<u64, DbError>)
    ensures
        match text::parsed(text::trimmed(line@)) {
            Some(n) => res matches Ok(m) && m == n,
            None => res matches Err(e) && e@ == Fault::InvalidNumber,
        },
{
    match parse_u64(trim(line).as_str()) {
        Some(n) => Ok(n),
        None => Err(DbError::InvalidNumber),
    }
}

// ---- predicates of a scan ----

/// What a compiled predicate compares with.
pub enum CompiledRight {
    Column(usize),
    Literal(Data),
}

/// A predicate whose columns are positions and whose literal has the type of its
/// column.
pub struct CompiledPredicate {
    pub left_idx: usize,
    pub operator: ComparisionOperator,
    pub right: CompiledRight,
    /// The rows of the table ascend in the column.
    pub ordered: bool,
}

/// The mathematical value of a [`CompiledRight`].
pub enum Rhs {
    Column(int),
    Literal(Val),
}

/// The mathematical value of a [`CompiledPredicate`].
pub struct Check {
    pub left: int,
    pub operator: ComparisionOperator,
    pub right: Rhs,
    pub ordered: bool,
}

impl DeepView for CompiledPredicate {
    type V = Check;

    open spec fn deep_view(&self) -> Check {
        Check {
            left: self.left_idx as int,
            operator: self.operator,
            right: match self.right {
                CompiledRight::Column(j) => Rhs::Column(j as int),
                CompiledRight::Literal(d) => Rhs::Literal(d.deep_view()),
            },
            ordered: self.ordered,
        }
    }
}

/// A predicate, compiled. One that names an unknown column, or whose literal has an
/// unsuitable type, has no compiled form.
pub open spec fn check_of(columns: Seq<Column>, test: Test, ordered: bool) -> Option<Check> {
    match schema::column_index(columns, test.column) {
        None => None,
        Some(i) => match test.value {
            Operand::Column(other) => match schema::column_index(columns, other) {
                None => None,
                Some(j) => Some(
                    Check { left: i, operator: test.operator, right: Rhs::Column(j), ordered },
                ),
            },
            literal => match row::coerced(literal, columns[i].data_type) {
                None => None,
                Some(v) => Some(
                    Check { left: i, operator: test.operator, right: Rhs::Literal(v), ordered },
                ),
            },
        },
    }
}

/// The predicates that have a compiled form, compiled.
pub open spec fn checks_of(columns: Seq<Column>, tests: Seq<Test>, ordered: Seq<bool>) -> Seq<Check>
    decreases tests.len(),
{
    if tests.len() == 0 {
        Seq::empty()
    } else {
        let before = checks_of(columns, tests.drop_last(), ordered);
        match check_of(columns, tests.last(), ordered[tests.len() - 1]) {
            Some(c) => before.push(c),
            None => before,
        }
    }
}

/// Whether a check names only columns of rows of this width.
pub open spec fn check_within(c: Check, width: nat) -> bool {
    &&& 0 <= c.left < width
    &&& c.right matches Rhs::Column(j) ==> 0 <= j < width
}

/// Whether all checks name only columns of rows of this width.
pub open spec fn checks_within(checks: Seq<Check>, width: nat) -> bool {
    forall|i: int| 0 <= i < checks.len() ==> check_within(#[trigger] checks[i], width)
}

/// What a scan makes of a row.
#[derive(Clone, Copy, Debug, PartialEq, Eq, Structural)]
pub enum PredicateResult {
    Pass,
    Fail,
    /// The row fails, and so does every row behind it.
    FailAndAbort,
}

/// The value that a check compares with.
pub open spec fn rhs_val(r: Seq<Val>, right: Rhs) -> Val {
    match right {
        Rhs::Column(j) => r[j],
        Rhs::Literal(v) => v,
    }
}

/// What one check makes of a row: where the column ascends, is compared with a literal and
/// is already beyond what can pass, the scan ends. What a row compares with another of its
/// columns says nothing of the rows behind it.
pub open spec fn check_verdict(r: Seq<Val>, c: Check) -> PredicateResult {
    let v = rhs_val(r, c.right);
    let o = value::val_order(r[c.left], v);
    if row::vals_compare(r[c.left], c.operator, v) {
        PredicateResult::Pass
    } else if c.ordered && c.right is Literal && beyond(o, c.operator) {
        PredicateResult::FailAndAbort
    } else {
        PredicateResult::Fail
    }
}

/// Whether a value that compares so is beyond what `EQ`, `LT` or `LTE` can admit.
pub open spec fn beyond(o: Option<Order>, op: ComparisionOperator) -> bool {
    match op {
        ComparisionOperator::EQ | ComparisionOperator::LTE => o == Some(Order::Greater),
        ComparisionOperator::LT => o == Some(Order::Greater) || o == Some(Order::Equal),
        _ => false,
    }
}

/// What all checks make of a row: the first that does not pass decides.
pub open spec fn verdict(r: Seq<Val>, checks: Seq<Check>) -> PredicateResult
    decreases checks.len(),
{
    if checks.len() == 0 {
        PredicateResult::Pass
    } else {
        match verdict(r, checks.drop_last()) {
            PredicateResult::Pass => check_verdict(r, checks.last()),
            other => other,
        }
    }
}

proof fn lemma_verdict_stops(r: Seq<Val>, checks: Seq<Check>, n: int)
    requires
        0 <= n <= checks.len(),
        verdict(r, checks.take(n)) != PredicateResult::Pass,
    ensures
        verdict(r, checks) == verdict(r, checks.take(n)),
    decreases checks.len() - n,
{
    if n == checks.len() {
        assert(checks.take(n) =~= checks);
    } else {
        assert(checks.take(n + 1).drop_last() =~= checks.take(n));
        lemma_verdict_stops(r, checks, n + 1);
    }
}

/// Compiles the predicates that have a compiled form.
pub fn compile_predicates(
    schema: &Vec<ColumnInfo>,
    preds: &Vec<Predicate>,
    ordered_cols: &Vec<bool>,
) -> (res: Vec<CompiledPredicate>)
    requires
        ordered_cols@.len() >= preds@.len(),
    ensures
        res.deep_view() == checks_of(schema.deep_view(), preds.deep_view(), ordered_cols@),
        checks_within(res.deep_view(), schema@.len()),
{
    let ghost (c, t) = (schema.deep_view(), preds.deep_view());
    let mut out: Vec<CompiledPredicate> = Vec::new();
    let mut i: usize = 0;
    assert(t.take(0) =~= Seq::empty());
    assert(out.deep_view() =~= Seq::<Check>::empty());
    while i < preds.len()
        invariant
            i <= preds@.len(),
            ordered_cols@.len() >= preds@.len(),
            c == schema.deep_view(),
            t == preds.deep_view(),
            out.deep_view() == checks_of(c, t.take(i as int), ordered_cols@),
            checks_within(out.deep_view(), schema@.len()),
        decreases preds@.len() - i,
    {
        proof {
            assert(t.take(i + 1).drop_last() =~= t.take(i as int));
            assert(t.take(i + 1).last() == t[i as int]);
        }
        match compile_predicate(schema, &preds[i], ordered_cols[i]) {
            Some(p) => {
                let ghost before = out.deep_view();
                out.push(p);
                assert(out.deep_view() =~= before.push(p.deep_view()));
            },
            None => {},
        }
        i += 1;
    }
    assert(t.take(i as int) =~= t);
    out
}

fn compile_predicate(schema: &Vec<ColumnInfo>, pred: &Predicate, ordered: bool) -> (res: Option<
    CompiledPredicate,
>)
    ensures
        match res {
            Some(p) => check_of(schema.deep_view(), pred.deep_view(), ordered) == Some(
                p.deep_view(),
            ) && check_within(p.deep_view(), schema@.len()),
            None => check_of(schema.deep_view(), pred.deep_view(), ordered) is None,
        },
{
    let left_idx = match find_column(schema, &pred.column_name) {
        Some(i) => i,
        None => {
            return None;
        },
    };
    let right = match &pred.value {
        ComparisionValue::Column(other) => match find_column(schema, other) {
            Some(j) => CompiledRight::Column(j),
            None => {
                return None;
            },
        },
        literal => match coerce_literal(literal, &schema[left_idx].data_type) {
            Some(v) => CompiledRight::Literal(v),
            None => {
                return None;
            },
        },
    };
    Some(CompiledPredicate { left_idx, operator: pred.operator, right, ordered })
}

/// Makes one check of a row.
fn apply_compiled_predicate(row: &Vec<Data>, pred: &CompiledPredicate) -> (res: PredicateResult)
    requires
        check_within(pred.deep_view(), row@.len()),
    ensures
        res == check_verdict(row.deep_view(), pred.deep_view()),
{
    let left = &row[pred.left_idx];
    let right: &Data = match &pred.right {
        CompiledRight::Column(j) => &row[*j],
        CompiledRight::Literal(v) => v,
    };
    if compare_data(left, &pred.operator, right) {
        return PredicateResult::Pass;
    }
    if pred.ordered && matches!(pred.right, CompiledRight::Literal(_)) {
        let o = left.order(right);
        let abort = match pred.operator {
            ComparisionOperator::EQ | ComparisionOperator::LTE => matches!(o, Some(Order::Greater)),
            ComparisionOperator::LT => matches!(o, Some(Order::Greater) | Some(Order::Equal)),
            _ => false,
        };
        if abort {
            return PredicateResult::FailAndAbort;
        }
    }
    PredicateResult::Fail
}

/// Makes all checks of a row, up to the first that does not pass.
pub fn apply_compiled_predicates(row: &Vec<Data>, compiled: &Vec<CompiledPredicate>) -> (res:
    PredicateResult)
    requires
        checks_within(compiled.deep_view(), row@.len()),
    ensures
        res == verdict(row.deep_view(), compiled.deep_view()),
{
    let ghost (r, c) = (row.deep_view(), compiled.deep_view());
    let mut i: usize = 0;
    assert(c.take(0) =~= Seq::empty());
    while i < compiled.len()
        invariant
            i <= compiled@.len(),
            checks_within(c, row@.len()),
            r == row.deep_view(),
            c == compiled.deep_view(),
            verdict(r, c.take(i as int)) == PredicateResult::Pass,
        decreases compiled@.len() - i,
    {
        proof {
            assert(c.take(i + 1).drop_last() =~= c.take(i as int));
            assert(c.take(i + 1).last() == c[i as int]);
        }
        match apply_compiled_predicate(row, &compiled[i]) {
            PredicateResult::Pass => {},
            other => {
                proof {
                    lemma_verdict_stops(r, c, i + 1);
                }
                return other;
            },
        }
        i += 1;
    }
    assert(c.take(i as int) =~= c);
    PredicateResult::Pass
}

// ---- statistics ----

/// Whether a statistic says that no row can pass a comparison with `v`.
pub open spec fn excludes(stat: Stat, op: ComparisionOperator, v: Val) -> bool {
    match stat {
        Stat::Range(r) => !match op {
            ComparisionOperator::EQ => in_range(r, v),
            ComparisionOperator::LT => row::vals_compare(r.lower, ComparisionOperator::LT, v),
            ComparisionOperator::LTE => row::vals_compare(r.lower, ComparisionOperator::LTE, v),
            ComparisionOperator::GT => row::vals_compare(r.upper, ComparisionOperator::GT, v),
            ComparisionOperator::GTE => row::vals_compare(r.upper, ComparisionOperator::GTE, v),
            ComparisionOperator::NE => true,
        },
        Stat::Histogram(h) => op == ComparisionOperator::EQ && !in_some_range(h, v),
        _ => false,
    }
}

/// Whether a value lies within a range of a histogram.
pub open spec fn in_some_range(h: Seq<(Range, u64)>, v: Val) -> bool {
    exists|i: int| 0 <= i < h.len() && in_range((#[trigger] h[i]).0, v)
}

/// Whether a statistic among these says that no row can pass a comparison.
pub open spec fn some_excludes(stats: Seq<Stat>, op: ComparisionOperator, v: Val) -> bool {
    exists|k: int| 0 <= k < stats.len() && excludes(#[trigger] stats[k], op, v)
}

/// Whether a value lies within a range.
pub open spec fn in_range(r: Range, v: Val) -> bool {
    &&& row::vals_compare(r.lower, ComparisionOperator::LTE, v)
    &&& row::vals_compare(r.upper, ComparisionOperator::GTE, v)
}

/// Whether the statistics of a table say that no row can pass a test.
pub open spec fn test_excluded(t: Table, test: Test) -> bool {
    match query::spec_index(t.columns, test.column) {
        None => false,
        Some(i) => match (t.columns[i].stats, row::coerced(test.value, t.columns[i].data_type)) {
            (Some(stats), Some(v)) => some_excludes(stats, test.operator, v),
            _ => false,
        },
    }
}

/// Whether the statistics of a table say that no row can pass all tests.
pub open spec fn table_excluded(t: Table, tests: Seq<Test>) -> bool {
    exists|i: int| 0 <= i < tests.len() && test_excluded(t, #[trigger] tests[i])
}

/// Whether the rows of a table ascend in the column of a test.
pub open spec fn test_ordered(t: Table, test: Test) -> bool {
    match query::spec_index(t.columns, test.column) {
        None => false,
        Some(i) => match t.columns[i].stats {
            Some(stats) => stats.contains(Stat::PhysicallyOrdered),
            None => false,
        },
    }
}

fn range_holds(r: &RangeStat, v: &Data) -> (res: bool)
    ensures
        res == in_range(r.deep_view(), v.deep_view()),
{
    compare_data(&r.lower_bound, &ComparisionOperator::LTE, v) && compare_data(
        &r.upper_bound,
        &ComparisionOperator::GTE,
        v,
    )
}

fn stat_excludes(stat: &ColumnStat, op: &ComparisionOperator, v: &Data) -> (res: bool)
    ensures
        res == excludes(stat.deep_view(), *op, v.deep_view()),
{
    match stat {
        ColumnStat::RangeStat(r) => {
            let can_match = match op {
                ComparisionOperator::EQ => range_holds(r, v),
                ComparisionOperator::LT | ComparisionOperator::LTE => compare_data(
                    &r.lower_bound,
                    op,
                    v,
                ),
                ComparisionOperator::GT | ComparisionOperator::GTE => compare_data(
                    &r.upper_bound,
                    op,
                    v,
                ),
                ComparisionOperator::NE => true,
            };
            !can_match
        },
        ColumnStat::HistogramStat(h) => {
            if !matches!(op, ComparisionOperator::EQ) {
                return false;
            }
            let ghost m = h.deep_view();
            let mut i: usize = 0;
            while i < h.len()
                invariant
                    i <= h@.len(),
                    m == h.deep_view(),
                    stat.deep_view() == Stat::Histogram(m),
                    forall|j: int| 0 <= j < i ==> !in_range((#[trigger] m[j]).0, v.deep_view()),
                decreases h@.len() - i,
            {
                if range_holds(&h[i].0, v) {
                    assert(in_range(m[i as int].0, v.deep_view()));
                    assert(in_some_range(m, v.deep_view()));
                    return false;
                }
                i += 1;
            }
            true
        },
        _ => false,
    }
}

fn predicate_excluded(table: &TableSpec, pred: &Predicate) -> (res: bool)
    ensures
        res == test_excluded(table.deep_view(), pred.deep_view()),
{
    let i = match table.find_spec(&pred.column_name) {
        Some(i) => i,
        None => {
            return false;
        },
    };
    let spec = &table.column_specs[i];
    let ghost c = table.deep_view().columns[i as int];
    assert(c == spec.deep_view());
    let stats = match &spec.stats {
        Some(s) => s,
        None => {
            return false;
        },
    };
    let v = match coerce_literal(&pred.value, &spec.data_type) {
        Some(v) => v,
        None => {
            return false;
        },
    };
    let ghost m = stats.deep_view();
    assert(c.stats == Some(m));
    let mut k: usize = 0;
    while k < stats.len()
        invariant
            k <= stats@.len(),
            m == stats.deep_view(),
            c.stats == Some(m),
            query::spec_index(table.deep_view().columns, pred.deep_view().column) == Some(i as int),
            c == table.deep_view().columns[i as int],
            row::coerced(pred.deep_view().value, c.data_type) == Some(v.deep_view()),
            forall|j: int|
                0 <= j < k ==> !excludes(#[trigger] m[j], pred.operator, v.deep_view()),
        decreases stats@.len() - k,
    {
        if stat_excludes(&stats[k], &pred.operator, &v) {
            assert(excludes(m[k as int], pred.operator, v.deep_view()));
            assert(some_excludes(m, pred.operator, v.deep_view()));
            return true;
        }
        k += 1;
    }
    false
}

/// Says whether the statistics of a table show that no row passes all predicates.
pub fn prunes_table(table: &TableSpec, preds: &Vec<Predicate>) -> (res: bool)
    ensures
        res == table_excluded(table.deep_view(), preds.deep_view()),
{
    let ghost t = preds.deep_view();
    let mut i: usize = 0;
    while i < preds.len()
        invariant
            i <= preds@.len(),
            t == preds.deep_view(),
            forall|j: int| 0 <= j < i ==> !test_excluded(table.deep_view(), #[trigger] t[j]),
        decreases preds@.len() - i,
    {
        if predicate_excluded(table, &preds[i]) {
            assert(test_excluded(table.deep_view(), t[i as int]));
            return true;
        }
        i += 1;
    }
    false
}

/// Says whether the rows of a table ascend in the column of a predicate.
fn is_ordered(table: &TableSpec, pred: &Predicate) -> (res: bool)
    ensures
        res == test_ordered(table.deep_view(), pred.deep_view()),
{
    match table.find_spec(&pred.column_name) {
        Some(i) => {
            assert(table.deep_view().columns[i as int] == table.column_specs[i as int].deep_view());
            match &table.column_specs[i].stats {
                Some(stats) => says_ordered(stats),
                None => false,
            }
        },
        None => false,
    }
}

/// Says whether statistics hold that the table ascends in the column.
pub fn says_ordered(stats: &Vec<ColumnStat>) -> (res: bool)
    ensures
        res == stats.deep_view().contains(Stat::PhysicallyOrdered),
{
    let ghost m = stats.deep_view();
    let mut k: usize = 0;
    while k < stats.len()
        invariant
            k <= stats@.len(),
            m == stats.deep_view(),
            forall|j: int| 0 <= j < k ==> (#[trigger] m[j]) != Stat::PhysicallyOrdered,
        decreases stats@.len() - k,
    {
        assert(m[k as int] == stats@[k as int].deep_view());
        if matches!(stats[k], ColumnStat::IsPhysicallyOrdered) {
            assert(m.contains(m[k as int]));
            return true;
        }
        k += 1;
    }
    false
}

/// Which tests are on a column in which the rows of the table ascend.
pub open spec fn tests_ordered(t: Table, tests: Seq<Test>) -> Seq<bool> {
    tests.map_values(|test: Test| test_ordered(t, test))
}

pub fn ordered_columns(table: &TableSpec, preds: &Vec<Predicate>) -> (res: Vec<bool>)
    ensures
        res@ == tests_ordered(table.deep_view(), preds.deep_view()),
{
    let mut out: Vec<bool> = Vec::new();
    let mut i: usize = 0;
    while i < preds.len()
        invariant
            i <= preds@.len(),
            out@.len() == i,
            forall|j: int|
                0 <= j < i ==> #[trigger] out@[j] == test_ordered(
                    table.deep_view(),
                    preds@[j].deep_view(),
                ),
        decreases preds@.len() - i,
    {
        out.push(is_ordered(table, &preds[i]));
        i += 1;
    }
    assert(out@ =~= tests_ordered(table.deep_view(), preds.deep_view()));
    out
}

} // verus!
