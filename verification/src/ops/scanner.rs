//! The course of a scan: a search for the first block that can matter, and then
//! one run of blocks after the other.

use vstd::prelude::*;
use vstd::slice::slice_subrange;

use crate::block::read_count;
use crate::block;
use crate::error::{DbError, Fault};
use crate::ops::scan::{
    apply_compiled_predicates, compile_predicates, ordered_columns, prunes_table, Check,
    CompiledPredicate, PredicateResult,
};
use crate::ops::scan;
use crate::query::{ComparisionOperator, Operand, Predicate, Table, TableSpec, Test};
use crate::row::{coerce_literal, decode_row_partial};
use crate::row;
use crate::schema::{columns_of, find_column, Column, ColumnInfo};
use crate::schema;
use crate::seqs;
use crate::value::{Data, Order, Val};
use crate::value;

verus! {

/// How a part of a scan ended.
pub enum ScanEnd {
    /// The scan goes on.
    More,
    /// No row behind this part can pass.
    Aborted,
    /// A row could not be decoded.
    Failed(Fault),
}

/// The rows that pass among the next `n` rows of a block.
pub open spec fn scan_block(
    data: Seq<u8>,
    offset: int,
    n: nat,
    columns: Seq<Column>,
    wanted: Option<Seq<bool>>,
    checks: Seq<Check>,
) -> (Seq<Seq<Val>>, ScanEnd)
    decreases n,
{
    if n == 0 {
        (Seq::empty(), ScanEnd::More)
    } else {
        match row::decode_some(data, offset, columns, wanted) {
            Err(e) => (Seq::empty(), ScanEnd::Failed(e)),
            Ok((r, end)) => match scan::verdict(r, checks) {
                PredicateResult::FailAndAbort => (Seq::empty(), ScanEnd::Aborted),
                PredicateResult::Fail => scan_block(
                    data,
                    end,
                    (n - 1) as nat,
                    columns,
                    wanted,
                    checks,
                ),
                PredicateResult::Pass => {
                    let rest = scan_block(data, end, (n - 1) as nat, columns, wanted, checks);
                    (seq![r] + rest.0, rest.1)
                },
            },
        }
    }
}

/// The rows that pass in the blocks `from` to `n` of the data.
pub open spec fn scan_chunk(
    data: Seq<u8>,
    block_size: nat,
    from: nat,
    n: nat,
    columns: Seq<Column>,
    wanted: Option<Seq<bool>>,
    checks: Seq<Check>,
) -> (Seq<Seq<Val>>, ScanEnd)
    decreases n - from,
{
    if from >= n {
        (Seq::empty(), ScanEnd::More)
    } else {
        let b = block::nth_block(data, block_size, from as int);
        let here = scan_block(b, 0, block::block_count(b, block_size), columns, wanted, checks);
        match here.1 {
            ScanEnd::More => {
                let rest = scan_chunk(data, block_size, from + 1, n, columns, wanted, checks);
                (here.0 + rest.0, rest.1)
            },
            other => (here.0, other),
        }
    }
}

/// The state of a scan.
pub enum ScanPhase {
    /// The first row of block `low + (high - low) / 2` decides in which half the
    /// search goes on; blocks before `best` hold nothing that can pass.
    Search { col: usize, target: Data, low: u64, high: u64, best: u64 },
    /// The blocks from `next` on are read.
    Read { next: u64, remaining: u64 },
}

/// A scan of a table.
pub struct Scanner {
    pub schema: Vec<ColumnInfo>,
    pub compiled: Vec<CompiledPredicate>,
    pub wanted: Option<Vec<bool>>,
    pub start: u64,
    pub num: u64,
    pub chunk_blocks: u64,
    pub block_size: usize,
    pub phase: ScanPhase,
}

/// The mathematical value of a [`ScanPhase`].
pub enum Phase {
    Search { col: int, target: Val, low: int, high: int, best: int },
    Read { next: int, remaining: int },
}

/// The mathematical value of a [`Scanner`].
pub struct Scan {
    pub columns: Seq<Column>,
    pub checks: Seq<Check>,
    pub wanted: Option<Seq<bool>>,
    pub start: int,
    pub num: int,
    pub chunk: int,
    pub block_size: nat,
    pub phase: Phase,
}

/// The mathematical value of the wanted columns.
pub open spec fn wanted_view(wanted: Option<Vec<bool>>) -> Option<Seq<bool>> {
    match wanted {
        Some(w) => Some(w@),
        None => None,
    }
}

impl View for Scanner {
    type V = Scan;

    open spec fn view(&self) -> Scan {
        Scan {
            columns: self.schema.deep_view(),
            checks: self.compiled.deep_view(),
            wanted: wanted_view(self.wanted),
            start: self.start as int,
            num: self.num as int,
            chunk: self.chunk_blocks as int,
            block_size: self.block_size as nat,
            phase: match self.phase {
                ScanPhase::Search { col, target, low, high, best } => Phase::Search {
                    col: col as int,
                    target: target.deep_view(),
                    low: low as int,
                    high: high as int,
                    best: best as int,
                },
                ScanPhase::Read { next, remaining } => Phase::Read {
                    next: next as int,
                    remaining: remaining as int,
                },
            },
        }
    }
}

impl Scan {
    /// Whether the parts of a scan fit together.
    pub open spec fn wf(self) -> bool {
        &&& self.block_size >= 2
        &&& 1 <= self.chunk <= 512
        &&& self.num >= 0
        &&& 0 <= self.start
        &&& self.start + self.num <= u64::MAX
        &&& scan::checks_within(self.checks, self.columns.len())
        &&& self.wanted matches Some(w) ==> w.len() >= self.columns.len()
        &&& match self.phase {
            Phase::Search { col, target, low, high, best } => {
                &&& 0 <= col < self.columns.len()
                &&& 0 <= best <= low < high <= self.num
            },
            Phase::Read { next, remaining } => {
                &&& 0 <= next
                &&& 0 <= remaining
                &&& next + remaining <= self.start + self.num
            },
        }
    }
}

/// The search that a scan starts with: on the first test of the kind `EQ`, `GT` or
/// `GTE` whose column ascends and whose literal suits the column.
pub open spec fn search_of(t: Table, columns: Seq<Column>, tests: Seq<Test>, i: int) -> Option<
    (int, Val),
>
    decreases tests.len() - i,
{
    if i < 0 || i >= tests.len() {
        None
    } else {
        let found = match schema::column_index(columns, tests[i].column) {
            Some(c) => match row::coerced(tests[i].value, columns[c].data_type) {
                Some(v) => Some((c, v)),
                None => None,
            },
            None => None,
        };
        if scan::test_ordered(t, tests[i]) && bounded_below(tests[i].operator) && found is Some {
            found
        } else {
            search_of(t, columns, tests, i + 1)
        }
    }
}

/// Whether the operator admits no value below the literal.
pub open spec fn bounded_below(op: ComparisionOperator) -> bool {
    op == ComparisionOperator::EQ || op == ComparisionOperator::GT || op
        == ComparisionOperator::GTE
}

/// The number of blocks that a scan reads at once: 5 percent of the memory, at
/// least one block and at most 512.
pub open spec fn chunk_size(memory_limit_mb: int, block_size: int) -> int {
    let n = memory_limit_mb * 1024 * 1024 * 5 / 100 / block_size;
    if n < 1 {
        1
    } else if n > 512 {
        512
    } else {
        n
    }
}

/// The search is over: the blocks from the best one on are read.
pub open spec fn settled(s: Scan, col: int, target: Val, low: int, high: int, best: int) -> Phase {
    if low < high {
        Phase::Search { col, target, low, high, best }
    } else {
        Phase::Read { next: s.start + best, remaining: s.num - best }
    }
}

/// A scan of a table at its start. Where the statistics show that no row passes,
/// nothing is read.
pub open spec fn scan_start(
    t: Table,
    tests: Seq<Test>,
    wanted: Option<Seq<bool>>,
    start: int,
    num: int,
    block_size: nat,
    memory_limit_mb: int,
) -> Scan {
    let columns = schema::table_columns(t);
    let s = Scan {
        columns,
        checks: scan::checks_of(columns, tests, scan::tests_ordered(t, tests)),
        wanted,
        start,
        num,
        chunk: chunk_size(memory_limit_mb, block_size as int),
        block_size,
        phase: Phase::Read { next: start, remaining: 0 },
    };
    let phase = if scan::table_excluded(t, tests) {
        Phase::Read { next: start, remaining: 0 }
    } else {
        match search_of(t, columns, tests, 0) {
            Some((c, v)) => settled(s, c, v, 0, num, 0),
            None => Phase::Read { next: start, remaining: num },
        }
    };
    Scan { phase, ..s }
}

/// The blocks that a scan reads next: the first of them and their number.
pub open spec fn scan_request(s: Scan) -> Option<(int, int)> {
    match s.phase {
        Phase::Search { low, high, .. } => Some((s.start + low + (high - low) / 2, 1)),
        Phase::Read { next, remaining } => if remaining == 0 {
            None
        } else if remaining < s.chunk {
            Some((next, remaining))
        } else {
            Some((next, s.chunk))
        },
    }
}

/// What a scan makes of the blocks it asked for: its next state, the rows that
/// pass, and what went wrong.
pub open spec fn scan_accept(s: Scan, data: Seq<u8>) -> (Scan, Seq<Seq<Val>>, Option<Fault>) {
    match s.phase {
        Phase::Search { col, target, low, high, best } => {
            let mid = low + (high - low) / 2;
            if block::block_count(data, s.block_size) == 0 {
                (
                    Scan { phase: settled(s, col, target, mid + 1, high, best), ..s },
                    Seq::empty(),
                    None,
                )
            } else {
                match row::decode_some(data, 0, s.columns, s.wanted) {
                    Err(e) => (
                        Scan { phase: Phase::Read { next: s.start, remaining: 0 }, ..s },
                        Seq::empty(),
                        Some(e),
                    ),
                    Ok((r, _)) => {
                        let phase = if at_least(value::val_order(r[col], target)) {
                            settled(s, col, target, low, mid, best)
                        } else {
                            settled(s, col, target, mid + 1, high, mid)
                        };
                        (Scan { phase, ..s }, Seq::empty(), None)
                    },
                }
            }
        },
        Phase::Read { next, remaining } => {
            let n = if remaining < s.chunk {
                remaining
            } else {
                s.chunk
            };
            let got = scan_chunk(
                data,
                s.block_size,
                0,
                n as nat,
                s.columns,
                s.wanted,
                s.checks,
            );
            match got.1 {
                ScanEnd::More => (
                    Scan { phase: Phase::Read { next: next + n, remaining: remaining - n }, ..s },
                    got.0,
                    None,
                ),
                ScanEnd::Aborted => (
                    Scan { phase: Phase::Read { next: s.start, remaining: 0 }, ..s },
                    got.0,
                    None,
                ),
                ScanEnd::Failed(e) => (
                    Scan { phase: Phase::Read { next: s.start, remaining: 0 }, ..s },
                    got.0,
                    Some(e),
                ),
            }
        },
    }
}

/// Whether a comparison says that a value is not below another.
pub open spec fn at_least(o: Option<Order>) -> bool {
    o == Some(Order::Greater) || o == Some(Order::Equal)
}

/// Compiled predicates name only columns of the table.
pub proof fn lemma_checks_within(columns: Seq<Column>, tests: Seq<Test>, ordered: Seq<bool>)
    ensures
        scan::checks_within(scan::checks_of(columns, tests, ordered), columns.len()),
    decreases tests.len(),
{
    if tests.len() > 0 {
        lemma_checks_within(columns, tests.drop_last(), ordered);
        let test = tests.last();
        seqs::lemma_first_where(columns, |c: Column| c.name == test.column);
        match test.value {
            Operand::Column(other) => {
                seqs::lemma_first_where(columns, |c: Column| c.name == other);
            },
            _ => {},
        }
    }
}

/// How a part of a scan ended, with the error.
pub enum End {
    More,
    Aborted,
    Failed(DbError),
}

impl View for End {
    type V = ScanEnd;

    open spec fn view(&self) -> ScanEnd {
        match *self {
            End::More => ScanEnd::More,
            End::Aborted => ScanEnd::Aborted,
            End::Failed(e) => ScanEnd::Failed(e@),
        }
    }
}

fn find_search(table: &TableSpec, schema: &Vec<ColumnInfo>, preds: &Vec<Predicate>, ordered: &Vec<
    bool,
>) -> (res: Option<(usize, Data)>)
    requires
        ordered@ == scan::tests_ordered(table.deep_view(), preds.deep_view()),
    ensures
        match res {
            Some((c, v)) => search_of(
                table.deep_view(),
                schema.deep_view(),
                preds.deep_view(),
                0,
            ) == Some((c as int, v.deep_view())) && c < schema@.len(),
            None => search_of(table.deep_view(), schema.deep_view(), preds.deep_view(), 0) is None,
        },
{
    let ghost (t, c, p) = (table.deep_view(), schema.deep_view(), preds.deep_view());
    let mut i: usize = 0;
    while i < preds.len()
        invariant
            i <= preds@.len(),
            ordered@ == scan::tests_ordered(t, p),
            t == table.deep_view(),
            c == schema.deep_view(),
            p == preds.deep_view(),
            search_of(t, c, p, 0) == search_of(t, c, p, i as int),
        decreases preds@.len() - i,
    {
        assert(p[i as int] == preds@[i as int].deep_view());
        let below = matches!(
            preds[i].operator,
            ComparisionOperator::EQ | ComparisionOperator::GT | ComparisionOperator::GTE
        );
        if ordered[i] && below {
            match find_column(schema, &preds[i].column_name) {
                Some(col) => match coerce_literal(&preds[i].value, &schema[col].data_type) {
                    Some(v) => {
                        return Some((col, v));
                    },
                    None => {},
                },
                None => {},
            }
        }
        i += 1;
    }
    None
}

fn scan_block_rows(
    data: &[u8],
    block_size: usize,
    schema: &Vec<ColumnInfo>,
    wanted: Option<&Vec<bool>>,
    compiled: &Vec<CompiledPredicate>,
    out: &mut Vec<Vec<Data>>,
) -> (res: End)
    requires
        2 <= block_size <= data@.len(),
        scan::checks_within(compiled.deep_view(), schema@.len()),
        wanted matches Some(w) ==> w@.len() >= schema@.len(),
    ensures
        ({
            let w = match wanted {
                Some(w) => Some(w@),
                None => None,
            };
            let got = scan_block(
                data@,
                0,
                block::block_count(data@, block_size as nat),
                schema.deep_view(),
                w,
                compiled.deep_view(),
            );
            final(out).deep_view() == old(out).deep_view() + got.0 && res@ == got.1
        }),
{
    let ghost w = match wanted {
        Some(w) => Some(w@),
        None => None,
    };
    let ghost (c, k) = (schema.deep_view(), compiled.deep_view());
    let count: usize = read_count(data, block_size);
    let ghost all = scan_block(data@, 0, count as nat, c, w, k);
    let ghost start = out.deep_view();
    let mut offset: usize = 0;
    let mut i: usize = 0;
    while i < count
        invariant
            i <= count,
            count == block::block_count(data@, block_size as nat),
            c == schema.deep_view(),
            k == compiled.deep_view(),
            scan::checks_within(k, schema@.len()),
            wanted matches Some(x) ==> x@.len() >= schema@.len(),
            w == (match wanted {
                Some(x) => Some(x@),
                None => None,
            }),
            start == old(out).deep_view(),
            all == scan_block(data@, 0, count as nat, c, w, k),
            ({
                let rest = scan_block(data@, offset as int, (count - i) as nat, c, w, k);
                start + all.0 == out.deep_view() + rest.0 && all.1 == rest.1
            }),
        decreases count - i,
    {
        let ghost rest = scan_block(data@, offset as int, (count - i) as nat, c, w, k);
        match decode_row_partial(data, offset, schema, wanted) {
            Err(e) => {
                assert(out.deep_view() + rest.0 =~= out.deep_view());
                return End::Failed(e);
            },
            Ok((r, end)) => {
                match apply_compiled_predicates(&r, compiled) {
                    PredicateResult::Pass => {
                        let ghost before = out.deep_view();
                        let ghost next = scan_block(
                            data@,
                            end as int,
                            (count - i - 1) as nat,
                            c,
                            w,
                            k,
                        );
                        out.push(r);
                        assert(out.deep_view() =~= before.push(r.deep_view()));
                        assert(before + (seq![r.deep_view()] + next.0) =~= out.deep_view() + next.0);
                    },
                    PredicateResult::Fail => {},
                    PredicateResult::FailAndAbort => {
                        assert(out.deep_view() + rest.0 =~= out.deep_view());
                        return End::Aborted;
                    },
                }
                offset = end;
            },
        }
        i += 1;
    }
    proof {
        let rest = scan_block(data@, offset as int, 0, c, w, k);
        assert(out.deep_view() + rest.0 =~= out.deep_view());
    }
    End::More
}

impl Scanner {
    /// Whether the parts of the scan fit together.
    pub open spec fn wf(self) -> bool {
        self@.wf()
    }

    /// Prepares a scan of the `num` blocks from `start` on.
    pub fn new(
        table: &TableSpec,
        preds: &Vec<Predicate>,
        wanted: Option<Vec<bool>>,
        start: u64,
        num: u64,
        block_size: usize,
        memory_limit_mb: u64,
    ) -> (res: Scanner)
        requires
            block_size >= 2,
            start + num <= u64::MAX,
            memory_limit_mb * 1024 * 1024 * 5 <= usize::MAX,
            wanted matches Some(w) ==> w@.len() >= table.column_specs@.len(),
        ensures
            res.wf(),
            res@ == scan_start(
                table.deep_view(),
                preds.deep_view(),
                wanted_view(wanted),
                start as int,
                num as int,
                block_size as nat,
                memory_limit_mb as int,
            ),
    {
        let schema = columns_of(table);
        assert(schema@.len() == schema.deep_view().len());
        let ordered = ordered_columns(table, preds);
        assert(preds.deep_view().len() == preds@.len());
        let compiled = compile_predicates(&schema, preds, &ordered);
        let n: usize = memory_limit_mb as usize * 1024 * 1024 * 5 / 100 / block_size;
        let chunk_blocks: u64 = if n < 1 {
            1
        } else if n > 512 {
            512
        } else {
            n as u64
        };
        let phase = if prunes_table(table, preds) {
            ScanPhase::Read { next: start, remaining: 0 }
        } else {
            match find_search(table, &schema, preds, &ordered) {
                Some((col, target)) => if num > 0 {
                    ScanPhase::Search { col, target, low: 0, high: num, best: 0 }
                } else {
                    ScanPhase::Read { next: start, remaining: num }
                },
                None => ScanPhase::Read { next: start, remaining: num },
            }
        };
        Scanner { schema, compiled, wanted, start, num, chunk_blocks, block_size, phase }
    }

    /// The blocks that the scan reads next, or nothing where it is over.
    pub fn request(&self) -> (res: Option<(u64, usize)>)
        requires
            self.wf(),
        ensures
            match res {
                Some((b, n)) => scan_request(self@) == Some((b as int, n as int)),
                None => scan_request(self@) is None,
            },
    {
        match &self.phase {
            ScanPhase::Search { low, high, .. } => Some((self.start + (*low + (*high - *low) / 2), 1)),
            ScanPhase::Read { next, remaining } => if *remaining == 0 {
                None
            } else if *remaining < self.chunk_blocks {
                Some((*next, *remaining as usize))
            } else {
                Some((*next, self.chunk_blocks as usize))
            },
        }
    }

    /// Takes the blocks that the scan asked for, and appends the rows that pass.
    pub fn accept(&mut self, data: &Vec<u8>, out: &mut Vec<Vec<Data>>) -> (res: Result<(), DbError>)
        requires
            old(self).wf(),
            scan_request(old(self)@) matches Some((_, n)) && data@.len() == n
                * old(self).block_size,
        ensures
            final(self).wf(),
            ({
                let got = scan_accept(old(self)@, data@);
                &&& final(self)@ == got.0
                &&& final(out).deep_view() == old(out).deep_view() + got.1
                &&& match res {
                    Ok(_) => got.2 is None,
                    Err(e) => got.2 == Some(e@),
                }
            }),
    {
        let ghost before = out.deep_view();
        match &self.phase {
            ScanPhase::Search { col, target, low, high, best } => {
                let (low, high, best): (u64, u64, u64) = (*low, *high, *best);
                let mid: u64 = low + (high - low) / 2;
                assert(before + Seq::<Seq<Val>>::empty() =~= before);
                assert(1 * self.block_size == self.block_size);
                if read_count(data.as_slice(), self.block_size) == 0 {
                    let (c, t) = (*col, target.clone());
                    self.phase = self.settle(c, t, mid + 1, high, best);
                    return Ok(());
                }
                let wanted = match &self.wanted {
                    Some(w) => Some(w),
                    None => None,
                };
                match decode_row_partial(data.as_slice(), 0, &self.schema, wanted) {
                    Err(e) => {
                        self.phase = ScanPhase::Read { next: self.start, remaining: 0 };
                        Err(e)
                    },
                    Ok((first, _)) => {
                        let (c, t) = (*col, target.clone());
                        if matches!(first[c].order(&t), Some(Order::Greater) | Some(Order::Equal)) {
                            self.phase = self.settle(c, t, low, mid, best);
                        } else {
                            self.phase = self.settle(c, t, mid + 1, high, mid);
                        }
                        Ok(())
                    },
                }
            },
            ScanPhase::Read { next, remaining } => {
                let n: u64 = if *remaining < self.chunk_blocks {
                    *remaining
                } else {
                    self.chunk_blocks
                };
                let after: u64 = *next + n;
                let left: u64 = *remaining - n;
                match self.scan_blocks(data, n, out) {
                    End::More => {
                        self.phase = ScanPhase::Read { next: after, remaining: left };
                        Ok(())
                    },
                    End::Aborted => {
                        self.phase = ScanPhase::Read { next: self.start, remaining: 0 };
                        Ok(())
                    },
                    End::Failed(e) => {
                        self.phase = ScanPhase::Read { next: self.start, remaining: 0 };
                        Err(e)
                    },
                }
            },
        }
    }

    fn settle(&self, col: usize, target: Data, low: u64, high: u64, best: u64) -> (res: ScanPhase)
        requires
            best <= self.num,
            self.start + self.num <= u64::MAX,
        ensures
            (Scanner { phase: res, ..*self })@.phase == settled(
                self@,
                col as int,
                target.deep_view(),
                low as int,
                high as int,
                best as int,
            ),
    {
        if low < high {
            ScanPhase::Search { col, target, low, high, best }
        } else {
            ScanPhase::Read { next: self.start + best, remaining: self.num - best }
        }
    }

    fn scan_blocks(&self, data: &Vec<u8>, n: u64, out: &mut Vec<Vec<Data>>) -> (res: End)
        requires
            self.wf(),
            data@.len() == n * self.block_size,
        ensures
            ({
                let got = scan_chunk(
                    data@,
                    self.block_size as nat,
                    0,
                    n as nat,
                    self@.columns,
                    self@.wanted,
                    self@.checks,
                );
                final(out).deep_view() == old(out).deep_view() + got.0 && res@ == got.1
            }),
    {
        let ghost bs = self.block_size as nat;
        let ghost (c, w, k) = (self@.columns, self@.wanted, self@.checks);
        let ghost all = scan_chunk(data@, bs, 0, n as nat, c, w, k);
        let ghost start = out.deep_view();
        let mut i: u64 = 0;
        let mut at: usize = 0;
        assert(0 * bs == 0);
        while i < n
            invariant
                i <= n,
                self.wf(),
                bs == self.block_size,
                data@.len() == n * bs,
                at == i * bs,
                c == self@.columns,
                w == self@.wanted,
                k == self@.checks,
                start == old(out).deep_view(),
                all == scan_chunk(data@, bs, 0, n as nat, c, w, k),
                ({
                    let rest = scan_chunk(data@, bs, i as nat, n as nat, c, w, k);
                    start + all.0 == out.deep_view() + rest.0 && all.1 == rest.1
                }),
            decreases n - i,
        {
            let ghost rest = scan_chunk(data@, bs, i as nat, n as nat, c, w, k);
            let ghost before = out.deep_view();
            assert((i + 1) * bs == i * bs + bs && (i + 1) * bs <= n * bs) by (nonlinear_arith)
                requires
                    i < n,
                    bs >= 0,
            ;
            assert(data@.len() == data.len());
            let block = slice_subrange(data.as_slice(), at, at + self.block_size);
            assert(block@ =~= block::nth_block(data@, bs, i as int));
            let wanted = match &self.wanted {
                Some(x) => Some(x),
                None => None,
            };
            let ghost here = scan_block(block@, 0, block::block_count(block@, bs), c, w, k);
            match scan_block_rows(
                block,
                self.block_size,
                &self.schema,
                wanted,
                &self.compiled,
                out,
            ) {
                End::More => {
                    let ghost next = scan_chunk(data@, bs, (i + 1) as nat, n as nat, c, w, k);
                    assert(before + (here.0 + next.0) =~= out.deep_view() + next.0);
                },
                other => {
                    assert(before + here.0 =~= out.deep_view());
                    return other;
                },
            }
            at = at + self.block_size;
            i += 1;
        }
        proof {
            let rest = scan_chunk(data@, bs, n as nat, n as nat, c, w, k);
            assert(out.deep_view() + rest.0 =~= out.deep_view());
        }
        End::More
    }
}

} // verus!
