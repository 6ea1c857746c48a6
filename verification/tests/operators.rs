use std::collections::HashMap;

use database::block::pack_rows_into_blocks;
use database::disk::{flush_disk_write_buffer, set_anon_block_base, DiskState};
use database::error::DbError;
use database::ops::cross::CrossJoin;
use database::ops::cross_output::CrossOutput;
use database::ops::join_output::JoinOutput;
use database::ops::joiner::{find_join_columns, HashJoiner};
use database::ops::scanner::Scanner;
use database::ops::sort::{find_sort_keys, order_rows, sort_positions};
use database::ops::sort_chunk::{chunk_limit_bytes, Run, SortInput};
use database::ops::sort_merge::RunWriter;
use database::ops::sort_output::{merge_pool_bytes, SortOutput};
use database::ops::{operator_budget_bytes, set_heavy_op_count, Action, HeavyOps};
use database::query::{
    ColumnSpec, ColumnStat, ComparisionOperator, ComparisionValue, Predicate, RangeStat, SortSpec,
    TableSpec,
};
use database::schema::ColumnInfo;
use database::value::{Data, DataType, Order};

const BLOCK: usize = 32;

/// A disk that carries out commands.
struct Blocks {
    blocks: HashMap<u64, Vec<u8>>,
    reads: usize,
}

impl Blocks {
    fn new() -> Blocks {
        Blocks { blocks: HashMap::new(), reads: 0 }
    }

    fn store(&mut self, start: u64, data: &[u8]) {
        for (i, block) in data.chunks(BLOCK).enumerate() {
            self.blocks.insert(start + i as u64, block.to_vec());
        }
    }

    fn carry_out(&mut self, bytes: &[u8]) {
        let mut at = 0;
        while at < bytes.len() {
            let end = at + bytes[at..].iter().position(|b| *b == b'\n').unwrap();
            let line = String::from_utf8(bytes[at..end].to_vec()).unwrap();
            let words: Vec<&str> = line.split(' ').collect();
            assert_eq!(words[0], "put");
            let start: u64 = words[2].parse().unwrap();
            let num: usize = words[3].parse().unwrap();
            self.store(start, &bytes[end + 1..end + 1 + num * BLOCK]);
            at = end + 1 + num * BLOCK;
        }
    }

    fn read(&mut self, start: u64, num: usize) -> Vec<u8> {
        self.reads += 1;
        (0..num as u64).flat_map(|i| self.blocks[&(start + i)].clone()).collect()
    }
}

fn disk() -> DiskState {
    let mut disk = DiskState::new();
    set_anon_block_base(&mut disk, 1000);
    disk
}

fn column(name: &str, data_type: DataType) -> ColumnInfo {
    ColumnInfo { name: name.to_string(), data_type }
}

fn ints(names: &[&str]) -> Vec<ColumnInfo> {
    names.iter().map(|n| column(n, DataType::Int32)).collect()
}

fn row(values: &[i32]) -> Vec<Data> {
    values.iter().map(|v| Data::Int32(*v)).collect()
}

fn numbers(row: &Vec<Data>) -> Vec<i32> {
    row.iter().map(|d| if let Data::Int32(v) = d { *v } else { panic!("not an integer") }).collect()
}

fn key(name: &str, ascending: bool) -> SortSpec {
    SortSpec { column_name: name.to_string(), ascending }
}

fn pred(name: &str, operator: ComparisionOperator, value: ComparisionValue) -> Predicate {
    Predicate { column_name: name.to_string(), operator, value }
}

fn sorted(mut rows: Vec<Vec<i32>>) -> Vec<Vec<i32>> {
    rows.sort();
    rows
}

// ---- memory ----

#[test]
fn memory_is_shared_between_heavy_operators() {
    let mut ops = HeavyOps { count: 1 };
    set_heavy_op_count(&mut ops, 0);
    assert_eq!(ops.count, 1);
    set_heavy_op_count(&mut ops, 4);
    assert_eq!(ops.count, 4);
    assert_eq!(operator_budget_bytes(&ops, 64), 64 * 1024 * 1024 * 12 / 100);
    set_heavy_op_count(&mut ops, 9);
    assert_eq!(operator_budget_bytes(&ops, 64), 45 * 1024 * 1024 / 10);
    assert!(10 * operator_budget_bytes(&ops, 64) + 19 * 1024 * 1024 <= 64 * 1024 * 1024);
    assert_eq!(operator_budget_bytes(&ops, 19), 0);
    assert_eq!(merge_pool_bytes(64), 64 * 1024 * 1024 * 30 / 100);
}

#[test]
fn a_wide_sort_gets_more_memory() {
    let specs = vec![
        key("l_returnflag", true),
        key("l_linestatus", true),
        key("l_orderkey", true),
        key("l_linenumber", true),
    ];
    assert_eq!(chunk_limit_bytes(100, &specs, 64), 64 * 1024 * 1024 * 45 / 100);
    assert_eq!(chunk_limit_bytes(100, &specs, 1000), 30 * 1024 * 1024);
    assert_eq!(chunk_limit_bytes(usize::MAX, &specs, 64), usize::MAX);
    assert_eq!(chunk_limit_bytes(100, &specs[..3].iter().map(|s| key(&s.column_name, true)).collect(), 64), 100);
}

#[test]
fn rows_in_memory_stay_within_their_limits() {
    let (mut disk, mut out) = (disk(), Vec::new());
    let mut join = CrossJoin::new(&ints(&["a"]), ints(&["b"]), None, BLOCK, 500);
    let mut joiner = HashJoiner::new(0, 0, BLOCK, 2000);
    let mut input = SortInput::new(ints(&["a"]), vec![(0, true)], BLOCK, 700);
    for i in 0..200 {
        join.push_right(&row(&[i]), &mut disk, &mut out);
        assert!(join.right_bytes < 500);
        joiner.push_right(&row(&[i]), &mut disk, &mut out);
        assert!(joiner.right_total <= 2000);
        input.push(&row(&[i]), &mut disk, &mut out).unwrap();
        assert!(input.chunk.weight < 700);
    }
    assert!(joiner.buckets.iter().any(|b| b.spilled));
}

// ---- scans ----

fn table(ordered: bool, range: Option<(i32, i32)>) -> TableSpec {
    let mut stats = Vec::new();
    if ordered {
        stats.push(ColumnStat::IsPhysicallyOrdered);
    }
    if let Some((low, high)) = range {
        stats.push(ColumnStat::RangeStat(RangeStat {
            lower_bound: Data::Int32(low),
            upper_bound: Data::Int32(high),
        }));
    }
    TableSpec {
        file_id: "t".to_string(),
        column_specs: vec![
            ColumnSpec { column_name: "a".to_string(), data_type: DataType::Int32, stats: Some(stats) },
            ColumnSpec { column_name: "b".to_string(), data_type: DataType::Int32, stats: None },
        ],
    }
}

fn scan(spec: &TableSpec, preds: &Vec<Predicate>, blocks: &mut Blocks, num: u64) -> Vec<Vec<i32>> {
    let mut scanner = Scanner::new(spec, preds, None, 5, num, BLOCK, 64);
    let mut rows = Vec::new();
    while let Some((start, n)) = scanner.request() {
        let data = blocks.read(start, n);
        scanner.accept(&data, &mut rows).unwrap();
    }
    rows.iter().map(numbers).collect()
}

fn stored_table() -> (Blocks, u64) {
    let rows: Vec<Vec<Data>> = (0..100).map(|i| row(&[i, i % 7])).collect();
    let data = pack_rows_into_blocks(&rows, BLOCK);
    let mut blocks = Blocks::new();
    blocks.store(5, &data);
    (blocks, (data.len() / BLOCK) as u64)
}

#[test]
fn a_scan_gives_the_rows_that_pass() {
    let (mut blocks, num) = stored_table();
    assert_eq!(num, 34);
    let all = scan(&table(false, None), &Vec::new(), &mut blocks, num);
    assert_eq!(all, (0..100).map(|i| vec![i, i % 7]).collect::<Vec<_>>());
    let some = vec![pred("b", ComparisionOperator::EQ, ComparisionValue::I64(3))];
    let passing = scan(&table(false, None), &some, &mut blocks, num);
    assert_eq!(passing, (0..100).filter(|i| i % 7 == 3).map(|i| vec![i, 3]).collect::<Vec<_>>());
}

#[test]
fn an_ordered_scan_skips_blocks_and_stops_early() {
    let (mut blocks, num) = stored_table();
    let equal = vec![pred("a", ComparisionOperator::EQ, ComparisionValue::I32(50))];
    assert_eq!(scan(&table(true, None), &equal, &mut blocks, num), vec![vec![50, 1]]);
    let reads = blocks.reads;
    assert!(reads <= 7);
    let less = vec![pred("a", ComparisionOperator::LT, ComparisionValue::I32(2))];
    assert_eq!(
        scan(&table(true, None), &less, &mut blocks, num),
        vec![vec![0, 0], vec![1, 1]]
    );
    let more = vec![pred("a", ComparisionOperator::GTE, ComparisionValue::I32(98))];
    assert_eq!(
        scan(&table(true, None), &more, &mut blocks, num),
        vec![vec![98, 0], vec![99, 1]]
    );
    for v in [-1, 0, 1, 33, 99, 100] {
        let p = vec![pred("a", ComparisionOperator::GT, ComparisionValue::I32(v))];
        assert_eq!(
            scan(&table(true, None), &p, &mut blocks, num),
            scan(&table(false, None), &p, &mut blocks, num)
        );
    }
}

#[test]
fn comparing_an_ordered_column_with_a_column_ends_no_scan() {
    let (mut blocks, num) = stored_table();
    for operator in [ComparisionOperator::EQ, ComparisionOperator::LT, ComparisionOperator::LTE] {
        let p = vec![pred("a", operator, ComparisionValue::Column("b".to_string()))];
        assert_eq!(
            scan(&table(true, None), &p, &mut blocks, num),
            scan(&table(false, None), &p, &mut blocks, num)
        );
    }
    let rows: Vec<Vec<Data>> = [[1, 0], [2, 2], [3, 1], [4, 4]].iter().map(|r| row(r)).collect();
    blocks.store(5, &pack_rows_into_blocks(&rows, BLOCK));
    let equal = vec![pred("a", ComparisionOperator::EQ, ComparisionValue::Column("b".to_string()))];
    assert_eq!(scan(&table(true, None), &equal, &mut blocks, 2), vec![vec![2, 2], vec![4, 4]]);
}

#[test]
fn a_literal_without_an_order_lets_no_row_pass() {
    let mut spec = table(true, None);
    spec.column_specs[0].data_type = DataType::Float64;
    let rows: Vec<Vec<Data>> =
        (0..20).map(|i| vec![Data::Float64((i as f64).to_bits()), Data::Int32(i)]).collect();
    let data = pack_rows_into_blocks(&rows, BLOCK);
    let nan = vec![pred("a", ComparisionOperator::GT, ComparisionValue::F64(f64::NAN.to_bits()))];
    let mut scanner = Scanner::new(&spec, &nan, None, 0, (data.len() / BLOCK) as u64, BLOCK, 64);
    let mut given = Vec::new();
    while let Some((start, n)) = scanner.request() {
        let at = start as usize * BLOCK;
        scanner.accept(&data[at..at + n * BLOCK].to_vec(), &mut given).unwrap();
    }
    assert!(given.is_empty());
}

#[test]
fn a_scan_outside_the_range_reads_nothing() {
    let (mut blocks, num) = stored_table();
    let p = vec![pred("a", ComparisionOperator::GT, ComparisionValue::I32(99))];
    assert!(scan(&table(false, Some((0, 99))), &p, &mut blocks, num).is_empty());
    assert_eq!(blocks.reads, 0);
    let q = vec![pred("a", ComparisionOperator::GTE, ComparisionValue::I32(99))];
    assert_eq!(scan(&table(false, Some((0, 99))), &q, &mut blocks, num), vec![vec![99, 1]]);
}

#[test]
fn a_scan_of_broken_blocks_fails() {
    let mut spec = table(false, None);
    spec.column_specs[1].data_type = DataType::String;
    let mut scanner = Scanner::new(&spec, &Vec::new(), None, 5, 1, BLOCK, 64);
    let mut data = vec![b'x'; BLOCK];
    data[BLOCK - 2] = 1;
    data[BLOCK - 1] = 0;
    let mut rows = Vec::new();
    assert_eq!(scanner.request(), Some((5, 1)));
    let mut more = data.clone();
    more[10] = 0xff;
    more[11] = 0;
    assert!(matches!(scanner.accept(&more, &mut rows), Err(DbError::InvalidUtf8)));
    assert!(rows.is_empty());
}

// ---- sorts ----

/// Sorts rows of two integers by the first, descending, and the second, with this memory.
fn sort_rows(rows: &[[i32; 2]], limit: usize, pool: usize) -> Vec<Vec<i32>> {
    let schema = ints(&["a", "b"]);
    let keys = find_sort_keys(&schema, &vec![key("a", false), key("b", true)]).unwrap();
    let (mut disk, mut blocks) = (disk(), Blocks::new());
    let mut input = SortInput::new(schema, keys, BLOCK, limit);
    let mut out = Vec::new();
    for r in rows {
        input.push(&row(r), &mut disk, &mut out).unwrap();
    }
    input.finish(&mut disk, &mut out).unwrap();
    let mut output = SortOutput::start(input, pool, &mut disk).unwrap();
    let mut given = Vec::new();
    loop {
        let action = output.step(&mut disk, &mut out).unwrap();
        out.append(&mut flush_disk_write_buffer(&mut disk));
        blocks.carry_out(&out);
        out.clear();
        match action {
            Action::Row(r) => given.push(numbers(&r)),
            Action::Fetch(start, n) => {
                let data = blocks.read(start, n);
                output.supply(data, n).unwrap();
            }
            Action::Again => {}
            Action::Done => return given,
        }
    }
}

fn expected_order(rows: &[[i32; 2]]) -> Vec<Vec<i32>> {
    let mut all: Vec<Vec<i32>> = rows.iter().map(|r| r.to_vec()).collect();
    all.sort_by_key(|r| (-r[0], r[1]));
    all
}

fn scattered(n: usize) -> Vec<[i32; 2]> {
    (0..n).map(|i| [((i * 7919) % 101) as i32, ((i * 31) % 17) as i32]).collect()
}

#[test]
fn a_sort_in_memory_sorts() {
    let rows = scattered(40);
    assert_eq!(sort_rows(&rows, usize::MAX, 1), expected_order(&rows));
    assert!(sort_rows(&[], usize::MAX, 1).is_empty());
}

#[test]
fn a_sort_with_runs_sorts() {
    let rows = scattered(200);
    assert_eq!(sort_rows(&rows, 2000, 1 << 20), expected_order(&rows));
    assert_eq!(sort_rows(&rows, 600, 0), expected_order(&rows));
}

#[test]
fn a_sort_with_too_many_runs_merges_in_rounds() {
    let rows = scattered(700);
    assert_eq!(sort_rows(&rows, 1, 1 << 20), expected_order(&rows));
}

#[test]
fn merged_runs_may_need_more_blocks_than_their_parts() {
    let schema = vec![column("s", DataType::String)];
    let keys = find_sort_keys(&schema, &vec![key("s", true)]).unwrap();
    let (mut disk, mut blocks) = (disk(), Blocks::new());
    let mut input = SortInput::new(schema, keys, BLOCK, 476);
    let mut out = Vec::new();
    let mut expected = Vec::new();
    for _ in 0..300 {
        for (digit, len) in [(1, 16), (2, 10), (3, 16), (4, 10)] {
            let text = format!("{}{}", digit, "x".repeat(len));
            input.push(&vec![Data::String(text.clone())], &mut disk, &mut out).unwrap();
            expected.push(text);
        }
    }
    input.finish(&mut disk, &mut out).unwrap();
    assert_eq!(input.runs.len(), 300);
    assert!(input.runs.iter().all(|r| r.num_blocks == 2));
    expected.sort();
    assert_eq!(disk.next_anon_block, 1600);
    let mut output = SortOutput::start(input, 1 << 20, &mut disk).unwrap();
    assert_eq!(disk.next_anon_block, 1600 + 512);
    let mut given = Vec::new();
    loop {
        let action = output.step(&mut disk, &mut out).unwrap();
        out.append(&mut flush_disk_write_buffer(&mut disk));
        blocks.carry_out(&out);
        out.clear();
        match action {
            Action::Row(r) => match &r[0] {
                Data::String(text) => given.push(text.clone()),
                _ => panic!("not a text"),
            },
            Action::Fetch(start, n) => {
                let data = blocks.read(start, n);
                output.supply(data, n).unwrap();
            }
            Action::Again => {}
            Action::Done => break,
        }
    }
    assert_eq!(given, expected);
}

#[test]
fn a_merged_run_of_rows_of_one_width_stays_in_its_blocks() {
    let schema = ints(&["a"]);
    let keys = find_sort_keys(&schema, &vec![key("a", true)]).unwrap();
    let (mut disk, mut blocks) = (disk(), Blocks::new());
    let mut input = SortInput::new(schema, keys, BLOCK, 1);
    let mut out = Vec::new();
    for i in 0..300 {
        input.push(&row(&[(i * 7) % 300]), &mut disk, &mut out).unwrap();
    }
    input.finish(&mut disk, &mut out).unwrap();
    assert_eq!((input.runs.len(), disk.next_anon_block), (300, 1300));
    let mut output = SortOutput::start(input, 1 << 20, &mut disk).unwrap();
    assert_eq!(disk.next_anon_block, 1556);
    let mut given = Vec::new();
    loop {
        let action = output.step(&mut disk, &mut out).unwrap();
        out.append(&mut flush_disk_write_buffer(&mut disk));
        blocks.carry_out(&out);
        out.clear();
        match action {
            Action::Row(r) => {
                assert_eq!(disk.next_anon_block, 1600);
                given.push(numbers(&r)[0]);
            }
            Action::Fetch(start, n) => {
                let data = blocks.read(start, n);
                output.supply(data, n).unwrap();
            }
            Action::Again => {}
            Action::Done => break,
        }
    }
    assert_eq!(given, (0..300).collect::<Vec<i32>>());
    assert_eq!(disk.next_anon_block, 1000);
}

#[test]
fn a_merged_run_is_written_as_it_grows() {
    let mut disk = disk();
    let mut blocks = Blocks::new();
    let mut writer = RunWriter::new(40, BLOCK);
    let mut out = Vec::new();
    for i in 0..2000 {
        writer.push(&row(&[i, -i]), &mut disk, &mut out);
    }
    let run: Run = writer.finish(&mut disk, &mut out);
    out.append(&mut flush_disk_write_buffer(&mut disk));
    blocks.carry_out(&out);
    assert_eq!((run.start_block, run.num_blocks), (40, 667));
    let rows: Vec<Vec<Data>> = (0..2000).map(|i| row(&[i, -i])).collect();
    assert_eq!(blocks.read(40, 667), pack_rows_into_blocks(&rows, BLOCK));
}

#[test]
fn rows_without_an_order_keep_their_place() {
    let keys = vec![(0, true)];
    let nan = || vec![Data::Float64(f64::NAN.to_bits())];
    let one = || vec![Data::Float64(1.0f64.to_bits())];
    assert_eq!(order_rows(&nan(), &one(), &keys), Order::Equal);
    assert_eq!(order_rows(&one(), &one(), &keys), Order::Equal);
    let same = vec![row(&[2]), row(&[1]), row(&[2]), row(&[1])];
    assert_eq!(sort_positions(&same, &vec![(0, true)]), vec![1, 3, 0, 2]);
    assert_eq!(sort_positions(&same, &vec![(0, false)]), vec![0, 2, 1, 3]);
}

#[test]
fn a_sort_by_an_unknown_column_fails() {
    let e = find_sort_keys(&ints(&["a"]), &vec![key("a", true), key("z", true)]);
    assert!(matches!(e, Err(DbError::SortColumn(n)) if n == "z"));
}

// ---- cross joins ----

fn cross_rows(
    left: &[i32],
    right: &[i32],
    predicates: Option<Vec<Predicate>>,
    limit: usize,
) -> Vec<Vec<i32>> {
    let (mut disk, mut blocks) = (disk(), Blocks::new());
    let mut join = CrossJoin::new(
        &ints(&["a"]),
        ints(&["b"]),
        predicates,
        BLOCK,
        limit,
    );
    let mut out = Vec::new();
    for r in right {
        join.push_right(&row(&[*r]), &mut disk, &mut out);
    }
    join.finish_right(&mut disk, &mut out);
    out.append(&mut flush_disk_write_buffer(&mut disk));
    blocks.carry_out(&out);
    if join.right_is_empty() {
        return Vec::new();
    }
    let mut output = CrossOutput::start(join, 1);
    let mut pairs = Vec::new();
    for l in left {
        if output.take_left(&row(&[*l]), &mut pairs).unwrap() {
            while let Action::Fetch(start, n) = output.step() {
                let data = blocks.read(start, n);
                output.supply(&data, n, &mut pairs).unwrap();
            }
        }
    }
    while let Action::Fetch(start, n) = output.step() {
        let data = blocks.read(start, n);
        output.supply(&data, n, &mut pairs).unwrap();
    }
    pairs.iter().map(numbers).collect()
}

fn all_pairs(left: &[i32], right: &[i32]) -> Vec<Vec<i32>> {
    left.iter().flat_map(|l| right.iter().map(move |r| vec![*l, *r])).collect()
}

#[test]
fn a_cross_join_in_memory_pairs_all_rows() {
    let (left, right) = ([1, 2, 2], [5, 6]);
    assert_eq!(cross_rows(&left, &right, None, usize::MAX), all_pairs(&left, &right));
    assert!(cross_rows(&left, &[], None, usize::MAX).is_empty());
    assert!(cross_rows(&[], &right, None, usize::MAX).is_empty());
}

#[test]
fn a_cross_join_with_blocks_pairs_all_rows() {
    let left: Vec<i32> = (0..30).collect();
    let right: Vec<i32> = (100..150).collect();
    for limit in [1, 500, 2000] {
        assert_eq!(sorted(cross_rows(&left, &right, None, limit)), all_pairs(&left, &right));
    }
}

#[test]
fn a_cross_join_tests_its_pairs() {
    let left: Vec<i32> = (0..20).collect();
    let p = || {
        Some(vec![pred(
            "a",
            ComparisionOperator::EQ,
            ComparisionValue::Column("b".to_string()),
        )])
    };
    let expected: Vec<Vec<i32>> = (5..20).map(|i| vec![i, i]).collect();
    let right: Vec<i32> = (5..40).collect();
    assert_eq!(cross_rows(&left, &right, p(), usize::MAX), expected);
    assert_eq!(sorted(cross_rows(&left, &right, p(), 400)), expected);
}

#[test]
fn a_failing_pair_stops_a_cross_join() {
    let p = vec![pred("z", ComparisionOperator::EQ, ComparisionValue::I32(1))];
    let mut join = CrossJoin::new(
        &ints(&["a"]),
        ints(&["b"]),
        Some(p),
        BLOCK,
        usize::MAX,
    );
    let mut disk = disk();
    join.push_right(&row(&[1]), &mut disk, &mut Vec::new());
    join.finish_right(&mut disk, &mut Vec::new());
    let mut output = CrossOutput::start(join, 1);
    let mut pairs = Vec::new();
    let e = output.take_left(&row(&[1]), &mut pairs);
    assert!(matches!(e, Err(DbError::PairColumn(n)) if n == "z"));
    assert!(pairs.is_empty());
}

// ---- hash joins ----

fn join_rows(left: &[[i32; 2]], right: &[[i32; 2]], budget: usize) -> (Vec<Vec<i32>>, usize) {
    let (l, r) = (ints(&["a", "b"]), ints(&["c", "d"]));
    let (lk, rk) =
        find_join_columns(&l, &r, &"b".to_string(), &"c".to_string()).unwrap();
    assert_eq!((lk, rk), (1, 0));
    let (mut disk, mut blocks) = (disk(), Blocks::new());
    let mut joiner = HashJoiner::new(lk, rk, BLOCK, budget);
    let (mut out, mut pairs) = (Vec::new(), Vec::new());
    for x in right {
        joiner.push_right(&row(x), &mut disk, &mut out);
    }
    joiner.finish_right(&mut disk, &mut out);
    for x in left {
        joiner.push_left(&row(x), &mut disk, &mut out, &mut pairs);
    }
    joiner.finish_left(&mut disk, &mut out);
    out.append(&mut flush_disk_write_buffer(&mut disk));
    blocks.carry_out(&out);
    let mut output = JoinOutput::start(joiner, l, r);
    loop {
        match output.step() {
            Action::Fetch(start, n) => {
                let data = blocks.read(start, n);
                output.supply(&data, n, &mut pairs).unwrap();
            }
            Action::Row(_) => panic!("pairs come with blocks"),
            Action::Again => {}
            Action::Done => return (pairs.iter().map(numbers).collect(), blocks.reads),
        }
    }
}

fn equal_pairs(left: &[[i32; 2]], right: &[[i32; 2]]) -> Vec<Vec<i32>> {
    let mut out = Vec::new();
    for l in left {
        for r in right {
            if l[1] == r[0] {
                out.push(vec![l[0], l[1], r[0], r[1]]);
            }
        }
    }
    out
}

#[test]
fn a_hash_join_in_memory_pairs_equal_keys() {
    let left = [[1, 5], [2, 6], [3, 5]];
    let right = [[5, 7], [9, 8], [5, 9]];
    let (pairs, reads) = join_rows(&left, &right, usize::MAX);
    assert_eq!(pairs, equal_pairs(&left, &right));
    assert_eq!(reads, 0);
}

#[test]
fn a_hash_join_with_blocks_pairs_equal_keys() {
    let left: Vec<[i32; 2]> = (0..300).map(|i| [i, i % 40]).collect();
    let right: Vec<[i32; 2]> = (0..120).map(|i| [i % 60, i]).collect();
    let expected = sorted(equal_pairs(&left, &right));
    for budget in [0, 1, 3000, 8000] {
        let (pairs, reads) = join_rows(&left, &right, budget);
        assert_eq!(sorted(pairs), expected);
        assert!(reads > 0);
    }
    let (pairs, reads) = join_rows(&left, &right, usize::MAX);
    assert_eq!(sorted(pairs), expected);
    assert_eq!(reads, 0);
}

#[test]
fn a_hash_join_holds_the_smaller_side() {
    let left: Vec<[i32; 2]> = (0..10).map(|i| [i, 3]).collect();
    let right: Vec<[i32; 2]> = (0..200).map(|i| [3, i]).collect();
    let (pairs, _) = join_rows(&left, &right, 1);
    assert_eq!(sorted(pairs), sorted(equal_pairs(&left, &right)));
}

#[test]
fn join_columns_have_to_be_there() {
    let (l, r) = (ints(&["a"]), ints(&["b"]));
    let name = |s: &str| s.to_string();
    let e = find_join_columns(&l, &r, &name("b"), &name("b"));
    assert!(matches!(e, Err(DbError::LeftJoinColumn(n)) if n == "b"));
    let e = find_join_columns(&l, &r, &name("a"), &name("a"));
    assert!(matches!(e, Err(DbError::RightJoinColumn(n)) if n == "a"));
}

// ---- plans ----

#[test]
fn a_sort_over_a_hash_join_shares_the_disk() {
    let left: Vec<[i32; 2]> = (0..200).map(|i| [(i * 13) % 200, i % 30]).collect();
    let right: Vec<[i32; 2]> = (0..60).map(|i| [i % 45, i]).collect();
    let (mut disk, mut blocks, mut out) = (disk(), Blocks::new(), Vec::new());
    let schema = ints(&["a", "b", "c", "d"]);
    let keys = find_sort_keys(&schema, &vec![key("a", true), key("d", false)]).unwrap();
    let mut input = SortInput::new(schema, keys, BLOCK, 900);
    let mut joiner = HashJoiner::new(1, 0, BLOCK, 1);
    for r in &right {
        joiner.push_right(&row(r), &mut disk, &mut out);
    }
    joiner.finish_right(&mut disk, &mut out);
    let mut pairs = Vec::new();
    for l in &left {
        joiner.push_left(&row(l), &mut disk, &mut out, &mut pairs);
        for p in pairs.drain(..) {
            input.push(&p, &mut disk, &mut out).unwrap();
        }
    }
    joiner.finish_left(&mut disk, &mut out);
    let mut output = JoinOutput::start(joiner, ints(&["a", "b"]), ints(&["c", "d"]));
    loop {
        out.append(&mut flush_disk_write_buffer(&mut disk));
        blocks.carry_out(&out);
        out.clear();
        match output.step() {
            Action::Fetch(start, n) => {
                let data = blocks.read(start, n);
                output.supply(&data, n, &mut pairs).unwrap();
                for p in pairs.drain(..) {
                    input.push(&p, &mut disk, &mut out).unwrap();
                }
            }
            Action::Row(p) => input.push(&p, &mut disk, &mut out).unwrap(),
            Action::Again => {}
            Action::Done => break,
        }
    }
    input.finish(&mut disk, &mut out).unwrap();
    assert!(input.runs.len() > 1);
    let mut sort = SortOutput::start(input, 1 << 20, &mut disk).unwrap();
    let mut given = Vec::new();
    loop {
        let action = sort.step(&mut disk, &mut out).unwrap();
        out.append(&mut flush_disk_write_buffer(&mut disk));
        blocks.carry_out(&out);
        out.clear();
        match action {
            Action::Row(r) => given.push(numbers(&r)),
            Action::Fetch(start, n) => {
                let data = blocks.read(start, n);
                sort.supply(data, n).unwrap();
            }
            Action::Again => {}
            Action::Done => break,
        }
    }
    let mut expected = equal_pairs(&left, &right);
    expected.sort_by_key(|r| (r[0], -r[3]));
    assert!(!expected.is_empty());
    assert_eq!(given, expected);
}
