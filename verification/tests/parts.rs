use database::cache::{CacheEntry, TwoQueueCache};
use database::error::DbError;
use database::ops::filter::{plan_filter, FilterPlan};
use database::ops::hash::{hash_data, is_same_key, BloomFilter, KeyTable};
use database::block::pack_rows_into_blocks;
use database::ops::hash_join::{find_bucket, GraceBuffer};
use database::ops::project::{
    find_sources, keep_indices, plan_project, positions_in, prepare_projection, wanted_columns,
    ProjectPlan, ScanColumns,
};
use database::ops::rows::pick;
use database::ops::scan::{
    apply_compiled_predicates, ask_table_place, compile_predicates, find_table_place, number_reply,
    ordered_columns, prunes_table, says_ordered, PlaceRequest, PredicateResult, TableMeta,
};
use database::disk::{write_blocks, DiskState};
use database::query::ComparisionOperator::{self, EQ, GT, LT, LTE, NE};
use database::query::{
    ColumnSpec, ColumnStat, ComparisionValue, CrossData, DbContext, FilterData, Predicate,
    ProjectData, QueryOp, RangeStat, ScanData, TableSpec,
};
use database::schema::ColumnInfo;
use database::value::{Data, DataType};

fn name(s: &str) -> String {
    s.to_string()
}

fn entry(start: u64, num: usize, byte: u8) -> CacheEntry {
    CacheEntry { start_block_id: start, num_blocks: num, data: vec![byte; num * 4] }
}

fn ints(names: &[&str]) -> Vec<ColumnInfo> {
    names
        .iter()
        .map(|n| ColumnInfo { name: name(n), data_type: DataType::Int32 })
        .collect()
}

fn row(values: &[i32]) -> Vec<Data> {
    values.iter().map(|v| Data::Int32(*v)).collect()
}

fn pred(column: &str, operator: ComparisionOperator, value: ComparisionValue) -> Predicate {
    Predicate { column_name: name(column), operator, value }
}

// ---- the cache ----

#[test]
fn a_cached_range_serves_its_parts() {
    let mut cache = TwoQueueCache::new();
    let mut e = entry(10, 3, 0);
    e.data = (0..12).collect();
    cache.insert(e, 100, 25);
    assert_eq!(cache.size_bytes, 12);
    assert_eq!(cache.lookup(11, 2, 4), Some(vec![4u8, 5, 6, 7, 8, 9, 10, 11]));
    assert_eq!(cache.lookup(12, 2, 4), None);
    assert_eq!(cache.lookup(9, 1, 4), None);
}

#[test]
fn a_full_cache_forgets_the_oldest() {
    let mut cache = TwoQueueCache::new();
    for i in 0..4 {
        cache.insert(entry(i, 1, i as u8), 12, 4);
    }
    assert!(cache.size_bytes <= 12);
    assert_eq!(cache.lookup(0, 1, 4), None);
    assert_eq!(cache.lookup(3, 1, 4), Some(vec![3u8; 4]));
    assert_eq!(cache.a1_out, vec![(0, 1)]);
    cache.insert(entry(0, 1, 9), 12, 4);
    assert_eq!(cache.am.len(), 1);
    assert_eq!(cache.lookup(0, 1, 4), Some(vec![9u8; 4]));
}

#[test]
fn a_range_larger_than_the_cache_is_not_kept() {
    let mut cache = TwoQueueCache::new();
    cache.insert(entry(0, 4, 1), 15, 4);
    assert_eq!(cache.size_bytes, 0);
    assert_eq!(cache.lookup(0, 1, 4), None);
}

#[test]
fn the_largest_of_the_hot_ranges_goes_first() {
    let mut cache = TwoQueueCache::new();
    for start in [0u64, 100, 200] {
        cache.a1_out.push((start, 4));
    }
    cache.insert(entry(0, 1, 1), 32, 16);
    cache.insert(entry(100, 4, 2), 32, 16);
    cache.insert(entry(200, 3, 3), 32, 16);
    assert_eq!(cache.am.len(), 3);
    cache.insert(entry(300, 2, 4), 32, 16);
    assert_eq!(cache.lookup(100, 1, 4), None);
    assert_eq!(cache.lookup(0, 1, 4), Some(vec![1u8; 4]));
    assert_eq!(cache.lookup(200, 3, 4), Some(vec![3u8; 12]));
}

#[test]
fn blocks_of_operators_are_forgotten() {
    let mut cache = TwoQueueCache::new();
    cache.insert(entry(5, 1, 1), 100, 25);
    cache.insert(entry(50, 1, 2), 100, 25);
    cache.retain_anon_blocks(50);
    assert_eq!(cache.size_bytes, 4);
    assert_eq!(cache.lookup(50, 1, 4), None);
    cache.remove_exact(5, 2);
    assert_eq!(cache.lookup(5, 1, 4), Some(vec![1u8; 4]));
    cache.remove_exact(5, 1);
    assert_eq!(cache.lookup(5, 1, 4), None);
    assert_eq!(cache.size_bytes, 0);
}

// ---- keys ----

#[test]
fn keys_are_found_by_hash() {
    let text = |s: &str| Data::String(name(s));
    assert_eq!(hash_data(&text("abc")), hash_data(&text("abc")));
    assert!(hash_data(&Data::Int32(1)) != hash_data(&Data::Int64(1)));
    assert!(find_bucket(&Data::Int32(77)) < 16);
    assert_eq!(find_bucket(&text("k")), (hash_data(&text("k")) % 16) as usize);
    assert!(is_same_key(&text("abc"), &text("abc")));
    assert!(!is_same_key(&Data::Int32(1), &Data::Int64(1)));
    let nan = Data::Float64(f64::NAN.to_bits());
    assert!(!is_same_key(&nan, &nan));
    let mut table = KeyTable::new(1);
    for r in [[1, 5], [2, 6], [3, 5]] {
        table.insert(row(&r));
    }
    let mut found = Vec::new();
    table.find(&Data::Int32(5), &mut found);
    assert_eq!(format!("{:?}", found), format!("{:?}", vec![row(&[1, 5]), row(&[3, 5])]));
    found.clear();
    table.find(&Data::Int32(7), &mut found);
    assert!(found.is_empty());
}

#[test]
fn a_bloom_filter_knows_its_keys() {
    let mut bloom = BloomFilter::new();
    assert!(!bloom.might_contain(&Data::Int32(1)));
    for i in 0..100 {
        bloom.insert(&Data::Int32(i));
    }
    for i in 0..100 {
        assert!(bloom.might_contain(&Data::Int32(i)));
    }
    assert!((1000..2000).filter(|i| bloom.might_contain(&Data::Int32(*i))).count() < 50);
}

// ---- scans ----

#[test]
fn the_places_of_tables_are_remembered() {
    let mut meta = TableMeta::new();
    assert_eq!(meta.get(&name("t")), None);
    meta.insert(&name("t"), (5, 9));
    meta.insert(&name("u"), (1, 2));
    meta.insert(&name("t"), (6, 9));
    assert_eq!(meta.get(&name("t")), Some((6, 9)));
    assert_eq!(meta.get(&name("u")), Some((1, 2)));
    let mut disk = DiskState::new();
    write_blocks(&mut disk, 1, 1, &vec![7u8]);
    assert_eq!(
        ask_table_place(&mut disk, &name("t")),
        b"put block 1 1\n\x07get file start-block t\nget file num-blocks t\n".to_vec()
    );
    write_blocks(&mut disk, 2, 1, &vec![8u8]);
    match find_table_place(&meta, &mut disk, &name("u")) {
        PlaceRequest::Known(place, bytes) => {
            assert_eq!(place, (1, 2));
            assert_eq!(bytes, b"put block 2 1\n\x08".to_vec());
        }
        PlaceRequest::Ask(_) => panic!("known"),
    }
    match find_table_place(&meta, &mut disk, &name("v")) {
        PlaceRequest::Known(_, _) => panic!("not known"),
        PlaceRequest::Ask(bytes) => assert_eq!(
            bytes,
            b"get file start-block v\nget file num-blocks v\n".to_vec()
        ),
    }
    assert_eq!(number_reply(" 12\n").unwrap(), 12);
    assert!(matches!(number_reply("no such file\n"), Err(DbError::InvalidNumber)));
}

fn table(stats: Vec<ColumnStat>) -> TableSpec {
    TableSpec {
        file_id: name("t"),
        column_specs: vec![
            ColumnSpec { column_name: name("a"), data_type: DataType::Int32, stats: Some(stats) },
            ColumnSpec { column_name: name("b"), data_type: DataType::Int32, stats: None },
        ],
    }
}

fn range(low: i32, high: i32) -> RangeStat {
    RangeStat { lower_bound: Data::Int32(low), upper_bound: Data::Int32(high) }
}

#[test]
fn statistics_exclude_tables() {
    let spec = table(vec![ColumnStat::RangeStat(range(10, 20))]);
    let excluded = |op: ComparisionOperator, v: i32| {
        prunes_table(&spec, &vec![pred("a", op, ComparisionValue::I32(v))])
    };
    assert!(excluded(EQ, 9) && !excluded(EQ, 10) && !excluded(EQ, 20) && excluded(EQ, 21));
    assert!(excluded(LT, 10) && !excluded(LT, 11) && excluded(LTE, 9) && !excluded(LTE, 10));
    assert!(excluded(GT, 20) && !excluded(GT, 19) && !excluded(NE, 0));
    assert!(!prunes_table(&spec, &vec![pred("b", EQ, ComparisionValue::I32(0))]));
    let hist = table(vec![ColumnStat::HistogramStat(vec![(range(0, 3), 5), (range(8, 9), 1)])]);
    let missing = |v: i32| prunes_table(&hist, &vec![pred("a", EQ, ComparisionValue::I32(v))]);
    assert!(!missing(3) && missing(4) && !missing(8) && missing(10));
    assert!(!prunes_table(&hist, &vec![pred("a", GT, ComparisionValue::I32(50))]));
}

#[test]
fn ordered_columns_stop_a_scan() {
    let spec = table(vec![ColumnStat::IsPhysicallyOrdered]);
    assert!(says_ordered(spec.column_specs[0].stats.as_ref().unwrap()));
    let preds = vec![
        pred("a", LT, ComparisionValue::I32(5)),
        pred("b", EQ, ComparisionValue::Column(name("a"))),
        pred("a", EQ, ComparisionValue::String(name("x"))),
        pred("zz", EQ, ComparisionValue::I32(1)),
    ];
    let ordered = ordered_columns(&spec, &preds);
    assert_eq!(ordered, vec![true, false, true, false]);
    let compiled = compile_predicates(&ints(&["a", "b"]), &preds, &ordered);
    assert_eq!(compiled.len(), 2);
    let outcome = |r: [i32; 2]| apply_compiled_predicates(&row(&r), &compiled);
    assert!(matches!(outcome([4, 4]), PredicateResult::Pass));
    assert!(matches!(outcome([4, 3]), PredicateResult::Fail));
    assert!(matches!(outcome([5, 5]), PredicateResult::FailAndAbort));
}

// ---- projections ----

#[test]
fn a_projection_takes_columns_in_order() {
    let columns = ints(&["a", "b", "c", "d"]);
    let map = |m: &[(&str, &str)]| -> Vec<(String, String)> {
        m.iter().map(|(x, y)| (name(x), name(y))).collect()
    };
    let p = prepare_projection(&columns, &map(&[("d", "x"), ("b", "y"), ("d", "z")])).unwrap();
    assert_eq!(p.indices, vec![3, 1, 3]);
    assert_eq!(p.columns.iter().map(|c| c.name.as_str()).collect::<Vec<_>>(), vec!["x", "y", "z"]);
    assert_eq!(keep_indices(&p.indices), vec![1, 3]);
    assert_eq!(positions_in(&vec![1, 3], &p.indices), vec![1, 0, 1]);
    assert_eq!(wanted_columns(&vec![1, 3], 4), vec![false, true, false, true]);
    assert_eq!(find_sources(&columns, &map(&[("a", "x"), ("q", "y")])), Err(name("q")));
    let e = prepare_projection(&columns, &map(&[("q", "y")]));
    assert!(matches!(e, Err(DbError::ProjectColumn(n)) if n == "q"));
    let s = ScanColumns::new(&p.indices, 4);
    let r = row(&[10, 11, 12, 13]);
    assert_eq!(
        format!("{:?}", pick(&pick(&r, &s.keep), &s.order)),
        format!("{:?}", pick(&r, &p.indices))
    );
}

#[test]
fn a_projection_is_carried_out_by_the_scan_below() {
    let ctx = DbContext { table_specs: vec![table(Vec::new())] };
    let over = |from: &str, below: QueryOp| ProjectData {
        column_name_map: vec![(name(from), name("x")), (name("a"), name("y"))],
        underlying: Box::new(below),
    };
    let scan = |id: &str| QueryOp::Scan(ScanData { table_id: name(id) });
    match plan_project(&over("b", scan("t")), &ctx) {
        Ok(ProjectPlan::Scan { indices, columns }) => {
            assert_eq!(indices, vec![1, 0]);
            assert_eq!(columns.wanted, vec![true, true]);
            assert_eq!((columns.keep, columns.order), (vec![0, 1], vec![1, 0]));
        }
        _ => panic!("not a scan"),
    }
    let filtered = || QueryOp::Filter(filter_over(Vec::new(), scan("t")));
    match plan_project(&over("b", filtered()), &ctx) {
        Ok(ProjectPlan::Stream { indices, width }) => assert_eq!((indices, width), (vec![1, 0], 2)),
        _ => panic!("not a stream"),
    }
    let e = plan_project(&over("q", filtered()), &ctx);
    assert!(matches!(e, Err(DbError::ProjectColumn(n)) if n == "q"));
    let e = plan_project(&over("b", scan("u")), &ctx);
    assert!(matches!(e, Err(DbError::TableNotFound(n)) if n == "u"));
}

// ---- filters ----

fn filter_over(predicates: Vec<Predicate>, underlying: QueryOp) -> FilterData {
    FilterData { predicates, underlying: Box::new(underlying) }
}

#[test]
fn a_filter_is_carried_out_where_it_is_cheapest() {
    let ctx = DbContext { table_specs: vec![table(Vec::new())] };
    let scan = || QueryOp::Scan(ScanData { table_id: name("t") });
    let renamed = |m: &[(&str, &str)]| {
        QueryOp::Project(ProjectData {
            column_name_map: m.iter().map(|(x, y)| (name(x), name(y))).collect(),
            underlying: Box::new(scan()),
        })
    };
    let p = || vec![pred("x", EQ, ComparisionValue::I32(1))];
    assert!(matches!(plan_filter(&filter_over(p(), scan()), &ctx), Ok(FilterPlan::Scan)));
    let cross = QueryOp::Cross(CrossData { left: Box::new(scan()), right: Box::new(scan()) });
    assert!(matches!(plan_filter(&filter_over(p(), cross), &ctx), Ok(FilterPlan::Cross)));
    match plan_filter(&filter_over(p(), renamed(&[("b", "x")])), &ctx) {
        Ok(FilterPlan::ProjectedScan { indices, predicates, .. }) => {
            assert_eq!(indices, vec![1]);
            assert_eq!(predicates[0].column_name, "b");
        }
        _ => panic!("not a projected scan"),
    }
    match plan_filter(&filter_over(p(), renamed(&[("b", "y")])), &ctx) {
        Ok(FilterPlan::Stream(columns)) => assert_eq!(columns[0].name, "y"),
        _ => panic!("not a stream"),
    }
    let e = plan_filter(&filter_over(p(), renamed(&[("q", "x")])), &ctx);
    assert!(matches!(e, Err(DbError::FilteredProjectColumn(n)) if n == "q"));
    let nested = QueryOp::Filter(filter_over(p(), QueryOp::Scan(ScanData { table_id: name("u") })));
    let e = plan_filter(&filter_over(p(), nested), &ctx);
    assert!(matches!(e, Err(DbError::TableNotFound(n)) if n == "u"));
}

#[test]
fn a_finished_buffer_holds_whole_blocks() {
    let rows: Vec<Vec<Data>> = (0..5).map(|i| vec![Data::Int32(i)]).collect();
    let mut buffer = GraceBuffer::new();
    for r in &rows {
        buffer.push_row(r, 11);
    }
    assert_eq!((buffer.total_bytes, buffer.writer.row_count), (20, 1));
    for _ in 0..2 {
        buffer.finish_block(11);
        assert_eq!(buffer.writer.bytes, pack_rows_into_blocks(&rows, 11));
        assert!(buffer.writer.current_block.is_empty());
        assert_eq!((buffer.total_bytes, buffer.writer.row_count), (20, 0));
    }
}
