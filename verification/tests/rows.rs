use database::block::{pack_rows_into_blocks, read_count, unpack_block, BlockWriter};
use database::error::DbError;
use database::ops::rows::{clone_row, join_row, pick};
use database::query::ComparisionOperator::{self, EQ, GT, GTE, LT, LTE, NE};
use database::query::{ComparisionValue, Predicate};
use database::row::{
    apply_predicates, apply_split_predicates, coerce_literal, compare_data, decode_row,
    decode_row_partial, encode_row, encode_row_len, format_float, format_line, format_value,
};
use database::schema::ColumnInfo;
use database::value::{Data, DataType};

fn column(name: &str, data_type: DataType) -> ColumnInfo {
    ColumnInfo { name: name.to_string(), data_type }
}

fn text(s: &str) -> Data {
    Data::String(s.to_string())
}

fn columns() -> Vec<ColumnInfo> {
    vec![
        column("a", DataType::Int32),
        column("b", DataType::Int64),
        column("c", DataType::Float32),
        column("d", DataType::Float64),
        column("e", DataType::String),
    ]
}

fn row(a: i32, e: &str) -> Vec<Data> {
    vec![
        Data::Int32(a),
        Data::Int64(-(a as i64)),
        Data::Float32(1.5f32.to_bits()),
        Data::Float64((-0.25f64).to_bits()),
        text(e),
    ]
}

fn shown(rows: &Vec<Vec<Data>>) -> String {
    format!("{:?}", rows)
}

fn pred(name: &str, operator: ComparisionOperator, value: ComparisionValue) -> Predicate {
    Predicate { column_name: name.to_string(), operator, value }
}

#[test]
fn a_row_is_read_back() {
    let mut data = vec![9u8];
    encode_row(&row(3, "h\u{e9}"), &mut data);
    assert_eq!(
        data,
        vec![
            9u8, 3, 0, 0, 0, 253, 255, 255, 255, 255, 255, 255, 255, 0, 0, 192, 63, 0, 0, 0, 0, 0,
            0, 208, 191, b'h', 0xc3, 0xa9, 0
        ]
    );
    let (read, end) = decode_row(&data, 1, &columns()).unwrap();
    assert_eq!(end, data.len());
    assert_eq!(shown(&vec![read]), shown(&vec![row(3, "h\u{e9}")]));
}

#[test]
fn unwanted_columns_are_blank() {
    let mut data = Vec::new();
    encode_row(&row(3, "xyz"), &mut data);
    let wanted = vec![false, true, false, false, false];
    let (read, end) = decode_row_partial(&data, 0, &columns(), Some(&wanted)).unwrap();
    assert_eq!(end, data.len());
    assert_eq!(
        format!("{:?}", read),
        format!(
            "{:?}",
            vec![
                Data::Int32(0),
                Data::Int64(-3),
                Data::Float32(0),
                Data::Float64(0),
                text("")
            ]
        )
    );
    let (all, _) = decode_row_partial(&data, 0, &columns(), None).unwrap();
    assert_eq!(shown(&vec![all]), shown(&vec![row(3, "xyz")]));
}

#[test]
fn broken_rows_are_refused() {
    let schema = vec![column("a", DataType::Int32), column("e", DataType::String)];
    assert!(matches!(decode_row(&[1, 0], 0, &schema), Err(DbError::Truncated)));
    assert!(matches!(
        decode_row(&[1, 0, 0, 0, b'x'], 0, &schema),
        Err(DbError::MissingTerminator)
    ));
    assert!(matches!(
        decode_row(&[1, 0, 0, 0, 0xff, 0], 0, &schema),
        Err(DbError::InvalidUtf8)
    ));
    assert!(decode_row(&[1, 0, 0, 0, b'x', 0], 0, &schema).is_ok());
}

#[test]
fn rows_have_a_weight() {
    assert_eq!(encode_row_len(&row(3, "xyz")), 4 + 8 + 4 + 8 + 4 + 5 * 40 + 64);
    assert_eq!(encode_row_len(&Vec::new()), 64);
}

#[test]
fn values_are_written_as_text() {
    assert_eq!(format_value(&Data::Int32(-5), String::new()), "-5");
    assert_eq!(format_value(&Data::Int64(i64::MAX), String::new()), "9223372036854775807");
    assert_eq!(format_value(&text("a|b"), String::new()), "a|b");
    assert_eq!(format_value(&Data::Float64(0), 3.0f64.to_string()), "3.0");
    assert_eq!(format_float("2.5".to_string()), "2.5");
    assert_eq!(format_float("1e300".to_string()), "1e300");
    assert_eq!(format_float("inf".to_string()), "inf");
    assert_eq!(format_float("-7".to_string()), "-7.0");
    assert_eq!(format_line(&vec!["a".to_string(), String::new()]), "a||\n");
    assert_eq!(format_line(&Vec::new()), "\n");
}

#[test]
fn values_are_compared() {
    let (a, b) = (Data::Int32(1), Data::Int32(2));
    assert!(compare_data(&a, &LT, &b) && compare_data(&a, &LTE, &b) && compare_data(&a, &NE, &b));
    assert!(compare_data(&b, &GT, &a) && compare_data(&b, &GTE, &b) && compare_data(&b, &EQ, &b));
    assert!(!compare_data(&a, &GT, &a) && !compare_data(&a, &LT, &a));
    let nan = Data::Float64(f64::NAN.to_bits());
    assert!(compare_data(&nan, &NE, &nan));
    for op in [EQ, GT, GTE, LT, LTE] {
        assert!(!compare_data(&nan, &op, &nan));
    }
}

#[test]
fn literals_take_the_type_of_their_column() {
    let c = |v: ComparisionValue, t: DataType| format!("{:?}", coerce_literal(&v, &t));
    let some = |d: Data| format!("{:?}", Some(d));
    assert_eq!(c(ComparisionValue::I32(-4), DataType::Int64), some(Data::Int64(-4)));
    assert_eq!(
        c(ComparisionValue::I64(0x1_8000_0001), DataType::Int32),
        some(Data::Int32(0x1_8000_0001i64 as i32))
    );
    assert_eq!(
        c(ComparisionValue::I64(-9007199254740993), DataType::Float64),
        some(Data::Float64((-9007199254740993i64 as f64).to_bits()))
    );
    assert_eq!(
        c(ComparisionValue::F32(0.1f32.to_bits()), DataType::Float64),
        some(Data::Float64((0.1f32 as f64).to_bits()))
    );
    assert_eq!(
        c(ComparisionValue::String("x".to_string()), DataType::String),
        some(text("x"))
    );
    assert!(coerce_literal(&ComparisionValue::F64(0), &DataType::Float32).is_none());
    assert!(coerce_literal(&ComparisionValue::I32(1), &DataType::Float32).is_none());
    assert!(coerce_literal(&ComparisionValue::I32(1), &DataType::String).is_none());
    assert!(
        coerce_literal(&ComparisionValue::Column("a".to_string()), &DataType::Int32).is_none()
    );
}

#[test]
fn predicates_are_tested_in_turn() {
    let (s, r) = (columns(), row(3, "xyz"));
    let ok = vec![
        pred("a", GT, ComparisionValue::I64(2)),
        pred("b", LT, ComparisionValue::I32(0)),
        pred("e", EQ, ComparisionValue::String("xyz".to_string())),
    ];
    assert_eq!(apply_predicates(&r, &s, &ok).unwrap(), true);
    assert_eq!(apply_predicates(&r, &s, &Vec::new()).unwrap(), true);
    let stops = vec![
        pred("a", GT, ComparisionValue::I32(5)),
        pred("nowhere", EQ, ComparisionValue::I32(5)),
    ];
    assert_eq!(apply_predicates(&r, &s, &stops).unwrap(), false);
    let columns_differ = vec![pred("a", EQ, ComparisionValue::Column("b".to_string()))];
    assert_eq!(apply_predicates(&r, &s, &columns_differ).unwrap(), false);
    let e = apply_predicates(&r, &s, &vec![pred("z", EQ, ComparisionValue::I32(1))]);
    assert!(matches!(e, Err(DbError::FilterColumn(n)) if n == "z"));
    let e = apply_predicates(
        &r,
        &s,
        &vec![pred("a", EQ, ComparisionValue::Column("z".to_string()))],
    );
    assert!(matches!(e, Err(DbError::FilterRhsColumn(n)) if n == "z"));
    let e = apply_predicates(
        &r,
        &s,
        &vec![pred("a", EQ, ComparisionValue::String("3".to_string()))],
    );
    assert!(matches!(e, Err(DbError::FilterCoercion(n)) if n == "a"));
}

#[test]
fn predicates_are_tested_on_pairs_of_rows() {
    let schema = vec![
        column("a", DataType::Int32),
        column("b", DataType::Int32),
        column("c", DataType::Int32),
    ];
    let (l, r) = (vec![Data::Int32(1)], vec![Data::Int32(2), Data::Int32(1)]);
    let p = vec![
        pred("a", EQ, ComparisionValue::Column("c".to_string())),
        pred("a", LT, ComparisionValue::Column("b".to_string())),
        pred("b", EQ, ComparisionValue::I32(2)),
    ];
    assert_eq!(apply_split_predicates(&l, &r, &schema, &p).unwrap(), true);
    assert_eq!(apply_predicates(&join_row(&l, &r), &schema, &p).unwrap(), true);
    let other_type = vec![pred("b", EQ, ComparisionValue::I64(2))];
    assert_eq!(apply_split_predicates(&l, &r, &schema, &other_type).unwrap(), false);
    let e = apply_split_predicates(&l, &r, &schema, &vec![pred("z", EQ, ComparisionValue::I32(1))]);
    assert!(matches!(e, Err(DbError::PairColumn(n)) if n == "z"));
}

#[test]
fn rows_are_copied_joined_and_picked() {
    let rows = vec![row(1, "a"), row(2, "b")];
    assert_eq!(format!("{:?}", clone_row(&rows[1])), format!("{:?}", rows[1]));
    let joined = join_row(&rows[0], &rows[1]);
    assert_eq!(joined.len(), 10);
    assert_eq!(
        format!("{:?}", pick(&joined, &vec![9, 0, 5, 0])),
        format!("{:?}", vec![text("b"), Data::Int32(1), Data::Int32(2), Data::Int32(1)])
    );
}

#[test]
fn rows_fill_blocks() {
    let schema = vec![column("a", DataType::Int32)];
    let rows: Vec<Vec<Data>> = (0..5).map(|i| vec![Data::Int32(i)]).collect();
    let data = pack_rows_into_blocks(&rows, 11);
    assert_eq!(
        data,
        vec![
            0u8, 0, 0, 0, 1, 0, 0, 0, 0, 2, 0, 2, 0, 0, 0, 3, 0, 0, 0, 0, 2, 0, 4, 0, 0, 0, 0, 0, 0,
            0, 0, 1, 0
        ]
    );
    let mut read = Vec::new();
    for i in 0..3 {
        let block = &data[i * 11..i * 11 + 11];
        assert_eq!(read_count(block, 11), if i < 2 { 2 } else { 1 });
        read.extend(unpack_block(block, 11, &schema).unwrap());
    }
    assert_eq!(shown(&read), shown(&rows));
    assert!(pack_rows_into_blocks(&Vec::new(), 11).is_empty());
    assert!(unpack_block(&[], 0, &schema).unwrap().is_empty());
}

#[test]
fn a_large_block_holds_as_many_rows_as_it_can_count() {
    let schema = vec![column("a", DataType::Int32)];
    let rows: Vec<Vec<Data>> = (0..65535).map(|i| vec![Data::Int32(i)]).collect();
    let size = 4 * 65535 + 2;
    let data = pack_rows_into_blocks(&rows, size);
    assert_eq!(data.len(), size);
    assert_eq!(read_count(&data, size), 65535);
    assert_eq!(shown(&unpack_block(&data, size, &schema).unwrap()), shown(&rows));
}

#[test]
fn a_block_is_closed_only_if_it_holds_a_row() {
    let mut w = BlockWriter::new();
    w.finish_block(8);
    assert!(w.bytes.is_empty());
    w.push_encoded(&[1, 2, 3], 8);
    w.push_row(&vec![Data::Int32(7)], 8);
    assert_eq!(w.bytes, vec![1u8, 2, 3, 0, 0, 0, 1, 0]);
    w.finish_block(8);
    w.finish_block(8);
    assert_eq!(w.bytes, vec![1u8, 2, 3, 0, 0, 0, 1, 0, 7, 0, 0, 0, 0, 0, 1, 0]);
}
