use database::bytes::{get_le, i32_from_bits, i32_to_bits, i64_from_bits, i64_to_bits, put_le};
use database::error::DbError;
use database::float::{
    f64_add, f64_div, f64_from_f32, f64_from_i64, f64_from_u64, f64_lt, f64_max, f64_mul, f64_sub,
    f64_to_u64,
};
use database::text::{decimal_text, parse_u64, trim};
use database::value::{order_bytes, Data, Order};

fn text(s: &str) -> Data {
    Data::String(s.to_string())
}

fn double(x: f64) -> Data {
    Data::Float64(x.to_bits())
}

fn single(x: f32) -> Data {
    Data::Float32(x.to_bits())
}

#[test]
fn values_of_a_type_are_ordered() {
    assert_eq!(Data::Int32(-1).order(&Data::Int32(3)), Some(Order::Less));
    assert_eq!(Data::Int64(i64::MIN).order(&Data::Int64(i64::MAX)), Some(Order::Less));
    assert_eq!(text("b").order(&text("abc")), Some(Order::Greater));
    assert_eq!(text("ab").order(&text("abc")), Some(Order::Less));
    assert_eq!(text("\u{e9}").order(&text("z")), Some(Order::Greater));
    assert_eq!(double(-2.5).order(&double(-2.25)), Some(Order::Less));
    assert_eq!(double(0.0).order(&double(-0.0)), Some(Order::Equal));
    assert_eq!(single(1.5).order(&single(1.5)), Some(Order::Equal));
    assert_eq!(single(f32::INFINITY).order(&single(3.0)), Some(Order::Greater));
}

#[test]
fn a_nan_has_no_order() {
    assert_eq!(double(f64::NAN).order(&double(1.0)), None);
    assert_eq!(single(f32::NAN).order(&single(f32::NAN)), None);
    assert!(!double(f64::NAN).equals(&double(f64::NAN)));
}

#[test]
fn values_of_different_types_are_ordered_by_type() {
    assert_eq!(Data::Int32(9).order(&Data::Int64(1)), Some(Order::Less));
    assert_eq!(text("").order(&double(f64::NAN)), Some(Order::Greater));
    assert!(!Data::Int32(1).equals(&Data::Int64(1)));
}

#[test]
fn an_order_is_reversed() {
    assert_eq!(Order::Less.reverse(), Order::Greater);
    assert_eq!(Order::Equal.reverse(), Order::Equal);
    assert_eq!(Order::Greater.reverse(), Order::Less);
    assert_eq!(order_bytes(&[1, 2], &[1, 2, 0]), Order::Less);
    assert_eq!(order_bytes(&[200], &[100, 9]), Order::Greater);
    assert_eq!(order_bytes(&[], &[]), Order::Equal);
}

#[test]
fn numbers_are_kept_in_bytes() {
    let mut out = vec![7u8];
    put_le(0x0102_0304, 4, &mut out);
    assert_eq!(out, vec![7u8, 4, 3, 2, 1]);
    assert_eq!(get_le(&out, 1, 4), 0x0102_0304);
    assert_eq!(get_le(&out, 3, 2), 0x0102);
    for v in [0, 1, -1, i32::MIN, i32::MAX] {
        assert_eq!(i32_from_bits(i32_to_bits(v)), v);
        assert_eq!(i32_to_bits(v), v as u32);
    }
    for v in [0, 1, -1, i64::MIN, i64::MAX] {
        assert_eq!(i64_from_bits(i64_to_bits(v)), v);
        assert_eq!(i64_to_bits(v), v as u64);
    }
}

#[test]
fn numbers_are_written_and_read() {
    assert_eq!(decimal_text(0), "0");
    assert_eq!(decimal_text(-120), "-120");
    assert_eq!(decimal_text(i64::MIN), "-9223372036854775808");
    assert_eq!(decimal_text(i64::MAX), "9223372036854775807");
    assert_eq!(parse_u64("0042"), Some(42));
    assert_eq!(parse_u64("+7"), Some(7));
    assert_eq!(parse_u64("18446744073709551615"), Some(u64::MAX));
    assert_eq!(parse_u64("18446744073709551616"), None);
    assert_eq!(parse_u64(""), None);
    assert_eq!(parse_u64("+"), None);
    assert_eq!(parse_u64("-1"), None);
    assert_eq!(parse_u64(" 1"), None);
    assert_eq!(trim("\t a b\n"), "a b");
    assert_eq!(trim(" \u{a0} "), "");
}

const SAMPLES: [f64; 24] = [
    0.0,
    -0.0,
    1.0,
    -1.0,
    0.1,
    0.3,
    -2.5,
    3.0,
    1e15,
    123456789.123,
    -9.75e-12,
    f64::MAX,
    f64::MIN,
    f64::MIN_POSITIVE,
    5e-324,
    -1.5e-310,
    f64::INFINITY,
    f64::NEG_INFINITY,
    f64::NAN,
    4503599627370497.5,
    9007199254740993.0,
    1.7976931348623155e308,
    2.2250738585072011e-308,
    0.9999999999999999,
];

fn agree(got: u64, expected: f64) -> bool {
    f64::from_bits(got).to_bits() == expected.to_bits()
        || (f64::from_bits(got).is_nan() && expected.is_nan())
}

#[test]
fn arithmetic_is_that_of_the_machine() {
    for a in SAMPLES {
        for b in SAMPLES {
            let (x, y) = (a.to_bits(), b.to_bits());
            assert!(agree(f64_add(x, y), a + b), "{} + {}", a, b);
            assert!(agree(f64_sub(x, y), a - b), "{} - {}", a, b);
            assert!(agree(f64_mul(x, y), a * b), "{} * {}", a, b);
            assert!(agree(f64_div(x, y), a / b), "{} / {}", a, b);
            assert_eq!(f64_lt(x, y), a < b);
            let most = f64::from_bits(f64_max(x, y));
            let expected = a.max(b);
            assert!(most == expected || (most.is_nan() && expected.is_nan()));
        }
    }
}

#[test]
fn numbers_become_floating_point_numbers() {
    for v in [0u64, 1, 3, 1 << 53, (1 << 53) + 1, (1 << 53) + 3, u64::MAX, u64::MAX - 1024] {
        assert_eq!(f64_from_u64(v), (v as f64).to_bits());
    }
    for v in [0i64, -1, 7, i64::MIN, i64::MAX, -9007199254740995] {
        assert_eq!(f64_from_i64(v), (v as f64).to_bits());
    }
    for v in [0.0f32, -0.0, 1.5, 0.1, f32::MAX, 1e-45, -3e-39, f32::INFINITY] {
        assert_eq!(f64_from_f32(v.to_bits()), (v as f64).to_bits());
    }
    assert!(f64::from_bits(f64_from_f32(f32::NAN.to_bits())).is_nan());
    for v in [0.0, 0.99, 1.0, 2.5, 1e15, -3.5, 1.8446744073709552e19, 1e300, f64::INFINITY] {
        assert_eq!(f64_to_u64(f64::to_bits(v)), v as u64);
    }
    assert_eq!(f64_to_u64(f64::NAN.to_bits()), 0);
}

#[test]
fn products_keep_the_order() {
    let scale = 7.5f64.to_bits();
    let (a, b) = (0.1f64.to_bits(), 0.30000000000000004f64.to_bits());
    assert!(f64_lt(a, b));
    assert!(!f64_lt(f64_mul(b, scale), f64_mul(a, scale)));
    assert!(!f64_lt(f64_add(b, scale), f64_add(a, scale)));
    assert!(!f64_lt(f64_add(a, b), a));
}

#[test]
fn errors_have_texts() {
    let s = || "x".to_string();
    let texts = [
        (DbError::TableNotFound(s()), "Table 'x' not found in db config"),
        (DbError::ScanTable(s()), "Table 'x' not found"),
        (DbError::ProjectColumn(s()), "Project: column 'x' not found"),
        (DbError::FilteredProjectColumn(s()), "Project column 'x' not found"),
        (DbError::FilterColumn(s()), "Filter: column 'x' not found"),
        (DbError::FilterRhsColumn(s()), "Filter: rhs column 'x' not found"),
        (DbError::FilterCoercion(s()), "Filter: cannot coerce value for 'x'"),
        (DbError::PairColumn(s()), "Column 'x' not found"),
        (DbError::SortColumn(s()), "Sort: column 'x' not found"),
        (DbError::LeftJoinColumn(s()), "Join column x not found in left child"),
        (DbError::RightJoinColumn(s()), "Join column x not found in right child"),
        (DbError::MissingTerminator, "Null terminator not found in string column"),
        (DbError::InvalidUtf8, "invalid utf-8 sequence"),
        (DbError::Truncated, "row runs past the end of its block"),
        (DbError::InvalidNumber, "invalid number in disk reply"),
    ];
    for (error, message) in texts {
        assert_eq!(error.message(), message);
    }
}
