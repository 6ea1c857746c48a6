//! Column values: their types, their equality and their order.
//!
//! A floating-point value is held by its IEEE 754 bit pattern, so that every
//! operation on it is an operation on an integer.

use vstd::prelude::*;
use vstd::utf8::*;

verus! {

/// The type of a column.
#[derive(Clone, Copy, Debug, PartialEq, Eq, Structural)]
pub enum DataType {
    Int32,
    Int64,
    Float32,
    Float64,
    String,
}

/// The outcome of comparing two values that can be compared.
#[derive(Clone, Copy, Debug, PartialEq, Eq, Structural)]
pub enum Order {
    Less,
    Equal,
    Greater,
}

/// One column value. `Float32` and `Float64` hold the bit pattern of the number.
#[derive(Debug)]
pub enum Data {
    Int32(i32),
    Int64(i64),
    Float32(u32),
    Float64(u64),
    String(String),
}

/// The mathematical value of a [`Data`].
pub enum Val {
    Int32(i32),
    Int64(i64),
    Float32(u32),
    Float64(u64),
    Text(Seq<char>),
}

impl DeepView for Data {
    type V = Val;

    open spec fn deep_view(&self) -> Val {
        match *self {
            Data::Int32(v) => Val::Int32(v),
            Data::Int64(v) => Val::Int64(v),
            Data::Float32(v) => Val::Float32(v),
            Data::Float64(v) => Val::Float64(v),
            Data::String(s) => Val::Text(s@),
        }
    }
}

impl Order {
    /// The outcome with the two operands exchanged.
    pub open spec fn flipped(self) -> Order {
        match self {
            Order::Less => Order::Greater,
            Order::Equal => Order::Equal,
            Order::Greater => Order::Less,
        }
    }

    /// Exchanges `Less` and `Greater`.
    pub fn reverse(self) -> (res: Order)
        ensures
            res == self.flipped(),
    {
        match self {
            Order::Less => Order::Greater,
            Order::Equal => Order::Equal,
            Order::Greater => Order::Less,
        }
    }
}

pub const F32_SIGN: u32 = 0x8000_0000;

pub const F32_INF: u32 = 0x7f80_0000;

pub const F64_SIGN: u64 = 0x8000_0000_0000_0000;

pub const F64_INF: u64 = 0x7ff0_0000_0000_0000;

/// How two integers compare.
pub open spec fn int_order(a: int, b: int) -> Order {
    if a < b {
        Order::Less
    } else if a == b {
        Order::Equal
    } else {
        Order::Greater
    }
}

/// Whether the pattern is a binary32 NaN: its magnitude lies above infinity.
pub open spec fn f32_is_nan(b: u32) -> bool {
    if b < F32_SIGN { b > F32_INF } else { b - F32_SIGN > F32_INF }
}

/// The place of a binary32 number on the number line, as an integer: the
/// magnitude of the pattern under the sign of the pattern, so that both zeros
/// have the same place.
pub open spec fn f32_rank(b: u32) -> int {
    if b < F32_SIGN { b as int } else { F32_SIGN - b }
}

/// Whether the pattern is a binary64 NaN.
pub open spec fn f64_is_nan(b: u64) -> bool {
    if b < F64_SIGN { b > F64_INF } else { b - F64_SIGN > F64_INF }
}

/// The place of a binary64 number on the number line, as an integer.
pub open spec fn f64_rank(b: u64) -> int {
    if b < F64_SIGN { b as int } else { F64_SIGN - b }
}

/// Lexicographic order of byte strings, the order of `str`.
pub open spec fn bytes_order(a: Seq<u8>, b: Seq<u8>) -> Order
    decreases a.len(),
{
    if a.len() == 0 {
        if b.len() == 0 { Order::Equal } else { Order::Less }
    } else if b.len() == 0 {
        Order::Greater
    } else if a[0] != b[0] {
        int_order(a[0] as int, b[0] as int)
    } else {
        bytes_order(a.drop_first(), b.drop_first())
    }
}

/// The position of a value's type among the types: values of different types
/// compare by it.
pub open spec fn type_rank(v: Val) -> int {
    match v {
        Val::Int32(_) => 0,
        Val::Int64(_) => 1,
        Val::Float32(_) => 2,
        Val::Float64(_) => 3,
        Val::Text(_) => 4,
    }
}

/// How two values compare. A NaN compares with no number of its own type.
pub open spec fn val_order(a: Val, b: Val) -> Option<Order> {
    match (a, b) {
        (Val::Int32(x), Val::Int32(y)) => Some(int_order(x as int, y as int)),
        (Val::Int64(x), Val::Int64(y)) => Some(int_order(x as int, y as int)),
        (Val::Float32(x), Val::Float32(y)) => if f32_is_nan(x) || f32_is_nan(y) {
            None
        } else {
            Some(int_order(f32_rank(x), f32_rank(y)))
        },
        (Val::Float64(x), Val::Float64(y)) => if f64_is_nan(x) || f64_is_nan(y) {
            None
        } else {
            Some(int_order(f64_rank(x), f64_rank(y)))
        },
        (Val::Text(x), Val::Text(y)) => Some(bytes_order(encode_utf8(x), encode_utf8(y))),
        _ => Some(int_order(type_rank(a), type_rank(b))),
    }
}

/// Whether two values are equal.
pub open spec fn val_eq(a: Val, b: Val) -> bool {
    val_order(a, b) == Some(Order::Equal)
}

/// Whether the value is a floating-point NaN.
pub open spec fn is_nan(v: Val) -> bool {
    match v {
        Val::Float32(b) => f32_is_nan(b),
        Val::Float64(b) => f64_is_nan(b),
        _ => false,
    }
}

/// Compares two byte strings.
pub fn order_bytes(a: &[u8], b: &[u8]) -> (res: Order)
    ensures
        res == bytes_order(a@, b@),
{
    let mut i: usize = 0;
    proof {
        assert(a@.skip(0) =~= a@);
        assert(b@.skip(0) =~= b@);
    }
    while i < a.len() && i < b.len()
        invariant
            i <= a@.len(),
            i <= b@.len(),
            bytes_order(a@, b@) == bytes_order(a@.skip(i as int), b@.skip(i as int)),
        decreases a@.len() - i,
    {
        if a[i] < b[i] {
            return Order::Less;
        }
        if a[i] > b[i] {
            return Order::Greater;
        }
        proof {
            assert(a@.skip(i as int).drop_first() =~= a@.skip(i + 1));
            assert(b@.skip(i as int).drop_first() =~= b@.skip(i + 1));
        }
        i += 1;
    }
    if i < b.len() {
        Order::Less
    } else if i < a.len() {
        Order::Greater
    } else {
        Order::Equal
    }
}

fn order_u8(a: u8, b: u8) -> (res: Order)
    ensures
        res == int_order(a as int, b as int),
{
    if a < b {
        Order::Less
    } else if a == b {
        Order::Equal
    } else {
        Order::Greater
    }
}

fn order_i64(a: i64, b: i64) -> (res: Order)
    ensures
        res == int_order(a as int, b as int),
{
    if a < b {
        Order::Less
    } else if a == b {
        Order::Equal
    } else {
        Order::Greater
    }
}

fn order_f32(a: u32, b: u32) -> (res: Option<Order>)
    ensures
        res == val_order(Val::Float32(a), Val::Float32(b)),
{
    let ma: u32 = if a < F32_SIGN { a } else { a - F32_SIGN };
    let mb: u32 = if b < F32_SIGN { b } else { b - F32_SIGN };
    if ma > F32_INF || mb > F32_INF {
        return None;
    }
    let ra: i64 = if a < F32_SIGN { ma as i64 } else { -(ma as i64) };
    let rb: i64 = if b < F32_SIGN { mb as i64 } else { -(mb as i64) };
    Some(order_i64(ra, rb))
}

fn order_f64(a: u64, b: u64) -> (res: Option<Order>)
    ensures
        res == val_order(Val::Float64(a), Val::Float64(b)),
{
    let ma: u64 = if a < F64_SIGN { a } else { a - F64_SIGN };
    let mb: u64 = if b < F64_SIGN { b } else { b - F64_SIGN };
    if ma > F64_INF || mb > F64_INF {
        return None;
    }
    let ra: i64 = if a < F64_SIGN { ma as i64 } else { -(ma as i64) };
    let rb: i64 = if b < F64_SIGN { mb as i64 } else { -(mb as i64) };
    Some(order_i64(ra, rb))
}

impl Data {
    fn type_index(&self) -> (res: u8)
        ensures
            res == type_rank(self.deep_view()),
    {
        match self {
            Data::Int32(_) => 0,
            Data::Int64(_) => 1,
            Data::Float32(_) => 2,
            Data::Float64(_) => 3,
            Data::String(_) => 4,
        }
    }

    /// Compares two values; `None` where a NaN meets a number of its type.
    pub fn order(&self, other: &Data) -> (res: Option<Order>)
        ensures
            res == val_order(self.deep_view(), other.deep_view()),
    {
        match (self, other) {
            (Data::Int32(x), Data::Int32(y)) => Some(order_i64(*x as i64, *y as i64)),
            (Data::Int64(x), Data::Int64(y)) => Some(order_i64(*x, *y)),
            (Data::Float32(x), Data::Float32(y)) => order_f32(*x, *y),
            (Data::Float64(x), Data::Float64(y)) => order_f64(*x, *y),
            (Data::String(x), Data::String(y)) => Some(
                order_bytes(x.as_str().as_bytes(), y.as_str().as_bytes()),
            ),
            _ => Some(order_u8(self.type_index(), other.type_index())),
        }
    }

    /// Whether two values are equal. A NaN equals nothing.
    pub fn equals(&self, other: &Data) -> (res: bool)
        ensures
            res == val_eq(self.deep_view(), other.deep_view()),
    {
        match self.order(other) {
            Some(Order::Equal) => true,
            _ => false,
        }
    }
}

impl Clone for Data {
    fn clone(&self) -> (res: Data)
        ensures
            res == *self,
    {
        match self {
            Data::Int32(v) => Data::Int32(*v),
            Data::Int64(v) => Data::Int64(*v),
            Data::Float32(v) => Data::Float32(*v),
            Data::Float64(v) => Data::Float64(*v),
            Data::String(s) => Data::String(s.clone()),
        }
    }
}

// ---- the order of values ----

/// The comparison of two values with its sides exchanged.
pub open spec fn flipped(o: Option<Order>) -> Option<Order> {
    match o {
        Some(x) => Some(x.flipped()),
        None => None,
    }
}

/// Whether a comparison says that the first value is not above the second.
pub open spec fn at_most(o: Option<Order>) -> bool {
    o == Some(Order::Less) || o == Some(Order::Equal)
}

proof fn lemma_bytes_flip(a: Seq<u8>, b: Seq<u8>)
    ensures
        bytes_order(b, a) == bytes_order(a, b).flipped(),
    decreases a.len(),
{
    if a.len() > 0 && b.len() > 0 && a[0] == b[0] {
        lemma_bytes_flip(a.drop_first(), b.drop_first());
    }
}

proof fn lemma_bytes_transitive(a: Seq<u8>, b: Seq<u8>, c: Seq<u8>)
    requires
        bytes_order(a, b) != Order::Greater,
        bytes_order(b, c) != Order::Greater,
    ensures
        bytes_order(a, c) != Order::Greater,
        bytes_order(a, c) == Order::Equal ==> bytes_order(a, b) == Order::Equal && bytes_order(
            b,
            c,
        ) == Order::Equal,
    decreases a.len(),
{
    if a.len() > 0 && b.len() > 0 && c.len() > 0 && a[0] == b[0] && b[0] == c[0] {
        lemma_bytes_transitive(a.drop_first(), b.drop_first(), c.drop_first());
    }
}

/// Exchanging two values exchanges the outcome of their comparison.
pub proof fn order_is_antisymmetric(a: Val, b: Val)
    ensures
        val_order(b, a) == flipped(val_order(a, b)),
{
    match (a, b) {
        (Val::Text(x), Val::Text(y)) => {
            lemma_bytes_flip(encode_utf8(x), encode_utf8(y));
        },
        _ => {},
    }
}

/// The order of values is transitive; the outer comparison is equal only where both
/// inner ones are.
pub proof fn order_is_transitive(a: Val, b: Val, c: Val)
    requires
        at_most(val_order(a, b)),
        at_most(val_order(b, c)),
    ensures
        at_most(val_order(a, c)),
        val_order(a, c) == Some(Order::Equal) ==> val_order(a, b) == Some(Order::Equal)
            && val_order(b, c) == Some(Order::Equal),
{
    match (a, b, c) {
        (Val::Text(x), Val::Text(y), Val::Text(z)) => {
            lemma_bytes_transitive(encode_utf8(x), encode_utf8(y), encode_utf8(z));
        },
        _ => {},
    }
}

proof fn lemma_bytes_equal(a: Seq<u8>)
    ensures
        bytes_order(a, a) == Order::Equal,
    decreases a.len(),
{
    if a.len() > 0 {
        lemma_bytes_equal(a.drop_first());
    }
}

/// Every value but a NaN equals itself.
pub proof fn order_is_reflexive(a: Val)
    requires
        !is_nan(a),
    ensures
        val_order(a, a) == Some(Order::Equal),
{
    match a {
        Val::Text(x) => {
            lemma_bytes_equal(encode_utf8(x));
        },
        _ => {},
    }
}

// ---- what the order is ----

/// Integers of one type compare as numbers.
pub proof fn integers_compare_as_numbers(x: i64, y: i64, a: i32, b: i32)
    ensures
        val_order(Val::Int64(x), Val::Int64(y)) == Some(Order::Less) <==> x < y,
        val_order(Val::Int64(x), Val::Int64(y)) == Some(Order::Equal) <==> x == y,
        val_order(Val::Int64(x), Val::Int64(y)) == Some(Order::Greater) <==> x > y,
        val_order(Val::Int32(a), Val::Int32(b)) == Some(Order::Less) <==> a < b,
        val_order(Val::Int32(a), Val::Int32(b)) == Some(Order::Equal) <==> a == b,
        val_order(Val::Int32(a), Val::Int32(b)) == Some(Order::Greater) <==> a > b,
{
}

/// The values of each type lie below those of the types that follow it: 32-bit integers,
/// 64-bit integers, binary32 numbers, binary64 numbers, texts.
pub proof fn values_of_two_types_compare_by_their_types(
    a: i32,
    b: i64,
    c: u32,
    d: u64,
    s: Seq<char>,
)
    ensures
        val_order(Val::Int32(a), Val::Int64(b)) == Some(Order::Less),
        val_order(Val::Int32(a), Val::Float32(c)) == Some(Order::Less),
        val_order(Val::Int32(a), Val::Float64(d)) == Some(Order::Less),
        val_order(Val::Int32(a), Val::Text(s)) == Some(Order::Less),
        val_order(Val::Int64(b), Val::Float32(c)) == Some(Order::Less),
        val_order(Val::Int64(b), Val::Float64(d)) == Some(Order::Less),
        val_order(Val::Int64(b), Val::Text(s)) == Some(Order::Less),
        val_order(Val::Float32(c), Val::Float64(d)) == Some(Order::Less),
        val_order(Val::Float32(c), Val::Text(s)) == Some(Order::Less),
        val_order(Val::Float64(d), Val::Text(s)) == Some(Order::Less),
{
}

/// Whether the first `n` bytes of two strings are the same, and there one string ends, or
/// has the lower byte, before the other.
pub open spec fn parts_below(a: Seq<u8>, b: Seq<u8>, n: int) -> bool {
    &&& 0 <= n <= a.len()
    &&& n < b.len()
    &&& forall|i: int| 0 <= i < n ==> a[i] == b[i]
    &&& n < a.len() ==> a[n] < b[n]
}

proof fn lemma_parts_below(a: Seq<u8>, b: Seq<u8>, n: int)
    requires
        parts_below(a, b, n),
    ensures
        bytes_order(a, b) == Order::Less,
    decreases n,
{
    if n > 0 {
        let (x, y) = (a.drop_first(), b.drop_first());
        assert forall|i: int| 0 <= i < n - 1 implies x[i] == y[i] by {
            assert(a[i + 1] == b[i + 1]);
        }
        assert(n - 1 < x.len() ==> x[n - 1] == a[n] && y[n - 1] == b[n]);
        lemma_parts_below(x, y, n - 1);
    }
}

proof fn lemma_parts(a: Seq<u8>, b: Seq<u8>) -> (n: int)
    ensures
        bytes_order(a, b) == Order::Less ==> parts_below(a, b, n),
        bytes_order(a, b) == Order::Greater ==> parts_below(b, a, n),
        bytes_order(a, b) == Order::Equal ==> a == b,
    decreases a.len(),
{
    if a.len() > 0 && b.len() > 0 && a[0] == b[0] {
        let (x, y) = (a.drop_first(), b.drop_first());
        let n = lemma_parts(x, y);
        if bytes_order(a, b) == Order::Equal {
            assert(a =~= seq![a[0]] + x);
            assert(b =~= seq![b[0]] + y);
        } else {
            assert forall|i: int| 0 <= i < n + 1 implies a[i] == b[i] by {
                if i > 0 {
                    assert(a[i] == x[i - 1] && b[i] == y[i - 1]);
                }
            }
            assert(n < x.len() ==> a[n + 1] == x[n]);
            assert(n < y.len() ==> b[n + 1] == y[n]);
        }
        n + 1
    } else {
        if a.len() == 0 && b.len() == 0 {
            assert(a =~= b);
        }
        0
    }
}

/// Texts compare by the first byte of their UTF-8 encodings in which they differ; a text
/// lies below what it is the beginning of, and only the same text equals it.
pub proof fn texts_compare_by_their_first_difference(s: Seq<char>, t: Seq<char>)
    ensures
        val_order(Val::Text(s), Val::Text(t)) == Some(Order::Less) <==> exists|n: int|
            parts_below(encode_utf8(s), encode_utf8(t), n),
        val_order(Val::Text(s), Val::Text(t)) == Some(Order::Greater) <==> exists|n: int|
            parts_below(encode_utf8(t), encode_utf8(s), n),
        val_order(Val::Text(s), Val::Text(t)) == Some(Order::Equal) <==> s == t,
{
    let (a, b) = (encode_utf8(s), encode_utf8(t));
    let n = lemma_parts(a, b);
    lemma_bytes_flip(a, b);
    if exists|k: int| parts_below(a, b, k) {
        lemma_parts_below(a, b, choose|k: int| parts_below(a, b, k));
    }
    if exists|k: int| parts_below(b, a, k) {
        lemma_parts_below(b, a, choose|k: int| parts_below(b, a, k));
    }
    if bytes_order(a, b) == Order::Equal {
        encode_utf8_decode_utf8(s);
        encode_utf8_decode_utf8(t);
    }
    if s == t {
        lemma_bytes_equal(a);
    }
}

/// A pattern is a NaN where its exponent is the greatest one and its fraction is not zero.
/// A NaN compares with no number of its type, and all other values of one type compare.
pub proof fn nans_alone_do_not_compare(a: Val, b: Val)
    ensures
        a matches Val::Float32(x) ==> (is_nan(a) <==> (x as int / 0x80_0000) % 0x100 == 0xff && x as int
            % 0x80_0000 != 0),
        a matches Val::Float64(x) ==> (is_nan(a) <==> (x as int / 0x10_0000_0000_0000) % 0x800
            == 0x7ff && x as int % 0x10_0000_0000_0000 != 0),
        !(a is Float32) && !(a is Float64) ==> !is_nan(a),
        val_order(a, b) is None <==> (a is Float32 && b is Float32 || a is Float64 && b is Float64)
            && (is_nan(a) || is_nan(b)),
{
}

} // verus!
