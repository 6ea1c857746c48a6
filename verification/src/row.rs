//! Rows: their encoding in blocks, their text, and the predicates on them.

use vstd::prelude::*;
use vstd::string::*;
use vstd::utf8::*;

use crate::bytes::{append_bytes, get_le, i32_from_bits, i32_to_bits, i64_from_bits, i64_to_bits, put_le, text_at};
use crate::bytes;
use crate::error::{DbError, Fault};
use crate::float::{f64_from_f32, f64_from_i64};
use crate::float;
use crate::query::{ComparisionOperator, ComparisionValue, Operand, Predicate, Test};
use crate::schema::{find_column, Column, ColumnInfo};
use crate::schema;
use crate::seqs;
use crate::text::decimal_text;
use crate::text;
use crate::value::{Data, DataType, Order, Val};
use crate::value;

verus! {

// ---- encoding ----

/// The bytes of one value: a fixed-width number, or text and a zero byte.
pub open spec fn encode_val(v: Val) -> Seq<u8> {
    match v {
        Val::Int32(x) => bytes::le_bytes(bytes::i32_bits(x), 4),
        Val::Int64(x) => bytes::le_bytes(bytes::i64_bits(x), 8),
        Val::Float32(x) => bytes::le_bytes(x as nat, 4),
        Val::Float64(x) => bytes::le_bytes(x as nat, 8),
        Val::Text(s) => encode_utf8(s).push(0u8),
    }
}

/// The bytes of a row: those of its values, one behind the other.
pub open spec fn encode_vals(row: Seq<Val>) -> Seq<u8>
    decreases row.len(),
{
    if row.len() == 0 {
        Seq::empty()
    } else {
        encode_vals(row.drop_last()) + encode_val(row.last())
    }
}

/// The type of a value.
pub open spec fn val_type(v: Val) -> DataType {
    match v {
        Val::Int32(_) => DataType::Int32,
        Val::Int64(_) => DataType::Int64,
        Val::Float32(_) => DataType::Float32,
        Val::Float64(_) => DataType::Float64,
        Val::Text(_) => DataType::String,
    }
}

/// Whether the values of a row have the types of the columns.
pub open spec fn row_fits(row: Seq<Val>, columns: Seq<Column>) -> bool {
    &&& row.len() == columns.len()
    &&& forall|i: int| 0 <= i < row.len() ==> val_type(#[trigger] row[i]) == columns[i].data_type
}

/// The bytes of a value of a type that is no text.
pub open spec fn type_width(t: DataType) -> nat {
    match t {
        DataType::Int32 => 4,
        DataType::Int64 => 8,
        DataType::Float32 => 4,
        DataType::Float64 => 8,
        DataType::String => 0,
    }
}

/// The bytes of a row without texts.
pub open spec fn columns_width(columns: Seq<Column>) -> nat
    decreases columns.len(),
{
    if columns.len() == 0 {
        0
    } else {
        columns_width(columns.drop_last()) + type_width(columns.last().data_type)
    }
}

/// Whether no column holds texts.
pub open spec fn is_textless(columns: Seq<Column>) -> bool {
    forall|i: int| 0 <= i < columns.len() ==> (#[trigger] columns[i]).data_type != DataType::String
}

/// Rows without texts are all of one width.
pub proof fn rows_without_texts_are_of_one_width(row: Seq<Val>, columns: Seq<Column>)
    requires
        row_fits(row, columns),
        is_textless(columns),
    ensures
        encode_vals(row).len() == columns_width(columns),
    decreases row.len(),
{
    if row.len() > 0 {
        let (r, c) = (row.drop_last(), columns.drop_last());
        assert forall|i: int| 0 <= i < r.len() implies val_type(#[trigger] r[i])
            == c[i].data_type by {
            assert(r[i] == row[i]);
        }
        assert forall|i: int| 0 <= i < c.len() implies (#[trigger] c[i]).data_type
            != DataType::String by {
            assert(c[i] == columns[i]);
        }
        rows_without_texts_are_of_one_width(r, c);
        let last = row[row.len() - 1];
        assert(val_type(last) == columns[row.len() - 1].data_type);
        match last {
            Val::Int32(x) => bytes::lemma_le_bytes_len(bytes::i32_bits(x), 4),
            Val::Int64(x) => bytes::lemma_le_bytes_len(bytes::i64_bits(x), 8),
            Val::Float32(x) => bytes::lemma_le_bytes_len(x as nat, 4),
            Val::Float64(x) => bytes::lemma_le_bytes_len(x as nat, 8),
            Val::Text(_) => {},
        }
    }
}

/// Whether a value is no text with the character U+0000, which ends a text.
pub open spec fn storable(v: Val) -> bool {
    match v {
        Val::Text(s) => forall|i: int| 0 <= i < s.len() ==> s[i] != '\0',
        _ => true,
    }
}

/// Whether every value of a row is storable.
pub open spec fn row_storable(row: Seq<Val>) -> bool {
    forall|i: int| 0 <= i < row.len() ==> storable(#[trigger] row[i])
}

/// The number of bytes of a fixed-width type.
pub open spec fn fixed_width(t: DataType) -> nat {
    match t {
        DataType::Int32 | DataType::Float32 => 4,
        DataType::Int64 | DataType::Float64 => 8,
        DataType::String => 0,
    }
}

/// The position behind the value of type `t` at `offset`: behind its bytes, or
/// behind the first zero byte.
pub open spec fn value_end(data: Seq<u8>, offset: int, t: DataType) -> Result<int, Fault> {
    if t == DataType::String {
        if offset > data.len() {
            Err(Fault::Truncated)
        } else {
            match seqs::first_where(data.skip(offset), |b: u8| b == 0u8) {
                None => Err(Fault::MissingTerminator),
                Some(n) => Ok(offset + n + 1),
            }
        }
    } else if offset + fixed_width(t) > data.len() {
        Err(Fault::Truncated)
    } else {
        Ok(offset + fixed_width(t))
    }
}

/// The value of type `t` at `offset` and the position behind it.
pub open spec fn decode_val(data: Seq<u8>, offset: int, t: DataType) -> Result<(Val, int), Fault> {
    match value_end(data, offset, t) {
        Err(e) => Err(e),
        Ok(end) => {
            let n = bytes::le_value(data.subrange(offset, end));
            match t {
                DataType::Int32 => Ok((Val::Int32(bytes::i32_of(n)), end)),
                DataType::Int64 => Ok((Val::Int64(bytes::i64_of(n)), end)),
                DataType::Float32 => Ok((Val::Float32(n as u32), end)),
                DataType::Float64 => Ok((Val::Float64(n as u64), end)),
                DataType::String => {
                    let text = data.subrange(offset, end - 1);
                    if valid_utf8(text) {
                        Ok((Val::Text(decode_utf8(text)), end))
                    } else {
                        Err(Fault::InvalidUtf8)
                    }
                },
            }
        },
    }
}

/// What stands for a value that was not wanted.
pub open spec fn blank(t: DataType) -> Val {
    match t {
        DataType::Int32 => Val::Int32(0),
        DataType::Int64 => Val::Int64(0),
        DataType::Float32 => Val::Float32(0),
        DataType::Float64 => Val::Float64(0),
        DataType::String => Val::Text(Seq::empty()),
    }
}

/// The value of type `t` at `offset`, if it is wanted, and the position behind it.
pub open spec fn decode_wanted(data: Seq<u8>, offset: int, t: DataType, wanted: bool) -> Result<
    (Val, int),
    Fault,
> {
    if wanted {
        decode_val(data, offset, t)
    } else {
        match value_end(data, offset, t) {
            Err(e) => Err(e),
            Ok(end) => Ok((blank(t), end)),
        }
    }
}

/// Whether column `i` is wanted: all are where nothing is said.
pub open spec fn wants(wanted: Option<Seq<bool>>, i: int) -> bool {
    match wanted {
        None => true,
        Some(w) => w[i],
    }
}

/// The row of the wanted columns at `offset`, with blanks for the others, and the
/// position behind it.
pub open spec fn decode_some(
    data: Seq<u8>,
    offset: int,
    columns: Seq<Column>,
    wanted: Option<Seq<bool>>,
) -> Result<(Seq<Val>, int), Fault>
    decreases columns.len(),
{
    if columns.len() == 0 {
        Ok((Seq::empty(), offset))
    } else {
        match decode_some(data, offset, columns.drop_last(), wanted) {
            Err(e) => Err(e),
            Ok((before, at)) => match decode_wanted(
                data,
                at,
                columns.last().data_type,
                wants(wanted, columns.len() - 1),
            ) {
                Err(e) => Err(e),
                Ok((v, end)) => Ok((before.push(v), end)),
            },
        }
    }
}

/// The row at `offset` and the position behind it.
pub open spec fn decode_vals(data: Seq<u8>, offset: int, columns: Seq<Column>) -> Result<
    (Seq<Val>, int),
    Fault,
> {
    decode_some(data, offset, columns, None)
}

/// The mathematical value of a decoded row.
pub open spec fn decoded_view(res: Result<(Vec<Data>, usize), DbError>) -> Result<
    (Seq<Val>, int),
    Fault,
> {
    match res {
        Ok((row, end)) => Ok((row.deep_view(), end as int)),
        Err(e) => Err(e@),
    }
}

proof fn lemma_decode_fails(
    data: Seq<u8>,
    offset: int,
    columns: Seq<Column>,
    wanted: Option<Seq<bool>>,
    n: int,
)
    requires
        0 <= n <= columns.len(),
        decode_some(data, offset, columns.take(n), wanted) is Err,
    ensures
        decode_some(data, offset, columns, wanted) == decode_some(
            data,
            offset,
            columns.take(n),
            wanted,
        ),
    decreases columns.len() - n,
{
    if n == columns.len() {
        assert(columns.take(n) =~= columns);
    } else {
        assert(columns.take(n + 1).drop_last() =~= columns.take(n));
        lemma_decode_fails(data, offset, columns, wanted, n + 1);
    }
}

/// Finds the position behind a value.
fn find_value_end(data: &[u8], offset: usize, t: DataType) -> (res: Result<usize, DbError>)
    ensures
        match res {
            Ok(end) => value_end(data@, offset as int, t) == Ok::<int, Fault>(end as int) && offset
                <= end <= data@.len(),
            Err(e) => value_end(data@, offset as int, t) == Err::<int, Fault>(e@),
        },
{
    let size: usize = data.len();
    match t {
        DataType::String => {
            if offset > size {
                return Err(DbError::Truncated);
            }
            let ghost tail = data@.skip(offset as int);
            let ghost p = |b: u8| b == 0u8;
            let mut i: usize = offset;
            while i < size
                invariant
                    t == DataType::String,
                    offset <= i <= size,
                    size == data@.len(),
                    tail == data@.skip(offset as int),
                    p == (|b: u8| b == 0u8),
                    forall|j: int| 0 <= j < i - offset ==> !p(#[trigger] tail[j]),
                decreases size - i,
            {
                if data[i] == 0 {
                    proof {
                        assert(tail[i - offset] == data@[i as int]);
                        seqs::lemma_first_where_is(tail, p, i - offset);
                    }
                    return Ok(i + 1);
                }
                i += 1;
            }
            proof {
                seqs::lemma_first_where_none(tail, p);
            }
            Err(DbError::MissingTerminator)
        },
        DataType::Int32 | DataType::Float32 => {
            if size < 4 || offset > size - 4 {
                Err(DbError::Truncated)
            } else {
                Ok(offset + 4)
            }
        },
        DataType::Int64 | DataType::Float64 => {
            if size < 8 || offset > size - 8 {
                Err(DbError::Truncated)
            } else {
                Ok(offset + 8)
            }
        },
    }
}

/// Decodes one value.
fn decode_value(data: &[u8], offset: usize, t: DataType) -> (res: Result<(Data, usize), DbError>)
    ensures
        match res {
            Ok((v, end)) => decode_val(data@, offset as int, t) == Ok::<(Val, int), Fault>(
                (v.deep_view(), end as int),
            ) && offset <= end <= data@.len(),
            Err(e) => decode_val(data@, offset as int, t) == Err::<(Val, int), Fault>(e@),
        },
{
    let end = find_value_end(data, offset, t)?;
    proof {
        bytes::lemma_pow256();
    }
    let v = match t {
        DataType::Int32 => Data::Int32(i32_from_bits(get_le(data, offset, 4) as u32)),
        DataType::Int64 => Data::Int64(i64_from_bits(get_le(data, offset, 8))),
        DataType::Float32 => Data::Float32(get_le(data, offset, 4) as u32),
        DataType::Float64 => Data::Float64(get_le(data, offset, 8)),
        DataType::String => {
            proof {
                seqs::lemma_first_where(data@.skip(offset as int), |b: u8| b == 0u8);
            }
            match text_at(data, offset, end - 1) {
                Some(s) => Data::String(s),
                None => {
                    return Err(DbError::InvalidUtf8);
                },
            }
        },
    };
    Ok((v, end))
}

fn blank_value(t: DataType) -> (res: Data)
    ensures
        res.deep_view() == blank(t),
{
    match t {
        DataType::Int32 => Data::Int32(0),
        DataType::Int64 => Data::Int64(0),
        DataType::Float32 => Data::Float32(0),
        DataType::Float64 => Data::Float64(0),
        DataType::String => Data::String(String::new()),
    }
}

/// Decodes the wanted columns of the row at `offset`; the others are passed over,
/// and a blank stands for each. Fails where the row does not fit into
/// the data.
pub fn decode_row_partial(
    data: &[u8],
    offset: usize,
    schema: &Vec<ColumnInfo>,
    wanted: Option<&Vec<bool>>,
) -> (res: Result<(Vec<Data>, usize), DbError>)
    requires
        wanted matches Some(w) ==> w@.len() >= schema@.len(),
    ensures
        decoded_view(res) == decode_some(
            data@,
            offset as int,
            schema.deep_view(),
            match wanted {
                Some(w) => Some(w@),
                None => None,
            },
        ),
        res matches Ok((row, end)) ==> row@.len() == schema@.len(),
{
    let ghost w = match wanted {
        Some(w) => Some(w@),
        None => None,
    };
    let ghost columns = schema.deep_view();
    let mut row: Vec<Data> = Vec::new();
    let mut at: usize = offset;
    let mut i: usize = 0;
    proof {
        assert(columns.take(0) =~= Seq::empty());
        assert(row.deep_view() =~= Seq::<Val>::empty());
    }
    while i < schema.len()
        invariant
            i <= schema@.len(),
            row@.len() == i,
            columns == schema.deep_view(),
            wanted matches Some(x) ==> x@.len() >= schema@.len(),
            w == (match wanted {
                Some(x) => Some(x@),
                None => None,
            }),
            decode_some(data@, offset as int, columns.take(i as int), w) == Ok::<
                (Seq<Val>, int),
                Fault,
            >((row.deep_view(), at as int)),
        decreases schema@.len() - i,
    {
        let t = schema[i].data_type;
        let want = match wanted {
            Some(x) => x[i],
            None => true,
        };
        proof {
            assert(columns.take(i + 1).drop_last() =~= columns.take(i as int));
            assert(columns.take(i + 1).last() == columns[i as int]);
        }
        let step = if want {
            decode_value(data, at, t)
        } else {
            match find_value_end(data, at, t) {
                Ok(end) => Ok((blank_value(t), end)),
                Err(e) => Err(e),
            }
        };
        match step {
            Ok((v, end)) => {
                let ghost before = row.deep_view();
                row.push(v);
                assert(row.deep_view() =~= before.push(v.deep_view()));
                at = end;
            },
            Err(e) => {
                proof {
                    lemma_decode_fails(data@, offset as int, columns, w, i + 1);
                }
                return Err(e);
            },
        }
        i += 1;
    }
    assert(columns.take(i as int) =~= columns);
    Ok((row, at))
}

/// Decodes the row at `offset` and gives the position behind it.
pub fn decode_row(data: &[u8], offset: usize, schema: &Vec<ColumnInfo>) -> (res: Result<
    (Vec<Data>, usize),
    DbError,
>)
    ensures
        decoded_view(res) == decode_vals(data@, offset as int, schema.deep_view()),
        res matches Ok((row, end)) ==> row@.len() == schema@.len(),
{
    decode_row_partial(data, offset, schema, None)
}

/// Appends the bytes of a value.
fn encode_value(v: &Data, out: &mut Vec<u8>)
    ensures
        final(out)@ == old(out)@ + encode_val(v.deep_view()),
{
    match v {
        Data::Int32(x) => put_le(i32_to_bits(*x) as u64, 4, out),
        Data::Int64(x) => put_le(i64_to_bits(*x), 8, out),
        Data::Float32(x) => put_le(*x as u64, 4, out),
        Data::Float64(x) => put_le(*x, 8, out),
        Data::String(s) => {
            let ghost before = out@;
            append_bytes(out, s.as_str().as_bytes());
            out.push(0);
            assert(out@ =~= before + encode_utf8(s@).push(0u8));
        },
    }
}

/// Appends the bytes of a row.
pub fn encode_row(row: &Vec<Data>, out: &mut Vec<u8>)
    ensures
        final(out)@ == old(out)@ + encode_vals(row.deep_view()),
{
    let ghost start = out@;
    let ghost vals = row.deep_view();
    let mut i: usize = 0;
    assert(vals.take(0) =~= Seq::empty());
    assert(start + encode_vals(vals.take(0)) =~= start);
    while i < row.len()
        invariant
            i <= row@.len(),
            vals == row.deep_view(),
            out@ == start + encode_vals(vals.take(i as int)),
        decreases row@.len() - i,
    {
        proof {
            assert(vals.take(i + 1).drop_last() =~= vals.take(i as int));
            assert(vals.take(i + 1).last() == vals[i as int]);
        }
        encode_value(&row[i], out);
        assert(out@ =~= start + encode_vals(vals.take(i + 1)));
        i += 1;
    }
    assert(vals.take(i as int) =~= vals);
}

// ---- size and text ----

/// A number, held at the greatest `usize`.
pub open spec fn saturated(n: nat) -> usize {
    if n <= usize::MAX {
        n as usize
    } else {
        usize::MAX
    }
}

/// The memory that a value takes: its bytes and a constant for its slot.
pub open spec fn val_weight(v: Val) -> nat {
    encode_val(v).len() + 40
}

/// The memory that a row takes: that of its values and a constant for the row.
pub open spec fn row_weight(row: Seq<Val>) -> nat {
    vals_weight(row) + 64
}

/// The memory that the values of a row take.
pub open spec fn vals_weight(row: Seq<Val>) -> nat
    decreases row.len(),
{
    if row.len() == 0 {
        0
    } else {
        vals_weight(row.drop_last()) + val_weight(row.last())
    }
}

/// The memory that a row is said to take is that of its bytes, 40 bytes for each value and 64
/// for the row.
pub proof fn a_row_weighs_its_bytes(row: Seq<Val>)
    ensures
        row_weight(row) == encode_vals(row).len() + 40 * row.len() + 64,
{
    lemma_vals_weight(row);
}

proof fn lemma_vals_weight(row: Seq<Val>)
    ensures
        vals_weight(row) == encode_vals(row).len() + 40 * row.len(),
    decreases row.len(),
{
    if row.len() > 0 {
        lemma_vals_weight(row.drop_last());
    }
}

/// Estimates the memory that a row takes.
pub fn encode_row_len(row: &Vec<Data>) -> (res: usize)
    ensures
        res == saturated(row_weight(row.deep_view())),
{
    let ghost vals = row.deep_view();
    let mut len: usize = 0;
    let mut i: usize = 0;
    assert(vals.take(0) =~= Seq::empty());
    while i < row.len()
        invariant
            i <= row@.len(),
            vals == row.deep_view(),
            len == saturated(vals_weight(vals.take(i as int))),
        decreases row@.len() - i,
    {
        proof {
            assert(vals.take(i + 1).drop_last() =~= vals.take(i as int));
            assert(vals.take(i + 1).last() == vals[i as int]);
        }
        let size: usize = match &row[i] {
            Data::Int32(v) => {
                proof {
                    bytes::lemma_le_bytes_len(bytes::i32_bits(*v), 4);
                }
                4
            },
            Data::Float32(v) => {
                proof {
                    bytes::lemma_le_bytes_len(*v as nat, 4);
                }
                4
            },
            Data::Int64(v) => {
                proof {
                    bytes::lemma_le_bytes_len(bytes::i64_bits(*v), 8);
                }
                8
            },
            Data::Float64(v) => {
                proof {
                    bytes::lemma_le_bytes_len(*v as nat, 8);
                }
                8
            },
            Data::String(s) => s.as_str().as_bytes().len().saturating_add(1),
        };
        len = len.saturating_add(size).saturating_add(40);
        i += 1;
    }
    assert(vals.take(i as int) =~= vals);
    len.saturating_add(64)
}

/// Whether a part stands at a position of a text.
pub open spec fn stands_at(s: Seq<char>, part: Seq<char>, i: int) -> bool {
    0 <= i <= s.len() - part.len() && s.subrange(i, i + part.len()) == part
}

/// Whether a text holds a part.
pub open spec fn holds(s: Seq<char>, part: Seq<char>) -> bool {
    exists|i: int| #[trigger] stands_at(s, part, i)
}

/// Whether the text of a number already shows that it is no integer.
pub open spec fn shows_float(s: Seq<char>) -> bool {
    ||| s.contains('.')
    ||| s.contains('e')
    ||| s.contains('E')
    ||| holds(s, "inf"@)
    ||| holds(s, "nan"@)
}

/// The text of a floating-point number: where it looks like an integer, a
/// fraction of zero is put behind it.
pub open spec fn float_shown(s: Seq<char>) -> Seq<char> {
    if shows_float(s) {
        s
    } else {
        s + ".0"@
    }
}

proof fn lemma_three(s: Seq<char>, part: Seq<char>, i: int)
    requires
        part.len() == 3,
        0 <= i,
    ensures
        stands_at(s, part, i) <==> (i + 3 <= s.len() && s[i] == part[0] && s[i + 1] == part[1] && s[i
            + 2] == part[2]),
{
    if i + 3 <= s.len() {
        let t = s.subrange(i, i + 3);
        assert(t[0] == s[i] && t[1] == s[i + 1] && t[2] == s[i + 2]);
        if s[i] == part[0] && s[i + 1] == part[1] && s[i + 2] == part[2] {
            assert(t =~= part);
        }
    }
}

/// Puts a fraction of zero behind the text of a floating-point number that looks
/// like an integer.
pub fn format_float(s: String) -> (res: String)
    ensures
        res@ == float_shown(s@),
{
    proof {
        reveal_strlit("inf");
        reveal_strlit("nan");
    }
    let n: usize = s.as_str().unicode_len();
    let mut i: usize = 0;
    while i < n
        invariant
            i <= n == s@.len(),
            "inf"@ == seq!['i', 'n', 'f'],
            "nan"@ == seq!['n', 'a', 'n'],
            forall|j: int| 0 <= j < i ==> !((#[trigger] s@[j]) == '.' || s@[j] == 'e' || s@[j] == 'E'),
            forall|j: int| 0 <= j < i ==> !#[trigger] stands_at(s@, "inf"@, j),
            forall|j: int| 0 <= j < i ==> !#[trigger] stands_at(s@, "nan"@, j),
        decreases n - i,
    {
        let c = s.as_str().get_char(i);
        if c == '.' || c == 'e' || c == 'E' {
            proof {
                assert(s@.contains(c));
            }
            return s;
        }
        proof {
            lemma_three(s@, "inf"@, i as int);
            lemma_three(s@, "nan"@, i as int);
        }
        if n - i >= 3 {
            let d = s.as_str().get_char(i + 1);
            let e = s.as_str().get_char(i + 2);
            if (c == 'i' && d == 'n' && e == 'f') || (c == 'n' && d == 'a' && e == 'n') {
                return s;
            }
        }
        i += 1;
    }
    s.concat(".0")
}

/// The text of a value, where `number` is the text of a floating-point number.
pub open spec fn val_text(v: Val, number: Seq<char>) -> Seq<char> {
    match v {
        Val::Int32(x) => text::signed_decimal(x as int),
        Val::Int64(x) => text::signed_decimal(x as int),
        Val::Float32(_) => float_shown(number),
        Val::Float64(_) => float_shown(number),
        Val::Text(s) => s,
    }
}

/// Writes a value as text. `number` is the shortest decimal text of the number
/// where the value is a floating-point number, and is not used otherwise.
pub fn format_value(val: &Data, number: String) -> (res: String)
    ensures
        res@ == val_text(val.deep_view(), number@),
{
    match val {
        Data::Int32(v) => decimal_text(*v as i64),
        Data::Int64(v) => decimal_text(*v),
        Data::Float32(_) => format_float(number),
        Data::Float64(_) => format_float(number),
        Data::String(s) => s.clone(),
    }
}

/// The line of a row: the texts of its values, a bar behind each, and a newline.
pub open spec fn row_line(texts: Seq<Seq<char>>) -> Seq<char> {
    barred(texts) + "\n"@
}

/// Texts, a bar behind each.
pub open spec fn barred(texts: Seq<Seq<char>>) -> Seq<char>
    decreases texts.len(),
{
    if texts.len() == 0 {
        Seq::empty()
    } else {
        barred(texts.drop_last()) + texts.last() + "|"@
    }
}

/// Writes the line of a row.
pub fn format_line(texts: &Vec<String>) -> (res: String)
    ensures
        res@ == row_line(texts.deep_view()),
{
    let ghost t = texts.deep_view();
    let mut out = String::new();
    let mut i: usize = 0;
    assert(t.take(0) =~= Seq::empty());
    while i < texts.len()
        invariant
            i <= texts@.len(),
            t == texts.deep_view(),
            out@ == barred(t.take(i as int)),
        decreases texts@.len() - i,
    {
        proof {
            assert(t.take(i + 1).drop_last() =~= t.take(i as int));
            assert(t.take(i + 1).last() == t[i as int]);
        }
        out.append(texts[i].as_str());
        out.append("|");
        i += 1;
    }
    assert(t.take(i as int) =~= t);
    out.append("\n");
    out
}

// ---- predicates ----

/// Whether `a` and `b` compare as the operator says. Only `NE` holds of values
/// that do not compare.
pub open spec fn vals_compare(a: Val, op: ComparisionOperator, b: Val) -> bool {
    let o = value::val_order(a, b);
    match op {
        ComparisionOperator::EQ => o == Some(Order::Equal),
        ComparisionOperator::NE => o != Some(Order::Equal),
        ComparisionOperator::GT => o == Some(Order::Greater),
        ComparisionOperator::GTE => o == Some(Order::Greater) || o == Some(Order::Equal),
        ComparisionOperator::LT => o == Some(Order::Less),
        ComparisionOperator::LTE => o == Some(Order::Less) || o == Some(Order::Equal),
    }
}

/// Compares two values.
pub fn compare_data(left: &Data, op: &ComparisionOperator, right: &Data) -> (res: bool)
    ensures
        res == vals_compare(left.deep_view(), *op, right.deep_view()),
{
    match (op, left.order(right)) {
        (ComparisionOperator::EQ, o) => matches!(o, Some(Order::Equal)),
        (ComparisionOperator::NE, o) => !matches!(o, Some(Order::Equal)),
        (ComparisionOperator::GT, o) => matches!(o, Some(Order::Greater)),
        (ComparisionOperator::GTE, o) => matches!(o, Some(Order::Greater) | Some(Order::Equal)),
        (ComparisionOperator::LT, o) => matches!(o, Some(Order::Less)),
        (ComparisionOperator::LTE, o) => matches!(o, Some(Order::Less) | Some(Order::Equal)),
    }
}

/// A literal as a value of the type of the column it is compared with: integers
/// change their width (the low bits stay), integers and binary32 numbers become
/// binary64.
pub open spec fn coerced(v: Operand, t: DataType) -> Option<Val> {
    match (v, t) {
        (Operand::I32(x), DataType::Int32) => Some(Val::Int32(x)),
        (Operand::I64(x), DataType::Int64) => Some(Val::Int64(x)),
        (Operand::F32(x), DataType::Float32) => Some(Val::Float32(x)),
        (Operand::F64(x), DataType::Float64) => Some(Val::Float64(x)),
        (Operand::Text(s), DataType::String) => Some(Val::Text(s)),
        (Operand::I32(x), DataType::Int64) => Some(Val::Int64(x as i64)),
        (Operand::I64(x), DataType::Int32) => Some(Val::Int32(low_half(x))),
        (Operand::I32(x), DataType::Float64) => Some(Val::Float64(float::int_to_f64(x as int))),
        (Operand::I64(x), DataType::Float64) => Some(Val::Float64(float::int_to_f64(x as int))),
        (Operand::F32(x), DataType::Float64) => Some(Val::Float64(float::f32_to_f64(x))),
        _ => None,
    }
}

/// The low 32 bits of an integer, read as an integer.
pub open spec fn low_half(x: i64) -> i32 {
    bytes::i32_of(bytes::i64_bits(x) % 0x1_0000_0000)
}

/// Converts a literal to the type of the column it is compared with.
pub fn coerce_literal(val: &ComparisionValue, target: &DataType) -> (res: Option<Data>)
    ensures
        match res {
            Some(d) => coerced(val.deep_view(), *target) == Some(d.deep_view()),
            None => coerced(val.deep_view(), *target) is None,
        },
{
    match (val, target) {
        (ComparisionValue::I32(v), DataType::Int32) => Some(Data::Int32(*v)),
        (ComparisionValue::I64(v), DataType::Int64) => Some(Data::Int64(*v)),
        (ComparisionValue::F32(v), DataType::Float32) => Some(Data::Float32(*v)),
        (ComparisionValue::F64(v), DataType::Float64) => Some(Data::Float64(*v)),
        (ComparisionValue::String(v), DataType::String) => Some(Data::String(v.clone())),
        (ComparisionValue::I32(v), DataType::Int64) => Some(Data::Int64(*v as i64)),
        (ComparisionValue::I64(v), DataType::Int32) => {
            let low: u32 = (i64_to_bits(*v) % 0x1_0000_0000) as u32;
            Some(Data::Int32(i32_from_bits(low)))
        },
        (ComparisionValue::I32(v), DataType::Float64) => Some(
            Data::Float64(f64_from_i64(*v as i64)),
        ),
        (ComparisionValue::I64(v), DataType::Float64) => Some(Data::Float64(f64_from_i64(*v))),
        (ComparisionValue::F32(v), DataType::Float64) => Some(Data::Float64(f64_from_f32(*v))),
        _ => None,
    }
}

/// What a test of a row gives: whether the row passes, or what the test lacks.
pub open spec fn test_outcome(row: Seq<Val>, columns: Seq<Column>, test: Test) -> Result<
    bool,
    Fault,
> {
    match schema::column_index(columns, test.column) {
        None => Err(Fault::FilterColumn(test.column)),
        Some(i) => match test.value {
            Operand::Column(other) => match schema::column_index(columns, other) {
                None => Err(Fault::FilterRhsColumn(other)),
                Some(j) => Ok(vals_compare(row[i], test.operator, row[j])),
            },
            literal => match coerced(literal, columns[i].data_type) {
                None => Err(Fault::FilterCoercion(test.column)),
                Some(v) => Ok(vals_compare(row[i], test.operator, v)),
            },
        },
    }
}

/// What a sequence of tests gives: the tests are made in turn, up to the first
/// that does not pass.
pub open spec fn tests_outcome(row: Seq<Val>, columns: Seq<Column>, tests: Seq<Test>) -> Result<
    bool,
    Fault,
>
    decreases tests.len(),
{
    if tests.len() == 0 {
        Ok(true)
    } else {
        match tests_outcome(row, columns, tests.drop_last()) {
            Ok(true) => test_outcome(row, columns, tests.last()),
            other => other,
        }
    }
}

/// The mathematical value of the outcome of a test.
pub open spec fn outcome_view(res: Result<bool, DbError>) -> Result<bool, Fault> {
    match res {
        Ok(b) => Ok(b),
        Err(e) => Err(e@),
    }
}

proof fn lemma_tests_stop(row: Seq<Val>, columns: Seq<Column>, tests: Seq<Test>, n: int)
    requires
        0 <= n <= tests.len(),
        tests_outcome(row, columns, tests.take(n)) != Ok::<bool, Fault>(true),
    ensures
        tests_outcome(row, columns, tests) == tests_outcome(row, columns, tests.take(n)),
    decreases tests.len() - n,
{
    if n == tests.len() {
        assert(tests.take(n) =~= tests);
    } else {
        assert(tests.take(n + 1).drop_last() =~= tests.take(n));
        lemma_tests_stop(row, columns, tests, n + 1);
    }
}

/// Makes one test of a row.
fn apply_predicate(row: &Vec<Data>, schema: &Vec<ColumnInfo>, pred: &Predicate) -> (res: Result<
    bool,
    DbError,
>)
    requires
        row@.len() >= schema@.len(),
    ensures
        outcome_view(res) == test_outcome(row.deep_view(), schema.deep_view(), pred.deep_view()),
{
    proof {
        seqs::lemma_first_where(
            schema.deep_view(),
            |c: Column| c.name == pred.column_name@,
        );
    }
    let i = match find_column(schema, &pred.column_name) {
        Some(i) => i,
        None => {
            return Err(DbError::FilterColumn(pred.column_name.clone()));
        },
    };
    match &pred.value {
        ComparisionValue::Column(other) => match find_column(schema, other) {
            Some(j) => Ok(compare_data(&row[i], &pred.operator, &row[j])),
            None => Err(DbError::FilterRhsColumn(other.clone())),
        },
        literal => match coerce_literal(literal, &schema[i].data_type) {
            Some(v) => Ok(compare_data(&row[i], &pred.operator, &v)),
            None => Err(DbError::FilterCoercion(pred.column_name.clone())),
        },
    }
}

/// Tests a row against all predicates.
pub fn apply_predicates(
    row: &Vec<Data>,
    schema: &Vec<ColumnInfo>,
    predicates: &Vec<Predicate>,
) -> (res: Result<bool, DbError>)
    requires
        row@.len() >= schema@.len(),
    ensures
        outcome_view(res) == tests_outcome(
            row.deep_view(),
            schema.deep_view(),
            predicates.deep_view(),
        ),
{
    let ghost (r, c, t) = (row.deep_view(), schema.deep_view(), predicates.deep_view());
    let mut i: usize = 0;
    assert(t.take(0) =~= Seq::empty());
    while i < predicates.len()
        invariant
            i <= predicates@.len(),
            row@.len() >= schema@.len(),
            r == row.deep_view(),
            c == schema.deep_view(),
            t == predicates.deep_view(),
            tests_outcome(r, c, t.take(i as int)) == Ok::<bool, Fault>(true),
        decreases predicates@.len() - i,
    {
        proof {
            assert(t.take(i + 1).drop_last() =~= t.take(i as int));
            assert(t.take(i + 1).last() == t[i as int]);
        }
        match apply_predicate(row, schema, &predicates[i]) {
            Ok(true) => {},
            other => {
                proof {
                    lemma_tests_stop(r, c, t, i + 1);
                }
                return other;
            },
        }
        i += 1;
    }
    assert(t.take(i as int) =~= t);
    Ok(true)
}

/// A literal as a value of its own type.
pub open spec fn literal_val(v: Operand) -> Val {
    match v {
        Operand::I32(x) => Val::Int32(x),
        Operand::I64(x) => Val::Int64(x),
        Operand::F32(x) => Val::Float32(x),
        Operand::F64(x) => Val::Float64(x),
        Operand::Text(s) => Val::Text(s),
        Operand::Column(s) => Val::Text(s),
    }
}

/// What a test of a pair of rows gives. A literal keeps its own type.
pub open spec fn pair_test_outcome(row: Seq<Val>, columns: Seq<Column>, test: Test) -> Result<
    bool,
    Fault,
> {
    match schema::column_index(columns, test.column) {
        None => Err(Fault::PairColumn(test.column)),
        Some(i) => match test.value {
            Operand::Column(other) => match schema::column_index(columns, other) {
                None => Err(Fault::PairColumn(other)),
                Some(j) => Ok(vals_compare(row[i], test.operator, row[j])),
            },
            literal => Ok(vals_compare(row[i], test.operator, literal_val(literal))),
        },
    }
}

/// What a sequence of tests of a pair of rows gives.
pub open spec fn pair_tests_outcome(
    row: Seq<Val>,
    columns: Seq<Column>,
    tests: Seq<Test>,
) -> Result<bool, Fault>
    decreases tests.len(),
{
    if tests.len() == 0 {
        Ok(true)
    } else {
        match pair_tests_outcome(row, columns, tests.drop_last()) {
            Ok(true) => pair_test_outcome(row, columns, tests.last()),
            other => other,
        }
    }
}

/// Whether a test names columns that there are, and a literal of it has the type of the column
/// that it is compared with.
pub open spec fn test_fits(test: Test, columns: Seq<Column>) -> bool {
    schema::column_index(columns, test.column) matches Some(i) && match test.value {
        Operand::Column(other) => schema::column_index(columns, other) is Some,
        literal => val_type(literal_val(literal)) == columns[i].data_type,
    }
}

/// Whether all tests name columns that there are, and literals have their types.
pub open spec fn tests_fit(tests: Seq<Test>, columns: Seq<Column>) -> bool {
    forall|i: int| 0 <= i < tests.len() ==> test_fits(#[trigger] tests[i], columns)
}

/// Tests whose literals have the types of their columns can be made, and give the same of a
/// pair of rows as of one row.
pub proof fn tests_of_pairs_agree(row: Seq<Val>, columns: Seq<Column>, tests: Seq<Test>)
    requires
        tests_fit(tests, columns),
    ensures
        pair_tests_outcome(row, columns, tests) == tests_outcome(row, columns, tests),
        tests_outcome(row, columns, tests) is Ok,
    decreases tests.len(),
{
    if tests.len() > 0 {
        assert forall|i: int| 0 <= i < tests.drop_last().len() implies test_fits(
            #[trigger] tests.drop_last()[i],
            columns,
        ) by {
            assert(tests.drop_last()[i] == tests[i]);
        }
        tests_of_pairs_agree(row, columns, tests.drop_last());
        assert(test_fits(tests[tests.len() - 1], columns));
    }
}

proof fn lemma_pair_tests_stop(row: Seq<Val>, columns: Seq<Column>, tests: Seq<Test>, n: int)
    requires
        0 <= n <= tests.len(),
        pair_tests_outcome(row, columns, tests.take(n)) != Ok::<bool, Fault>(true),
    ensures
        pair_tests_outcome(row, columns, tests) == pair_tests_outcome(row, columns, tests.take(n)),
    decreases tests.len() - n,
{
    if n == tests.len() {
        assert(tests.take(n) =~= tests);
    } else {
        assert(tests.take(n + 1).drop_last() =~= tests.take(n));
        lemma_pair_tests_stop(row, columns, tests, n + 1);
    }
}

/// The value at a position of two rows, one behind the other.
fn pair_value<'a>(left: &'a Vec<Data>, right: &'a Vec<Data>, i: usize) -> (res: &'a Data)
    requires
        i < left@.len() + right@.len(),
    ensures
        res.deep_view() == (left.deep_view() + right.deep_view())[i as int],
{
    if i < left.len() {
        &left[i]
    } else {
        &right[i - left.len()]
    }
}

/// Makes one test of a pair of rows.
fn apply_split_predicate(
    left: &Vec<Data>,
    right: &Vec<Data>,
    schema: &Vec<ColumnInfo>,
    pred: &Predicate,
) -> (res: Result<bool, DbError>)
    requires
        left@.len() + right@.len() >= schema@.len(),
    ensures
        outcome_view(res) == pair_test_outcome(
            left.deep_view() + right.deep_view(),
            schema.deep_view(),
            pred.deep_view(),
        ),
{
    let i = match find_column(schema, &pred.column_name) {
        Some(i) => i,
        None => {
            return Err(DbError::PairColumn(pred.column_name.clone()));
        },
    };
    let val = pair_value(left, right, i);
    match &pred.value {
        ComparisionValue::Column(other) => match find_column(schema, other) {
            Some(j) => Ok(compare_data(val, &pred.operator, pair_value(left, right, j))),
            None => Err(DbError::PairColumn(other.clone())),
        },
        ComparisionValue::I32(v) => Ok(compare_data(val, &pred.operator, &Data::Int32(*v))),
        ComparisionValue::I64(v) => Ok(compare_data(val, &pred.operator, &Data::Int64(*v))),
        ComparisionValue::F32(v) => Ok(compare_data(val, &pred.operator, &Data::Float32(*v))),
        ComparisionValue::F64(v) => Ok(compare_data(val, &pred.operator, &Data::Float64(*v))),
        ComparisionValue::String(v) => Ok(
            compare_data(val, &pred.operator, &Data::String(v.clone())),
        ),
    }
}

/// Tests a pair of rows against all predicates. The columns of the schema are
/// those of the left row and then those of the right row.
pub fn apply_split_predicates(
    left: &Vec<Data>,
    right: &Vec<Data>,
    schema: &Vec<ColumnInfo>,
    predicates: &Vec<Predicate>,
) -> (res: Result<bool, DbError>)
    requires
        left@.len() + right@.len() >= schema@.len(),
    ensures
        outcome_view(res) == pair_tests_outcome(
            left.deep_view() + right.deep_view(),
            schema.deep_view(),
            predicates.deep_view(),
        ),
{
    let ghost r = left.deep_view() + right.deep_view();
    let ghost (c, t) = (schema.deep_view(), predicates.deep_view());
    let mut i: usize = 0;
    assert(t.take(0) =~= Seq::empty());
    while i < predicates.len()
        invariant
            i <= predicates@.len(),
            left@.len() + right@.len() >= schema@.len(),
            r == left.deep_view() + right.deep_view(),
            c == schema.deep_view(),
            t == predicates.deep_view(),
            pair_tests_outcome(r, c, t.take(i as int)) == Ok::<bool, Fault>(true),
        decreases predicates@.len() - i,
    {
        proof {
            assert(t.take(i + 1).drop_last() =~= t.take(i as int));
            assert(t.take(i + 1).last() == t[i as int]);
        }
        match apply_split_predicate(left, right, schema, &predicates[i]) {
            Ok(true) => {},
            other => {
                proof {
                    lemma_pair_tests_stop(r, c, t, i + 1);
                }
                return other;
            },
        }
        i += 1;
    }
    assert(t.take(i as int) =~= t);
    Ok(true)
}

// ---- what is read back ----

/// Whether the bytes `part` stand at a position of the data.
pub open spec fn found_at(data: Seq<u8>, offset: int, part: Seq<u8>) -> bool {
    &&& 0 <= offset
    &&& offset + part.len() <= data.len()
    &&& data.subrange(offset, offset + part.len()) == part
}

/// A value is decoded from its bytes as it was.
pub proof fn encoded_value_is_decoded(data: Seq<u8>, offset: int, v: Val)
    requires
        found_at(data, offset, encode_val(v)),
        storable(v),
    ensures
        decode_val(data, offset, val_type(v)) == Ok::<(Val, int), Fault>(
            (v, offset + encode_val(v).len()),
        ),
{
    let enc = encode_val(v);
    bytes::lemma_pow256();
    match v {
        Val::Int32(x) => {
            bytes::lemma_le_round_trip(bytes::i32_bits(x), 4);
        },
        Val::Int64(x) => {
            bytes::lemma_le_round_trip(bytes::i64_bits(x), 8);
        },
        Val::Float32(x) => {
            bytes::lemma_le_round_trip(x as nat, 4);
        },
        Val::Float64(x) => {
            bytes::lemma_le_round_trip(x as nat, 8);
        },
        Val::Text(s) => {
            let u = encode_utf8(s);
            let tail = data.skip(offset);
            bytes::lemma_no_zero_byte(s);
            assert forall|i: int| 0 <= i < enc.len() implies #[trigger] tail[i] == enc[i] by {
                assert(data.subrange(offset, offset + enc.len())[i] == data[offset + i]);
            }
            assert forall|j: int| 0 <= j < u.len() implies !(|b: u8| b == 0u8)(
                #[trigger] tail[j],
            ) by {
                assert(enc[j] == u[j]);
            }
            assert(enc[u.len() as int] == 0u8);
            seqs::lemma_first_where_is(tail, |b: u8| b == 0u8, u.len() as int);
            assert(data.subrange(offset, offset + u.len()) =~= u) by {
                assert forall|i: int| 0 <= i < u.len() implies data.subrange(
                    offset,
                    offset + u.len(),
                )[i] == u[i] by {
                    assert(tail[i] == enc[i]);
                }
            }
            encode_utf8_valid_utf8(s);
            encode_utf8_decode_utf8(s);
        },
    }
}

/// A row is decoded from its bytes as it was, wherever they stand, by the columns
/// whose types it has.
pub proof fn encoded_row_is_decoded(
    data: Seq<u8>,
    offset: int,
    row: Seq<Val>,
    columns: Seq<Column>,
)
    requires
        found_at(data, offset, encode_vals(row)),
        row_fits(row, columns),
        row_storable(row),
    ensures
        decode_vals(data, offset, columns) == Ok::<(Seq<Val>, int), Fault>(
            (row, offset + encode_vals(row).len()),
        ),
    decreases row.len(),
{
    if row.len() == 0 {
        assert(row =~= Seq::empty());
    } else {
        let before = row.drop_last();
        let head = encode_vals(before);
        let enc = encode_val(row.last());
        let whole = data.subrange(offset, offset + encode_vals(row).len());
        assert(data.subrange(offset, offset + head.len()) =~= head) by {
            assert forall|i: int| 0 <= i < head.len() implies data.subrange(
                offset,
                offset + head.len(),
            )[i] == head[i] by {
                assert(whole[i] == data[offset + i]);
            }
        }
        let at = offset + head.len();
        assert(data.subrange(at, at + enc.len()) =~= enc) by {
            assert forall|i: int| 0 <= i < enc.len() implies data.subrange(at, at + enc.len())[i]
                == enc[i] by {
                assert(whole[head.len() + i] == data[at + i]);
            }
        }
        assert(row_fits(before, columns.drop_last())) by {
            assert forall|i: int| 0 <= i < before.len() implies val_type(#[trigger] before[i])
                == columns.drop_last()[i].data_type by {
                assert(before[i] == row[i]);
            }
        }
        assert(row_storable(before)) by {
            assert forall|i: int| 0 <= i < before.len() implies storable(#[trigger] before[i]) by {
                assert(before[i] == row[i]);
            }
        }
        encoded_row_is_decoded(data, offset, before, columns.drop_last());
        encoded_value_is_decoded(data, at, row.last());
        assert(before.push(row.last()) =~= row);
    }
}

/// A row of which only some columns are wanted is the whole row with blanks in
/// the places of the others, and ends in the same place.
pub proof fn wanted_columns_are_decoded(
    data: Seq<u8>,
    offset: int,
    columns: Seq<Column>,
    wanted: Seq<bool>,
)
    requires
        decode_vals(data, offset, columns) is Ok,
    ensures
        decode_some(data, offset, columns, Some(wanted)) matches Ok((some, end)) && {
            let whole = decode_vals(data, offset, columns)->Ok_0;
            &&& end == whole.1
            &&& some.len() == whole.0.len() == columns.len()
            &&& forall|i: int|
                0 <= i < columns.len() ==> #[trigger] some[i] == if wanted[i] {
                    whole.0[i]
                } else {
                    blank(columns[i].data_type)
                }
        },
    decreases columns.len(),
{
    if columns.len() > 0 {
        wanted_columns_are_decoded(data, offset, columns.drop_last(), wanted);
    }
}

} // verus!
