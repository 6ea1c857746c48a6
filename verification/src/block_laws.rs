//! Laws of blocks: how rows lie in them, and what is read from bytes.

use vstd::prelude::*;
use vstd::utf8::*;

use crate::block::Packing;
use crate::block;
use crate::bytes;
use crate::error::Fault;
use crate::row;
use crate::schema::Column;
use crate::seqs;
use crate::value::{DataType, Val};

verus! {

/// A block has the bytes of its rows in front, as far as they fit, zeros behind them, and the
/// number of rows in its last two bytes, the lower one first, from which it is read.
pub proof fn a_block_holds_rows_and_their_number(rows: Seq<u8>, count: u16, block_size: nat, i: int)
    requires
        block_size >= 2,
    ensures
        ({
            let b = block::sealed(rows, count, block_size);
            &&& b.len() == block_size
            &&& 0 <= i < rows.len() && i < block_size - 2 ==> b[i] == rows[i]
            &&& rows.len() <= i < block_size - 2 ==> b[i] == 0
            &&& b[block_size - 2] + 256 * b[block_size - 1] == count
            &&& block::block_count(b, block_size) == count
        }),
{
    let b = block::sealed(rows, count, block_size);
    reveal_with_fuel(bytes::le_bytes, 3);
    reveal_with_fuel(bytes::le_value, 3);
    let tail = bytes::le_bytes(count as nat, 2);
    assert(tail.len() == 2);
    assert(tail[0] == count % 256);
    assert(tail[1] == count / 256 % 256);
    let end = b.subrange(block_size - 2, block_size as int);
    assert(end =~= tail);
    assert(end.drop_first().drop_first().len() == 0);
}

/// A row goes behind those of the open block where it has room for it beside their number.
/// Otherwise the open block is closed, and the row is the first of the next one. Rows are counted
/// within 16 bits.
pub proof fn a_row_goes_where_there_is_room(p: Packing, r: Seq<u8>, block_size: nat)
    requires
        block_size >= 2,
        p.open.len() + 2 <= block_size,
    ensures
        ({
            let q = block::packing_with(p, r, block_size);
            if p.open.len() + r.len() + 2 <= block_size {
                &&& q.full == p.full
                &&& q.open == p.open + r
                &&& q.count == (p.count + 1) % 0x1_0000
            } else {
                &&& q.full.len() == p.full.len() + block_size
                &&& q.full.take(p.full.len() as int) == p.full
                &&& q.full.skip(p.full.len() as int) == block::sealed(p.open, p.count, block_size)
                &&& q.open == r
                &&& q.count == 1
            }
        }),
{
    let q = block::packing_with(p, r, block_size);
    let b = block::sealed(p.open, p.count, block_size);
    a_block_holds_rows_and_their_number(p.open, p.count, block_size, 0);
    if p.open.len() + r.len() + 2 > block_size {
        assert(q.full == p.full + b);
        assert(q.full.take(p.full.len() as int) =~= p.full);
        assert(q.full.skip(p.full.len() as int) =~= b);
        assert(q.open =~= r);
    }
}

/// The last block is closed where rows stand in it, and no empty block follows.
pub proof fn the_last_block_is_closed(p: Packing, block_size: nat)
    ensures
        p.open.len() == 0 ==> block::packing_finished(p, block_size) == p,
        p.open.len() > 0 ==> block::packing_finished(p, block_size).full == p.full + block::sealed(
            p.open,
            p.count,
            block_size,
        ) && block::packing_finished(p, block_size).open.len() == 0 && block::packing_finished(
            p,
            block_size,
        ).count == 0,
{
}

proof fn lemma_bytes_of_value(s: Seq<u8>)
    ensures
        bytes::le_bytes(bytes::le_value(s), s.len()) == s,
    decreases s.len(),
{
    if s.len() > 0 {
        let rest = s.drop_first();
        lemma_bytes_of_value(rest);
        let v = bytes::le_value(rest);
        let x = bytes::le_value(s);
        assert(x == s[0] + 256 * v);
        assert(x % 256 == s[0] && x / 256 == v);
        assert(bytes::le_bytes(x, s.len()) =~= seq![s[0]] + rest);
        assert(s =~= seq![s[0]] + rest);
    } else {
        assert(bytes::le_bytes(bytes::le_value(s), 0) =~= s);
    }
}

/// What is read of a type is of that type, and stands there as it is stored: storing it gives
/// the same bytes again.
pub proof fn what_is_read_is_stored_there(data: Seq<u8>, offset: int, t: DataType)
    requires
        offset >= 0,
    ensures
        row::decode_val(data, offset, t) matches Ok((v, end)) ==> {
            &&& row::val_type(v) == t
            &&& offset <= end <= data.len()
            &&& data.subrange(offset, end) == row::encode_val(v)
        },
{
    if row::decode_val(data, offset, t) is Ok {
        let (v, end) = row::decode_val(data, offset, t)->Ok_0;
        if t == DataType::String {
            let p = |b: u8| b == 0u8;
            let rest = data.skip(offset);
            seqs::lemma_first_where(rest, p);
            let n = seqs::first_where(rest, p)->Some_0;
            assert(p(rest[n]));
            assert(data[offset + n] == 0);
            let text = data.subrange(offset, end - 1);
            decode_utf8_encode_utf8(text);
            assert(data.subrange(offset, end) =~= text.push(0u8));
        } else {
            let part = data.subrange(offset, end);
            lemma_bytes_of_value(part);
            bytes::lemma_le_value_bound(part);
            bytes::lemma_pow256();
        }
    }
}

/// A value is not read where too few bytes are left for its type, and a text not where no
/// zero byte follows or what stands before it is not UTF-8.
pub proof fn what_cannot_be_read_is_told(data: Seq<u8>, offset: int, t: DataType)
    requires
        offset >= 0,
    ensures
        t == DataType::Int32 || t == DataType::Float32 ==> (row::decode_val(data, offset, t) is Err
            <==> offset + 4 > data.len()),
        t == DataType::Int64 || t == DataType::Float64 ==> (row::decode_val(data, offset, t) is Err
            <==> offset + 8 > data.len()),
        t != DataType::String && row::decode_val(data, offset, t) is Err ==> row::decode_val(
            data,
            offset,
            t,
        ) == Err::<(Val, int), Fault>(Fault::Truncated),
        t == DataType::String && offset > data.len() ==> row::decode_val(data, offset, t) == Err::<
            (Val, int),
            Fault,
        >(Fault::Truncated),
        t == DataType::String && offset <= data.len() ==> (row::decode_val(data, offset, t) == Err::<
            (Val, int),
            Fault,
        >(Fault::MissingTerminator) <==> (forall|i: int|
            offset <= i < data.len() ==> #[trigger] data[i] != 0)),
        t == DataType::String && row::decode_val(data, offset, t) == Err::<(Val, int), Fault>(
            Fault::InvalidUtf8,
        ) ==> exists|end: int|
            offset <= end < data.len() && data[end] == 0 && !valid_utf8(
                #[trigger] data.subrange(offset, end),
            ),
{
    if t == DataType::String && offset <= data.len() {
        let p = |b: u8| b == 0u8;
        let rest = data.skip(offset);
        seqs::lemma_first_where(rest, p);
        match seqs::first_where(rest, p) {
            Some(n) => {
                assert(p(rest[n]));
                assert(data[offset + n] == 0);
                assert(offset + n + 1 - 1 == offset + n);
            },
            None => {
                assert forall|i: int| offset <= i < data.len() implies #[trigger] data[i] != 0 by {
                    assert(!p(rest[i - offset]));
                }
            },
        }
    }
}

/// Rows are read one behind the other: each begins where the one before it ends.
pub proof fn rows_are_read_one_behind_the_other(
    data: Seq<u8>,
    offset: int,
    columns: Seq<Column>,
    wanted: Option<Seq<bool>>,
    n: nat,
)
    ensures
        block::rows_from(data, offset, columns, wanted, n + 1) matches Ok((rows, end)) ==> {
            &&& block::rows_from(data, offset, columns, wanted, n) matches Ok((some, at))
            &&& rows.len() == n + 1
            &&& rows.drop_last() == some
            &&& row::decode_some(data, at, columns, wanted) == Ok::<(Seq<Val>, int), Fault>(
                (rows.last(), end),
            )
        },
    decreases n,
{
    if n > 0 {
        rows_are_read_one_behind_the_other(data, offset, columns, wanted, (n - 1) as nat);
    }
    if block::rows_from(data, offset, columns, wanted, n + 1) is Ok {
        let (rows, end) = block::rows_from(data, offset, columns, wanted, n + 1)->Ok_0;
        let (some, at) = block::rows_from(data, offset, columns, wanted, n)->Ok_0;
        assert(rows.drop_last() =~= some);
    }
}

} // verus!
