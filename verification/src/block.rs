//! Blocks: rows behind one another, zeros, and in the last two bytes the number
//! of rows.

use vstd::multiset::Multiset;
use vstd::prelude::*;

use crate::bytes::{append_bytes, get_le, put_le};
use crate::bytes;
use crate::error::{DbError, Fault};
use crate::row::{decode_row_partial, encode_row};
use crate::row;
use crate::schema::{Column, ColumnInfo};
use crate::value::{Data, Val};

verus! {

/// Bytes brought to a length: zeros are put behind them, or what is too much is
/// cut off.
pub open spec fn resized(s: Seq<u8>, n: nat) -> Seq<u8> {
    if s.len() <= n {
        s + Seq::new((n - s.len()) as nat, |i: int| 0u8)
    } else {
        s.take(n as int)
    }
}

/// A block of these row bytes and this number of rows.
pub open spec fn sealed(rows: Seq<u8>, count: u16, block_size: nat) -> Seq<u8> {
    resized(rows, (block_size - 2) as nat) + bytes::le_bytes(count as nat, 2)
}

/// Rows on their way into blocks: the blocks that are full, and the rows of the
/// block that is open.
pub struct Packing {
    pub full: Seq<u8>,
    pub open: Seq<u8>,
    pub count: u16,
}

/// Nothing packed yet.
pub open spec fn nothing_packed() -> Packing {
    Packing { full: Seq::empty(), open: Seq::empty(), count: 0 }
}

/// The open block is closed.
pub open spec fn packing_sealed(p: Packing, block_size: nat) -> Packing {
    Packing {
        full: p.full + sealed(p.open, p.count, block_size),
        open: Seq::empty(),
        count: 0,
    }
}

/// The open block is closed if anything stands in it.
pub open spec fn packing_finished(p: Packing, block_size: nat) -> Packing {
    if p.open.len() > 0 {
        packing_sealed(p, block_size)
    } else {
        p
    }
}

/// A number of rows and one more, within 16 bits.
pub open spec fn one_more(count: u16) -> u16 {
    if count == u16::MAX {
        0
    } else {
        (count + 1) as u16
    }
}

/// A row is packed: into the open block if it has room for it, else into the
/// next block.
pub open spec fn packing_with(p: Packing, row: Seq<u8>, block_size: nat) -> Packing {
    let q = if p.open.len() + row.len() > block_size - 2 {
        packing_sealed(p, block_size)
    } else {
        p
    };
    Packing { full: q.full, open: q.open + row, count: one_more(q.count) }
}

/// Rows are packed in turn.
pub open spec fn packing_with_all(p: Packing, rows: Seq<Seq<u8>>, block_size: nat) -> Packing
    decreases rows.len(),
{
    if rows.len() == 0 {
        p
    } else {
        packing_with(packing_with_all(p, rows.drop_last(), block_size), rows.last(), block_size)
    }
}

/// Whether what is full is whole blocks.
pub open spec fn is_whole(p: Packing, block_size: nat) -> bool {
    p.full.len() % block_size == 0
}

/// Closing the open block leaves whole blocks.
pub proof fn lemma_sealed_whole(p: Packing, block_size: nat)
    requires
        block_size >= 2,
        is_whole(p, block_size),
    ensures
        is_whole(packing_sealed(p, block_size), block_size),
        is_whole(packing_finished(p, block_size), block_size),
{
    bytes::lemma_le_bytes_len(p.count as nat, 2);
    assert(sealed(p.open, p.count, block_size).len() == block_size);
    vstd::arithmetic::div_mod::lemma_mod_add_multiples_vanish(
        p.full.len() as int,
        block_size as int,
    );
}

/// Packing a row leaves whole blocks.
pub proof fn lemma_packing_whole(p: Packing, row: Seq<u8>, block_size: nat)
    requires
        block_size >= 2,
        is_whole(p, block_size),
    ensures
        is_whole(packing_with(p, row, block_size), block_size),
{
    lemma_sealed_whole(p, block_size);
}

proof fn lemma_packing_all_whole(rows: Seq<Seq<u8>>, block_size: nat)
    requires
        block_size >= 2,
    ensures
        is_whole(packing_with_all(nothing_packed(), rows, block_size), block_size),
    decreases rows.len(),
{
    if rows.len() > 0 {
        lemma_packing_all_whole(rows.drop_last(), block_size);
        lemma_packing_whole(
            packing_with_all(nothing_packed(), rows.drop_last(), block_size),
            rows.last(),
            block_size,
        );
    } else {
        assert(0nat % block_size == 0) by (nonlinear_arith)
            requires
                block_size >= 2,
        ;
    }
}

/// Rows that are packed fill whole blocks.
pub proof fn packed_rows_fill_blocks(rows: Seq<Seq<u8>>, block_size: nat)
    requires
        block_size >= 2,
    ensures
        ({
            let data = packing_finished(
                packing_with_all(nothing_packed(), rows, block_size),
                block_size,
            ).full;
            data.len() == (data.len() / block_size) * block_size
        }),
{
    let p = packing_with_all(nothing_packed(), rows, block_size);
    lemma_packing_all_whole(rows, block_size);
    lemma_sealed_whole(p, block_size);
    lemma_whole(packing_finished(p, block_size).full.len(), block_size);
}

/// The number of whole blocks.
pub proof fn lemma_whole(len: nat, block_size: nat)
    requires
        block_size >= 2,
        len % block_size == 0,
    ensures
        len == (len / block_size) * block_size,
{
    vstd::arithmetic::div_mod::lemma_fundamental_div_mod(len as int, block_size as int);
    assert((block_size as int) * (len as int / block_size as int) == (len / block_size)
        * block_size) by (nonlinear_arith);
}

/// The bytes of rows, row by row.
pub open spec fn rows_bytes(rows: Seq<Seq<Val>>) -> Seq<Seq<u8>> {
    rows.map_values(|r: Seq<Val>| row::encode_vals(r))
}

/// The blocks of rows.
pub open spec fn packed_rows(rows: Seq<Seq<Val>>, block_size: nat) -> Seq<u8> {
    packing_finished(
        packing_with_all(nothing_packed(), rows_bytes(rows), block_size),
        block_size,
    ).full
}

/// Rows on their way into blocks.
pub struct BlockWriter {
    pub bytes: Vec<u8>,
    pub current_block: Vec<u8>,
    pub row_count: u16,
}

impl View for BlockWriter {
    type V = Packing;

    open spec fn view(&self) -> Packing {
        Packing { full: self.bytes@, open: self.current_block@, count: self.row_count }
    }
}

fn resize_to(v: &mut Vec<u8>, n: usize)
    ensures
        final(v)@ == resized(old(v)@, n as nat),
{
    let ghost before = v@;
    if v.len() <= n {
        v.resize(n, 0);
    } else {
        v.truncate(n);
    }
    assert(v@ =~= resized(before, n as nat));
}

impl BlockWriter {
    /// A writer of nothing.
    pub fn new() -> (res: BlockWriter)
        ensures
            res@ == nothing_packed(),
    {
        BlockWriter { bytes: Vec::new(), current_block: Vec::new(), row_count: 0 }
    }

    /// Closes the open block.
    pub fn seal(&mut self, block_size: usize)
        requires
            block_size >= 2,
        ensures
            final(self)@ == packing_sealed(old(self)@, block_size as nat),
    {
        let ghost before = self@;
        resize_to(&mut self.current_block, block_size - 2);
        put_le(self.row_count as u64, 2, &mut self.current_block);
        self.bytes.append(&mut self.current_block);
        self.row_count = 0;
        assert(self.bytes@ =~= before.full + sealed(before.open, before.count, block_size as nat));
    }

    /// Closes the open block if anything stands in it.
    pub fn finish_block(&mut self, block_size: usize)
        requires
            block_size >= 2,
        ensures
            final(self)@ == packing_finished(old(self)@, block_size as nat),
    {
        if self.current_block.len() > 0 {
            self.seal(block_size);
        }
    }

    /// Packs the bytes of a row.
    pub fn push_encoded(&mut self, row: &[u8], block_size: usize)
        requires
            block_size >= 2,
        ensures
            final(self)@ == packing_with(old(self)@, row@, block_size as nat),
    {
        let room: usize = block_size - 2;
        if row.len() > room || self.current_block.len() > room - row.len() {
            self.seal(block_size);
        }
        append_bytes(&mut self.current_block, row);
        self.row_count = if self.row_count == u16::MAX {
            0
        } else {
            self.row_count + 1
        };
    }

    /// Packs a row.
    pub fn push_row(&mut self, row: &Vec<Data>, block_size: usize)
        requires
            block_size >= 2,
        ensures
            final(self)@ == packing_with(
                old(self)@,
                row::encode_vals(row.deep_view()),
                block_size as nat,
            ),
    {
        let mut scratch: Vec<u8> = Vec::new();
        encode_row(row, &mut scratch);
        assert(scratch@ =~= row::encode_vals(row.deep_view()));
        self.push_encoded(scratch.as_slice(), block_size);
    }
}

/// Packs rows into blocks.
pub fn pack_rows_into_blocks(rows: &Vec<Vec<Data>>, block_size: usize) -> (res: Vec<u8>)
    requires
        block_size >= 2,
    ensures
        res@ == packed_rows(rows.deep_view(), block_size as nat),
{
    let mut w = BlockWriter::new();
    let ghost all = rows_bytes(rows.deep_view());
    let mut i: usize = 0;
    assert(all.take(0) =~= Seq::empty());
    while i < rows.len()
        invariant
            i <= rows@.len(),
            block_size >= 2,
            all == rows_bytes(rows.deep_view()),
            w@ == packing_with_all(nothing_packed(), all.take(i as int), block_size as nat),
        decreases rows@.len() - i,
    {
        proof {
            assert(all.take(i + 1).drop_last() =~= all.take(i as int));
            assert(all.take(i + 1).last() == row::encode_vals(rows@[i as int].deep_view()));
        }
        w.push_row(&rows[i], block_size);
        i += 1;
    }
    assert(all.take(i as int) =~= all);
    w.finish_block(block_size);
    w.bytes
}

// ---- reading blocks ----

/// The number of rows that a block says it holds.
pub open spec fn block_count(block: Seq<u8>, block_size: nat) -> nat {
    bytes::le_value(block.subrange(block_size - 2, block_size as int))
}

/// The first `n` rows from `offset` on.
pub open spec fn rows_from(
    data: Seq<u8>,
    offset: int,
    columns: Seq<Column>,
    wanted: Option<Seq<bool>>,
    n: nat,
) -> Result<(Seq<Seq<Val>>, int), Fault>
    decreases n,
{
    if n == 0 {
        Ok((Seq::empty(), offset))
    } else {
        match rows_from(data, offset, columns, wanted, (n - 1) as nat) {
            Err(e) => Err(e),
            Ok((rows, at)) => match row::decode_some(data, at, columns, wanted) {
                Err(e) => Err(e),
                Ok((r, end)) => Ok((rows.push(r), end)),
            },
        }
    }
}

/// The rows of a block.
pub open spec fn block_rows(block: Seq<u8>, block_size: nat, columns: Seq<Column>) -> Result<
    Seq<Seq<Val>>,
    Fault,
> {
    if block.len() < 2 {
        Ok(Seq::empty())
    } else {
        match rows_from(block, 0, columns, None, block_count(block, block_size)) {
            Err(e) => Err(e),
            Ok((rows, _)) => Ok(rows),
        }
    }
}

/// The mathematical value of rows that were read.
pub open spec fn rows_view(res: Result<Vec<Vec<Data>>, DbError>) -> Result<Seq<Seq<Val>>, Fault> {
    match res {
        Ok(rows) => Ok(rows.deep_view()),
        Err(e) => Err(e@),
    }
}

proof fn lemma_rows_fail(
    data: Seq<u8>,
    offset: int,
    columns: Seq<Column>,
    wanted: Option<Seq<bool>>,
    k: nat,
    n: nat,
)
    requires
        k <= n,
        rows_from(data, offset, columns, wanted, k) is Err,
    ensures
        rows_from(data, offset, columns, wanted, n) == rows_from(data, offset, columns, wanted, k),
    decreases n,
{
    if k < n {
        lemma_rows_fail(data, offset, columns, wanted, k, (n - 1) as nat);
    }
}

/// Reads the number of rows of a block.
pub fn read_count(block: &[u8], block_size: usize) -> (res: usize)
    requires
        2 <= block_size <= block@.len(),
    ensures
        res == block_count(block@, block_size as nat),
        res <= 0xffff,
{
    proof {
        bytes::lemma_pow256();
    }
    assert(block@.len() == block.len());
    get_le(block, block_size - 2, 2) as usize
}

/// Decodes all rows of a block.
pub fn unpack_block(block: &[u8], block_size: usize, schema: &Vec<ColumnInfo>) -> (res: Result<
    Vec<Vec<Data>>,
    DbError,
>)
    requires
        block@.len() >= 2 ==> 2 <= block_size <= block@.len(),
    ensures
        rows_view(res) == block_rows(block@, block_size as nat, schema.deep_view()),
        res matches Ok(rows) ==> forall|i: int|
            0 <= i < rows@.len() ==> (#[trigger] rows@[i])@.len() == schema@.len(),
{
    let mut rows: Vec<Vec<Data>> = Vec::new();
    assert(rows.deep_view() =~= Seq::<Seq<Val>>::empty());
    if block.len() < 2 {
        return Ok(rows);
    }
    let count: usize = read_count(block, block_size);
    let ghost c = schema.deep_view();
    let mut offset: usize = 0;
    let mut i: usize = 0;
    while i < count
        invariant
            i <= count,
            count == block_count(block@, block_size as nat),
            block@.len() >= 2,
            c == schema.deep_view(),
            rows_from(block@, 0, c, None, i as nat) == Ok::<(Seq<Seq<Val>>, int), Fault>(
                (rows.deep_view(), offset as int),
            ),
            forall|j: int| 0 <= j < rows@.len() ==> (#[trigger] rows@[j])@.len() == schema@.len(),
        decreases count - i,
    {
        match decode_row_partial(block, offset, schema, None) {
            Ok((r, end)) => {
                let ghost before = rows.deep_view();
                rows.push(r);
                assert(rows.deep_view() =~= before.push(r.deep_view()));
                offset = end;
            },
            Err(e) => {
                proof {
                    lemma_rows_fail(block@, 0, c, None, (i + 1) as nat, count as nat);
                }
                return Err(e);
            },
        }
        i += 1;
    }
    Ok(rows)
}

/// Block `i` of the data.
pub open spec fn nth_block(data: Seq<u8>, block_size: nat, i: int) -> Seq<u8> {
    data.subrange(i * block_size, i * block_size + block_size)
}

/// The rows of the first `n` blocks of the data.
pub open spec fn blocks_rows(data: Seq<u8>, block_size: nat, columns: Seq<Column>, n: nat) -> Result<
    Seq<Seq<Val>>,
    Fault,
>
    decreases n,
{
    if n == 0 {
        Ok(Seq::empty())
    } else {
        match blocks_rows(data, block_size, columns, (n - 1) as nat) {
            Err(e) => Err(e),
            Ok(before) => match block_rows(
                nth_block(data, block_size, n - 1),
                block_size,
                columns,
            ) {
                Err(e) => Err(e),
                Ok(rows) => Ok(before + rows),
            },
        }
    }
}

/// Parts, one behind the other.
pub open spec fn joined(parts: Seq<Seq<u8>>) -> Seq<u8>
    decreases parts.len(),
{
    if parts.len() == 0 {
        Seq::empty()
    } else {
        joined(parts.drop_last()) + parts.last()
    }
}

/// Whether a row can be kept in a block and read back: it has the types of the
/// columns, its bytes fit into a block and are not none, and no text of it holds
/// the character U+0000.
pub open spec fn packable(r: Seq<Val>, columns: Seq<Column>, block_size: nat) -> bool {
    &&& row::row_fits(r, columns)
    &&& row::row_storable(r)
    &&& 1 <= row::encode_vals(r).len() <= block_size - 2
}

/// Whether no more of the rows fit into one block than a block can count, whichever are
/// chosen.
pub open spec fn countable(rows: Multiset<Seq<Val>>, block_size: nat) -> bool {
    forall|some: Seq<Seq<Val>>|
        some.to_multiset().subset_of(rows) && (#[trigger] joined(rows_bytes(some))).len()
            <= block_size - 2 ==> some.len() <= 0xffff
}

/// Whether each row can be kept in a block and read back.
pub open spec fn each_packable(
    rows: Seq<Seq<Val>>,
    columns: Seq<Column>,
    block_size: nat,
) -> bool {
    forall|i: int| 0 <= i < rows.len() ==> packable(#[trigger] rows[i], columns, block_size)
}

/// Whether all rows can be kept in blocks and read back, in whatever order.
pub open spec fn all_packable(
    rows: Seq<Seq<Val>>,
    columns: Seq<Column>,
    block_size: nat,
) -> bool {
    &&& each_packable(rows, columns, block_size)
    &&& countable(rows.to_multiset(), block_size)
}

/// The number of rows in the open block once rows were packed in turn.
pub open spec fn open_rows(rows: Seq<Seq<Val>>, block_size: nat) -> nat
    decreases rows.len(),
{
    if rows.len() == 0 {
        0
    } else {
        let p = packing_with_all(nothing_packed(), rows_bytes(rows.drop_last()), block_size);
        if p.open.len() + row::encode_vals(rows.last()).len() > block_size - 2 {
            1
        } else {
            open_rows(rows.drop_last(), block_size) + 1
        }
    }
}

/// Whether no block gets more rows than it can count while rows are packed in turn.
pub open spec fn counts_fit(rows: Seq<Seq<Val>>, block_size: nat) -> bool {
    forall|n: int|
        0 <= n <= rows.len() ==> #[trigger] open_rows(rows.take(n), block_size) <= 0xffff
}

/// Some of the rows can be kept in blocks and read back where all can.
pub proof fn lemma_some_packable(
    rows: Seq<Seq<Val>>,
    some: Seq<Seq<Val>>,
    columns: Seq<Column>,
    block_size: nat,
)
    requires
        all_packable(rows, columns, block_size),
        some.to_multiset().subset_of(rows.to_multiset()),
    ensures
        all_packable(some, columns, block_size),
{
    broadcast use vstd::seq_lib::group_to_multiset_ensures;

    assert forall|i: int| 0 <= i < some.len() implies packable(
        #[trigger] some[i],
        columns,
        block_size,
    ) by {
        assert(some.contains(some[i]));
        assert(some.to_multiset().count(some[i]) > 0);
        assert(rows.to_multiset().count(some[i]) > 0);
        assert(rows.contains(some[i]));
    }
    assert forall|few: Seq<Seq<Val>>|
        few.to_multiset().subset_of(some.to_multiset()) && (#[trigger] joined(
            rows_bytes(few),
        )).len() <= block_size - 2 implies few.len() <= 0xffff by {
        assert(few.to_multiset().subset_of(rows.to_multiset()));
    }
}

/// Rows one behind the other, and each part of them.
pub proof fn lemma_parts_packable(
    first: Seq<Seq<Val>>,
    second: Seq<Seq<Val>>,
    columns: Seq<Column>,
    block_size: nat,
)
    requires
        all_packable(first + second, columns, block_size),
    ensures
        all_packable(first, columns, block_size),
        all_packable(second, columns, block_size),
{
    vstd::seq_lib::lemma_multiset_commutative(first, second);
    lemma_some_packable(first + second, first, columns, block_size);
    lemma_some_packable(first + second, second, columns, block_size);
}

/// The rows before the last one.
pub proof fn lemma_front_packable(rows: Seq<Seq<Val>>, columns: Seq<Column>, block_size: nat)
    requires
        rows.len() > 0,
        all_packable(rows, columns, block_size),
    ensures
        all_packable(rows.drop_last(), columns, block_size),
        packable(rows.last(), columns, block_size),
{
    assert(rows.drop_last() + seq![rows.last()] =~= rows);
    lemma_parts_packable(rows.drop_last(), seq![rows.last()], columns, block_size);
    assert(packable(rows[rows.len() - 1], columns, block_size));
}

/// No row is to be kept.
pub proof fn lemma_none_packable(columns: Seq<Column>, block_size: nat)
    ensures
        all_packable(Seq::empty(), columns, block_size),
{
    broadcast use vstd::seq_lib::group_to_multiset_ensures;

    let none = Seq::<Seq<Val>>::empty();
    assert forall|some: Seq<Seq<Val>>|
        some.to_multiset().subset_of(none.to_multiset()) && (#[trigger] joined(
            rows_bytes(some),
        )).len() <= block_size - 2 implies some.len() <= 0xffff by {
        if some.len() > 0 {
            assert(some.contains(some[0]));
            assert(some.to_multiset().count(some[0]) > 0);
            assert(none.to_multiset().count(some[0]) > 0);
            assert(none.contains(some[0]));
        }
    }
}

/// Rows that are not empty are few enough for each block where a block has room for as many
/// bytes as it can count rows, or where there are no more rows in all.
pub proof fn few_rows_are_countable(
    rows: Seq<Seq<Val>>,
    columns: Seq<Column>,
    block_size: nat,
)
    requires
        forall|i: int| 0 <= i < rows.len() ==> packable(#[trigger] rows[i], columns, block_size),
        block_size <= 0x1_0001 || rows.len() <= 0xffff,
    ensures
        all_packable(rows, columns, block_size),
{
    broadcast use vstd::seq_lib::group_to_multiset_ensures;

    assert forall|some: Seq<Seq<Val>>|
        some.to_multiset().subset_of(rows.to_multiset()) && (#[trigger] joined(
            rows_bytes(some),
        )).len() <= block_size - 2 implies some.len() <= 0xffff by {
        if block_size <= 0x1_0001 {
            let parts = rows_bytes(some);
            assert forall|i: int| 0 <= i < parts.len() implies (#[trigger] parts[i]).len() >= 1 by {
                assert(some.contains(some[i]));
                assert(some.to_multiset().count(some[i]) > 0);
                assert(rows.to_multiset().count(some[i]) > 0);
                assert(rows.contains(some[i]));
                let k = choose|k: int| 0 <= k < rows.len() && rows[k] == some[i];
                assert(packable(rows[k], columns, block_size));
            }
            lemma_joined_count(parts);
        } else {
            vstd::multiset::axiom_len_sub(rows.to_multiset(), some.to_multiset());
        }
    }
}

pub proof fn lemma_joined_prefix(parts: Seq<Seq<u8>>, n: int)
    requires
        0 <= n <= parts.len(),
    ensures
        joined(parts.take(n)).len() <= joined(parts).len(),
        joined(parts).take(joined(parts.take(n)).len() as int) == joined(parts.take(n)),
    decreases parts.len() - n,
{
    if n == parts.len() {
        assert(parts.take(n) =~= parts);
        assert(joined(parts).take(joined(parts).len() as int) =~= joined(parts));
    } else {
        lemma_joined_prefix(parts, n + 1);
        let some = joined(parts.take(n));
        let more = joined(parts.take(n + 1));
        assert(parts.take(n + 1).drop_last() =~= parts.take(n));
        assert(more.take(some.len() as int) =~= some);
        assert(joined(parts).take(some.len() as int) =~= joined(parts).take(
            more.len() as int,
        ).take(some.len() as int));
    }
}

proof fn lemma_joined_count(parts: Seq<Seq<u8>>)
    requires
        forall|i: int| 0 <= i < parts.len() ==> (#[trigger] parts[i]).len() >= 1,
    ensures
        joined(parts).len() >= parts.len(),
    decreases parts.len(),
{
    if parts.len() > 0 {
        assert forall|i: int| 0 <= i < parts.drop_last().len() implies (
        #[trigger] parts.drop_last()[i]).len() >= 1 by {
            assert(parts.drop_last()[i] == parts[i]);
        }
        lemma_joined_count(parts.drop_last());
        assert(parts[parts.len() - 1].len() >= 1);
    }
}

/// The rows of a block are those whose bytes stand in it.
proof fn lemma_rows_of(
    block: Seq<u8>,
    rows: Seq<Seq<Val>>,
    columns: Seq<Column>,
    block_size: nat,
    n: nat,
)
    requires
        n <= rows.len(),
        each_packable(rows, columns, block_size),
        row::found_at(block, 0, joined(rows_bytes(rows))),
    ensures
        rows_from(block, 0, columns, None, n) == Ok::<(Seq<Seq<Val>>, int), Fault>(
            (rows.take(n as int), joined(rows_bytes(rows).take(n as int)).len() as int),
        ),
    decreases n,
{
    let all = rows_bytes(rows);
    if n == 0 {
        assert(rows.take(0) =~= Seq::empty());
        assert(all.take(0) =~= Seq::empty());
    } else {
        let k = n - 1;
        lemma_rows_of(block, rows, columns, block_size, k as nat);
        assert(packable(rows[k], columns, block_size));
        let at = joined(all.take(k)).len() as int;
        let enc = row::encode_vals(rows[k]);
        assert(all.take(n as int).drop_last() =~= all.take(k));
        assert(all.take(n as int).last() == enc);
        lemma_joined_prefix(all, n as int);
        let upto = joined(all.take(n as int));
        assert(upto == joined(all.take(k)) + enc);
        assert(block.subrange(at, at + enc.len()) =~= enc) by {
            let whole = joined(all);
            assert(block.subrange(0, whole.len() as int) == whole);
            assert forall|i: int| 0 <= i < enc.len() implies block.subrange(at, at + enc.len())[i]
                == enc[i] by {
                assert(whole.take(upto.len() as int)[at + i] == upto[at + i]);
                assert(block.subrange(0, whole.len() as int)[at + i] == block[at + i]);
            }
        }
        row::encoded_row_is_decoded(block, at, rows[k], columns);
        assert(rows.take(k).push(rows[k]) =~= rows.take(n as int));
    }
}

/// A closed block gives back its rows.
proof fn lemma_sealed_rows(rows: Seq<Seq<Val>>, columns: Seq<Column>, block_size: nat)
    requires
        2 <= block_size,
        each_packable(rows, columns, block_size),
        joined(rows_bytes(rows)).len() <= block_size - 2,
        rows.len() <= 0xffff,
    ensures
        sealed(joined(rows_bytes(rows)), rows.len() as u16, block_size).len() == block_size,
        block_count(
            sealed(joined(rows_bytes(rows)), rows.len() as u16, block_size),
            block_size,
        ) == rows.len(),
        block_rows(
            sealed(joined(rows_bytes(rows)), rows.len() as u16, block_size),
            block_size,
            columns,
        ) == Ok::<Seq<Seq<Val>>, Fault>(rows),
{
    let all = rows_bytes(rows);
    let content = joined(all);
    let count = rows.len() as u16;
    let block = sealed(content, count, block_size);
    bytes::lemma_pow256();
    bytes::lemma_le_round_trip(count as nat, 2);
    assert(block.subrange(block_size - 2, block_size as int) =~= bytes::le_bytes(count as nat, 2));
    assert(block.subrange(0, content.len() as int) =~= content);
    lemma_rows_of(block, rows, columns, block_size, rows.len());
    assert(rows.take(rows.len() as int) =~= rows);
}

/// The rows of the first blocks depend on those blocks alone.
pub proof fn lemma_blocks_prefix(
    data: Seq<u8>,
    more: Seq<u8>,
    block_size: nat,
    columns: Seq<Column>,
    n: nat,
)
    requires
        n * block_size <= data.len(),
    ensures
        blocks_rows(data + more, block_size, columns, n) == blocks_rows(
            data,
            block_size,
            columns,
            n,
        ),
    decreases n,
{
    if n > 0 {
        assert((n - 1) * block_size + block_size == n * block_size) by (nonlinear_arith);
        assert(0 <= (n - 1) * block_size) by (nonlinear_arith)
            requires
                n > 0,
                block_size >= 0,
        ;
        lemma_blocks_prefix(data, more, block_size, columns, (n - 1) as nat);
        assert(nth_block(data + more, block_size, n - 1) =~= nth_block(data, block_size, n - 1));
    }
}

/// The rows of blocks one behind the other are the rows of the ones and then those of
/// the others.
pub proof fn lemma_blocks_append(
    data: Seq<u8>,
    more: Seq<u8>,
    block_size: nat,
    columns: Seq<Column>,
    n: nat,
    m: nat,
)
    requires
        data.len() == n * block_size,
        m * block_size <= more.len(),
        blocks_rows(data, block_size, columns, n) is Ok,
        blocks_rows(more, block_size, columns, m) is Ok,
    ensures
        blocks_rows(data + more, block_size, columns, n + m) == Ok::<Seq<Seq<Val>>, Fault>(
            blocks_rows(data, block_size, columns, n)->Ok_0 + blocks_rows(
                more,
                block_size,
                columns,
                m,
            )->Ok_0,
        ),
    decreases m,
{
    let first = blocks_rows(data, block_size, columns, n)->Ok_0;
    if m == 0 {
        lemma_blocks_prefix(data, more, block_size, columns, n);
        assert(first + Seq::empty() =~= first);
    } else {
        let k = (m - 1) as nat;
        assert(k * block_size + block_size == m * block_size) by (nonlinear_arith)
            requires
                k == m - 1,
        ;
        lemma_blocks_append(data, more, block_size, columns, n, k);
        assert((n + m - 1) * block_size == n * block_size + k * block_size) by (nonlinear_arith)
            requires
                k == m - 1,
        ;
        assert(nth_block(data + more, block_size, n + m - 1) =~= nth_block(
            more,
            block_size,
            k as int,
        ));
        let mid = blocks_rows(more, block_size, columns, k)->Ok_0;
        let last = block_rows(nth_block(more, block_size, k as int), block_size, columns)->Ok_0;
        assert((first + mid) + last =~= first + (mid + last));
    }
}

/// One block more gives the rows of one block more.
proof fn lemma_one_block_more(
    data: Seq<u8>,
    block: Seq<u8>,
    block_size: nat,
    columns: Seq<Column>,
    n: nat,
)
    requires
        data.len() == n * block_size,
        block.len() == block_size,
        blocks_rows(data, block_size, columns, n) is Ok,
        block_rows(block, block_size, columns) is Ok,
    ensures
        (data + block).len() == (n + 1) * block_size,
        blocks_rows(data + block, block_size, columns, n + 1) == Ok::<Seq<Seq<Val>>, Fault>(
            blocks_rows(data, block_size, columns, n)->Ok_0 + block_rows(
                block,
                block_size,
                columns,
            )->Ok_0,
        ),
{
    assert((n + 1) * block_size == n * block_size + block_size) by (nonlinear_arith);
    lemma_blocks_prefix(data, block, block_size, columns, n);
    assert(nth_block(data + block, block_size, n as int) =~= block);
}

/// Whether each of the first `n` blocks of the data holds a row.
pub open spec fn no_empty_blocks(data: Seq<u8>, block_size: nat, n: nat) -> bool {
    forall|i: int| 0 <= i < n ==> block_count(#[trigger] nth_block(data, block_size, i), block_size) > 0
}

/// One block more that holds a row.
proof fn lemma_one_filled_more(data: Seq<u8>, block: Seq<u8>, block_size: nat, n: nat)
    requires
        data.len() == n * block_size,
        block.len() == block_size,
        no_empty_blocks(data, block_size, n),
        block_count(block, block_size) > 0,
    ensures
        no_empty_blocks(data + block, block_size, n + 1),
{
    assert forall|i: int| 0 <= i < n + 1 implies block_count(
        #[trigger] nth_block(data + block, block_size, i),
        block_size,
    ) > 0 by {
        if i < n {
            assert(0 <= i * block_size && i * block_size + block_size <= n * block_size)
                by (nonlinear_arith)
                requires
                    0 <= i < n,
                    block_size >= 0,
            ;
            assert(nth_block(data + block, block_size, i) =~= nth_block(data, block_size, i));
        } else {
            assert(nth_block(data + block, block_size, i) =~= block);
        }
    }
}

/// As many rows are read as are asked for.
pub proof fn lemma_rows_counted(
    b: Seq<u8>,
    columns: Seq<Column>,
    wanted: Option<Seq<bool>>,
    n: nat,
)
    ensures
        rows_from(b, 0, columns, wanted, n) matches Ok((rows, _)) ==> rows.len() == n,
    decreases n,
{
    if n > 0 {
        lemma_rows_counted(b, columns, wanted, (n - 1) as nat);
    }
}

/// There are no more blocks than rows where each block holds a row.
pub proof fn lemma_blocks_hold_rows(data: Seq<u8>, block_size: nat, columns: Seq<Column>, n: nat)
    requires
        block_size >= 2,
        n * block_size <= data.len(),
        no_empty_blocks(data, block_size, n),
        blocks_rows(data, block_size, columns, n) is Ok,
    ensures
        n <= blocks_rows(data, block_size, columns, n)->Ok_0.len(),
    decreases n,
{
    if n > 0 {
        assert((n - 1) * block_size + block_size == n * block_size && 0 <= (n - 1) * block_size)
            by (nonlinear_arith)
            requires
                n > 0,
                block_size >= 0,
        ;
        lemma_blocks_hold_rows(data, block_size, columns, (n - 1) as nat);
        let b = nth_block(data, block_size, n - 1);
        assert(block_count(b, block_size) > 0);
        lemma_rows_counted(b, columns, None, block_count(b, block_size));
    }
}

/// What is packed of rows: `n` blocks of the first `k` rows, and the bytes of the
/// others in the open block.
spec fn packed_upto(
    p: Packing,
    rows: Seq<Seq<Val>>,
    columns: Seq<Column>,
    block_size: nat,
    k: int,
    n: nat,
) -> bool {
    &&& rows.len() - k <= 0xffff
    &&& p.full.len() == n * block_size
    &&& blocks_rows(p.full, block_size, columns, n) == Ok::<Seq<Seq<Val>>, Fault>(rows.take(k))
    &&& no_empty_blocks(p.full, block_size, n)
    &&& p.open == joined(rows_bytes(rows.skip(k)))
    &&& p.open.len() <= block_size - 2
    &&& p.count == rows.len() - k
}

proof fn lemma_packing(rows: Seq<Seq<Val>>, columns: Seq<Column>, block_size: nat) -> (res: (
    int,
    nat,
))
    requires
        2 <= block_size,
        each_packable(rows, columns, block_size),
        counts_fit(rows, block_size),
    ensures
        0 <= res.0 <= rows.len(),
        res.0 == rows.len() - open_rows(rows, block_size),
        packed_upto(
            packing_with_all(nothing_packed(), rows_bytes(rows), block_size),
            rows,
            columns,
            block_size,
            res.0,
            res.1,
        ),
    decreases rows.len(),
{
    let all = rows_bytes(rows);
    if rows.len() == 0 {
        assert(rows.take(0) =~= Seq::empty());
        assert(rows_bytes(rows.skip(0)) =~= Seq::empty());
        assert(rows_bytes(rows) =~= Seq::empty());
        assert(joined(Seq::<Seq<u8>>::empty()) =~= Seq::empty());
        (0, 0)
    } else {
        let before = rows.drop_last();
        let r = rows.last();
        let enc = row::encode_vals(r);
        assert(packable(rows[rows.len() - 1], columns, block_size));
        assert forall|i: int| 0 <= i < before.len() implies packable(
            #[trigger] before[i],
            columns,
            block_size,
        ) by {
            assert(before[i] == rows[i]);
        }
        assert forall|n: int| 0 <= n <= before.len() implies #[trigger] open_rows(
            before.take(n),
            block_size,
        ) <= 0xffff by {
            assert(before.take(n) =~= rows.take(n));
        }
        assert(rows.take(rows.len() as int) =~= rows);
        assert(open_rows(rows.take(rows.len() as int), block_size) <= 0xffff);
        assert(before.take(before.len() as int) =~= before);
        assert(open_rows(before.take(before.len() as int), block_size) <= 0xffff);
        assert(rows_bytes(before) =~= all.drop_last());
        let p = packing_with_all(nothing_packed(), rows_bytes(before), block_size);
        let q = packing_with_all(nothing_packed(), all, block_size);
        assert(q == packing_with(p, enc, block_size));
        let (k, n) = lemma_packing(before, columns, block_size);
        let tail = before.skip(k);
        assert forall|i: int| 0 <= i < tail.len() implies packable(
            #[trigger] tail[i],
            columns,
            block_size,
        ) by {
            assert(tail[i] == rows[k + i]);
        }
        if p.open.len() + enc.len() > block_size - 2 {
            lemma_sealed_rows(tail, columns, block_size);
            lemma_one_block_more(
                p.full,
                sealed(p.open, p.count, block_size),
                block_size,
                columns,
                n,
            );
            assert(tail.len() > 0) by {
                if tail.len() == 0 {
                    assert(rows_bytes(tail) =~= Seq::empty());
                }
            }
            lemma_one_filled_more(p.full, sealed(p.open, p.count, block_size), block_size, n);
            let k2 = rows.len() - 1;
            assert(before.take(k) + tail =~= rows.take(k2));
            assert(rows_bytes(rows.skip(k2)) =~= seq![enc]);
            assert(seq![enc].drop_last() =~= Seq::<Seq<u8>>::empty());
            assert(joined(seq![enc]) == joined(seq![enc].drop_last()) + enc);
            assert(joined(Seq::<Seq<u8>>::empty()) =~= Seq::empty());
            assert(joined(seq![enc]) =~= enc);
            assert(q.open =~= enc);
            assert(packed_upto(q, rows, columns, block_size, k2, n + 1));
            (k2, n + 1)
        } else {
            assert(rows.take(k) =~= before.take(k));
            let now = rows_bytes(rows.skip(k));
            assert(now.drop_last() =~= rows_bytes(tail));
            assert(now.last() == enc);
            assert forall|i: int| 0 <= i < now.len() implies (#[trigger] now[i]).len() >= 1 by {
                assert(packable(rows[k + i], columns, block_size));
            }
            lemma_joined_count(now);
            assert(joined(now) == joined(now.drop_last()) + enc);
            assert(q.open == joined(now));
            assert(packed_upto(q, rows, columns, block_size, k, n));
            (k, n)
        }
    }
}

/// Rows that can be kept in whatever order can be kept in theirs.
proof fn lemma_counts_fit(rows: Seq<Seq<Val>>, columns: Seq<Column>, block_size: nat)
    requires
        2 <= block_size,
        all_packable(rows, columns, block_size),
    ensures
        counts_fit(rows, block_size),
    decreases rows.len(),
{
    if rows.len() == 0 {
        assert forall|n: int| 0 <= n <= rows.len() implies #[trigger] open_rows(
            rows.take(n),
            block_size,
        ) <= 0xffff by {
            assert(rows.take(n) =~= rows);
        }
    } else {
        let before = rows.drop_last();
        lemma_front_packable(rows, columns, block_size);
        lemma_counts_fit(before, columns, block_size);
        let (k, _) = lemma_packing(before, columns, block_size);
        let p = packing_with_all(nothing_packed(), rows_bytes(before), block_size);
        let enc = row::encode_vals(rows.last());
        if p.open.len() + enc.len() <= block_size - 2 {
            let tail = rows.skip(k);
            let parts = rows_bytes(tail);
            assert(parts.drop_last() =~= rows_bytes(before.skip(k)));
            assert(parts.last() == enc);
            assert(joined(parts) == joined(parts.drop_last()) + enc);
            assert(rows.take(k) + tail =~= rows);
            lemma_parts_packable(rows.take(k), tail, columns, block_size);
            assert(joined(rows_bytes(tail)).len() <= block_size - 2);
        }
        assert forall|n: int| 0 <= n <= rows.len() implies #[trigger] open_rows(
            rows.take(n),
            block_size,
        ) <= 0xffff by {
            if n == rows.len() {
                assert(rows.take(n) =~= rows);
            } else {
                assert(rows.take(n) =~= before.take(n));
            }
        }
    }
}

/// A block is open if and only if it holds a row.
pub proof fn lemma_open_holds_rows(rows: Seq<Seq<Val>>, columns: Seq<Column>, block_size: nat)
    requires
        2 <= block_size,
        all_packable(rows, columns, block_size),
    ensures
        ({
            let p = packing_with_all(nothing_packed(), rows_bytes(rows), block_size);
            &&& p.open.len() <= block_size - 2
            &&& p.count > 0 <==> p.open.len() > 0
        }),
{
    lemma_counts_fit(rows, columns, block_size);
    let (k, n) = lemma_packing(rows, columns, block_size);
    let parts = rows_bytes(rows.skip(k));
    assert forall|i: int| 0 <= i < parts.len() implies (#[trigger] parts[i]).len() >= 1 by {
        assert(packable(rows[k + i], columns, block_size));
    }
    lemma_joined_count(parts);
    if parts.len() == 0 {
        assert(parts =~= Seq::empty());
    }
}

/// There are no more full blocks than rows.
pub proof fn lemma_no_more_full_blocks_than_rows(
    rows: Seq<Seq<Val>>,
    columns: Seq<Column>,
    block_size: nat,
) -> (n: nat)
    requires
        2 <= block_size,
        all_packable(rows, columns, block_size),
    ensures
        packing_with_all(nothing_packed(), rows_bytes(rows), block_size).full.len() == n
            * block_size,
        n <= rows.len(),
{
    let p = packing_with_all(nothing_packed(), rows_bytes(rows), block_size);
    lemma_counts_fit(rows, columns, block_size);
    let (k, n) = lemma_packing(rows, columns, block_size);
    lemma_blocks_hold_rows(p.full, block_size, columns, n);
    n
}

/// Rows that were packed into blocks are read back from the blocks, each of which holds a
/// row, as long as no block gets more rows than it can count.
pub proof fn packed_rows_are_unpacked(
    rows: Seq<Seq<Val>>,
    columns: Seq<Column>,
    block_size: nat,
) -> (n: nat)
    requires
        2 <= block_size,
        each_packable(rows, columns, block_size),
        counts_fit(rows, block_size),
    ensures
        packed_rows(rows, block_size).len() == n * block_size,
        blocks_rows(packed_rows(rows, block_size), block_size, columns, n) == Ok::<
            Seq<Seq<Val>>,
            Fault,
        >(rows),
        no_empty_blocks(packed_rows(rows, block_size), block_size, n),
{
    let p = packing_with_all(nothing_packed(), rows_bytes(rows), block_size);
    let (k, n) = lemma_packing(rows, columns, block_size);
    let tail = rows.skip(k);
    assert(rows.take(k) + tail =~= rows);
    assert forall|i: int| 0 <= i < tail.len() implies packable(
        #[trigger] tail[i],
        columns,
        block_size,
    ) by {
        assert(tail[i] == rows[k + i]);
    }
    if p.open.len() > 0 {
        lemma_sealed_rows(tail, columns, block_size);
        lemma_one_block_more(p.full, sealed(p.open, p.count, block_size), block_size, columns, n);
        if tail.len() == 0 {
            assert(rows_bytes(tail) =~= Seq::empty());
        }
        lemma_one_filled_more(p.full, sealed(p.open, p.count, block_size), block_size, n);
        assert(rows.take(k) + tail =~= rows);
        n + 1
    } else {
        assert forall|i: int| 0 <= i < rows_bytes(tail).len() implies (
        #[trigger] rows_bytes(tail)[i]).len() >= 1 by {
            assert(packable(tail[i], columns, block_size));
        }
        lemma_joined_count(rows_bytes(tail));
        assert(rows.take(k) =~= rows);
        n
    }
}

/// The same of rows that can be kept in whatever order.
pub proof fn lemma_packed_are_unpacked(
    rows: Seq<Seq<Val>>,
    columns: Seq<Column>,
    block_size: nat,
) -> (n: nat)
    requires
        2 <= block_size,
        all_packable(rows, columns, block_size),
    ensures
        packed_rows(rows, block_size).len() == n * block_size,
        blocks_rows(packed_rows(rows, block_size), block_size, columns, n) == Ok::<
            Seq<Seq<Val>>,
            Fault,
        >(rows),
        no_empty_blocks(packed_rows(rows, block_size), block_size, n),
{
    lemma_counts_fit(rows, columns, block_size);
    packed_rows_are_unpacked(rows, columns, block_size)
}

// ---- rows of one width ----

/// The blocks of rows, in number.
pub open spec fn packed_blocks(rows: Seq<Seq<Val>>, block_size: nat) -> nat {
    packed_rows(rows, block_size).len() / block_size
}

/// The blocks of sets of rows, each packed for itself, in number.
pub open spec fn packed_apart(parts: Seq<Seq<Seq<Val>>>, block_size: nat) -> nat
    decreases parts.len(),
{
    if parts.len() == 0 {
        0
    } else {
        packed_apart(parts.drop_last(), block_size) + packed_blocks(parts.last(), block_size)
    }
}

/// Whether the bytes of each row are so many.
pub open spec fn all_as_wide(rows: Seq<Seq<Val>>, width: nat) -> bool {
    forall|i: int|
        0 <= i < rows.len() ==> row::encode_vals(#[trigger] rows[i]).len() == width
}

/// The blocks that rows need of which each block takes as many.
pub open spec fn blocks_needed(rows: nat, in_one: nat) -> nat {
    if rows == 0 {
        0
    } else {
        ((rows - 1) as nat / in_one + 1) as nat
    }
}

/// As many blocks are needed as have room for the rows, and not one more.
proof fn lemma_blocks_needed(rows: nat, in_one: nat, blocks: nat)
    requires
        in_one >= 1,
    ensures
        rows <= blocks_needed(rows, in_one) * in_one,
        rows <= blocks * in_one ==> blocks_needed(rows, in_one) <= blocks,
{
    if rows > 0 {
        let (n, k) = (rows - 1, in_one as int);
        let q = n / k;
        vstd::arithmetic::div_mod::lemma_fundamental_div_mod(n, k);
        assert(n < (q + 1) * k) by (nonlinear_arith)
            requires
                n == k * q + n % k,
                n % k < k,
        ;
        if rows <= blocks * in_one && q + 1 > blocks {
            assert(blocks * k <= q * k) by (nonlinear_arith)
                requires
                    blocks <= q,
                    k >= 0,
            ;
            assert(q * k <= n) by (nonlinear_arith)
                requires
                    n == k * q + n % k,
                    n % k >= 0,
            ;
        }
    }
}

/// Rows of one width on their way: the full blocks hold as many as they can.
proof fn lemma_packing_one_width(rows: Seq<Seq<Val>>, width: nat, block_size: nat) -> (res: (
    nat,
    nat,
))
    requires
        1 <= width <= block_size - 2,
        all_as_wide(rows, width),
    ensures
        ({
            let p = packing_with_all(nothing_packed(), rows_bytes(rows), block_size);
            let k = ((block_size - 2) / width as int) as nat;
            &&& k >= 1
            &&& rows.len() == res.0 * k + res.1
            &&& res.1 <= k
            &&& rows.len() > 0 ==> res.1 >= 1
            &&& rows.len() == 0 ==> res.0 == 0
            &&& p.open.len() == res.1 * width
            &&& p.full.len() == res.0 * block_size
        }),
    decreases rows.len(),
{
    let (room, w) = (block_size - 2, width as int);
    let k = (room / w) as nat;
    vstd::arithmetic::div_mod::lemma_fundamental_div_mod(room, w);
    assert(k >= 1 && k * w <= room && (k + 1) * w > room) by (nonlinear_arith)
        requires
            room == w * (room / w) + room % w,
            0 <= room % w < w,
            w <= room,
            k == room / w,
    ;
    if rows.len() == 0 {
        assert(rows_bytes(rows) =~= Seq::empty());
        assert(0 * k == 0 && 0 * width == 0 && 0 * block_size == 0) by (nonlinear_arith);
        (0, 0)
    } else {
        let before = rows.drop_last();
        assert forall|i: int| 0 <= i < before.len() implies row::encode_vals(
            #[trigger] before[i],
        ).len() == width by {
            assert(before[i] == rows[i]);
        }
        let (full, open) = lemma_packing_one_width(before, width, block_size);
        let p = packing_with_all(nothing_packed(), rows_bytes(before), block_size);
        assert(rows_bytes(rows).drop_last() =~= rows_bytes(before));
        assert(rows_bytes(rows).last() == row::encode_vals(rows[rows.len() - 1]));
        assert(row::encode_vals(rows[rows.len() - 1]).len() == width);
        bytes::lemma_le_bytes_len(p.count as nat, 2);
        assert(open * w + w == (open + 1) * w) by (nonlinear_arith);
        if open == k {
            assert(1 * width == width);
            assert(full * block_size + block_size == (full + 1) * block_size
                && full * k + k == (full + 1) * k) by (nonlinear_arith);
            (full + 1, 1)
        } else {
            assert((open + 1) * w <= k * w) by (nonlinear_arith)
                requires
                    open + 1 <= k,
                    w >= 1,
            ;
            (full, open + 1)
        }
    }
}

/// Rows of one width fill their blocks: each but the last holds as many as it has room for.
pub proof fn rows_of_one_width_fill_blocks(rows: Seq<Seq<Val>>, width: nat, block_size: nat)
    requires
        1 <= width <= block_size - 2,
        all_as_wide(rows, width),
    ensures
        packed_blocks(rows, block_size) == blocks_needed(
            rows.len(),
            ((block_size - 2) / width as int) as nat,
        ),
{
    let p = packing_with_all(nothing_packed(), rows_bytes(rows), block_size);
    let (full, open) = lemma_packing_one_width(rows, width, block_size);
    let k = ((block_size - 2) / width as int) as nat;
    bytes::lemma_le_bytes_len(p.count as nat, 2);
    let n = if rows.len() > 0 {
        assert(open * width >= 1) by (nonlinear_arith)
            requires
                open >= 1,
                width >= 1,
        ;
        assert(full * block_size + block_size == (full + 1) * block_size) by (nonlinear_arith);
        lemma_blocks_needed(rows.len(), k, full + 1);
        assert(full * k + k == (full + 1) * k) by (nonlinear_arith);
        let needed = blocks_needed(rows.len(), k);
        if needed <= full {
            assert(needed * k <= full * k) by (nonlinear_arith)
                requires
                    needed <= full,
            ;
        }
        full + 1
    } else {
        assert(0 * width == 0);
        full
    };
    assert(packed_rows(rows, block_size).len() == n * block_size);
    assert((n * block_size) / block_size == n) by (nonlinear_arith)
        requires
            block_size >= 2,
            n >= 0,
    ;
}

/// The rows of sets of rows, in number.
pub open spec fn rows_apart(parts: Seq<Seq<Seq<Val>>>) -> nat
    decreases parts.len(),
{
    if parts.len() == 0 {
        0
    } else {
        rows_apart(parts.drop_last()) + parts.last().len()
    }
}

/// Rows of one width need no more blocks together than in parts.
pub proof fn rows_of_one_width_need_no_more_blocks_together(
    rows: Seq<Seq<Val>>,
    parts: Seq<Seq<Seq<Val>>>,
    width: nat,
    block_size: nat,
)
    requires
        1 <= width <= block_size - 2,
        all_as_wide(rows, width),
        forall|i: int| 0 <= i < parts.len() ==> all_as_wide(#[trigger] parts[i], width),
        rows.len() == rows_apart(parts),
    ensures
        packed_blocks(rows, block_size) <= packed_apart(parts, block_size),
{
    let (room, w) = (block_size - 2, width as int);
    let k = (room / w) as nat;
    vstd::arithmetic::div_mod::lemma_fundamental_div_mod(room, w);
    assert(k >= 1) by (nonlinear_arith)
        requires
            room == w * (room / w) + room % w,
            0 <= room % w < w,
            w <= room,
            k == room / w,
    ;
    lemma_room_apart(parts, width, block_size, k);
    rows_of_one_width_fill_blocks(rows, width, block_size);
    lemma_blocks_needed(rows.len(), k, packed_apart(parts, block_size));
}

proof fn lemma_room_apart(parts: Seq<Seq<Seq<Val>>>, width: nat, block_size: nat, k: nat)
    requires
        1 <= width <= block_size - 2,
        k == (block_size - 2) / width as int,
        k >= 1,
        forall|i: int| 0 <= i < parts.len() ==> all_as_wide(#[trigger] parts[i], width),
    ensures
        rows_apart(parts) <= packed_apart(parts, block_size) * k,
    decreases parts.len(),
{
    if parts.len() > 0 {
        let before = parts.drop_last();
        assert forall|i: int| 0 <= i < before.len() implies all_as_wide(
            #[trigger] before[i],
            width,
        ) by {
            assert(before[i] == parts[i]);
        }
        lemma_room_apart(before, width, block_size, k);
        let last = parts[parts.len() - 1];
        assert(all_as_wide(last, width));
        rows_of_one_width_fill_blocks(last, width, block_size);
        lemma_blocks_needed(last.len(), k, 0);
        let (a, b) = (packed_apart(before, block_size), packed_blocks(last, block_size));
        assert((a + b) * k == a * k + b * k) by (nonlinear_arith);
    }
}

} // verus!
