//! Little-endian integers and the conversions between bytes and text.

use vstd::prelude::*;
use vstd::utf8::*;

verus! {

/// `256` to the power `n`.
pub open spec fn pow256(n: nat) -> nat
    decreases n,
{
    if n == 0 { 1 } else { 256 * pow256((n - 1) as nat) }
}

/// The `n` low bytes of `x`, the lowest first.
pub open spec fn le_bytes(x: nat, n: nat) -> Seq<u8>
    decreases n,
{
    if n == 0 {
        Seq::empty()
    } else {
        seq![(x % 256) as u8] + le_bytes(x / 256, (n - 1) as nat)
    }
}

/// The number whose bytes, the lowest first, are `s`.
pub open spec fn le_value(s: Seq<u8>) -> nat
    decreases s.len(),
{
    if s.len() == 0 {
        0
    } else {
        s[0] as nat + 256 * le_value(s.drop_first())
    }
}

/// The two's complement pattern of a 32-bit integer.
pub open spec fn i32_bits(v: i32) -> nat {
    if v < 0 { (v + 0x1_0000_0000) as nat } else { v as nat }
}

/// The 32-bit integer of a two's complement pattern.
pub open spec fn i32_of(n: nat) -> i32 {
    if n < 0x8000_0000 { n as i32 } else { (n - 0x1_0000_0000) as i32 }
}

/// The two's complement pattern of a 64-bit integer.
pub open spec fn i64_bits(v: i64) -> nat {
    if v < 0 { (v + 0x1_0000_0000_0000_0000) as nat } else { v as nat }
}

/// The 64-bit integer of a two's complement pattern.
pub open spec fn i64_of(n: nat) -> i64 {
    if n < 0x8000_0000_0000_0000 { n as i64 } else { (n - 0x1_0000_0000_0000_0000) as i64 }
}

pub proof fn lemma_pow256()
    ensures
        pow256(2) == 0x1_0000,
        pow256(4) == 0x1_0000_0000,
        pow256(8) == 0x1_0000_0000_0000_0000,
{
    reveal_with_fuel(pow256, 9);
}

pub proof fn lemma_pow256_grows(m: nat, n: nat)
    requires
        m <= n,
    ensures
        0 < pow256(m) <= pow256(n),
    decreases n,
{
    if n > 0 {
        if m < n {
            lemma_pow256_grows(m, (n - 1) as nat);
        } else {
            lemma_pow256_grows((n - 1) as nat, (n - 1) as nat);
        }
    }
}

pub proof fn lemma_le_bytes_len(x: nat, n: nat)
    ensures
        le_bytes(x, n).len() == n,
    decreases n,
{
    if n > 0 {
        lemma_le_bytes_len(x / 256, (n - 1) as nat);
    }
}

pub proof fn lemma_le_value_bound(s: Seq<u8>)
    ensures
        le_value(s) < pow256(s.len()),
    decreases s.len(),
{
    if s.len() > 0 {
        lemma_le_value_bound(s.drop_first());
    }
}

/// Reading back the bytes of a number gives the number.
pub proof fn lemma_le_round_trip(x: nat, n: nat)
    requires
        x < pow256(n),
    ensures
        le_bytes(x, n).len() == n,
        le_value(le_bytes(x, n)) == x,
    decreases n,
{
    lemma_le_bytes_len(x, n);
    if n > 0 {
        lemma_le_round_trip(x / 256, (n - 1) as nat);
        assert(le_bytes(x, n).drop_first() =~= le_bytes(x / 256, (n - 1) as nat));
    }
}

/// Appends the `n` low bytes of `x`, the lowest first.
pub fn put_le(x: u64, n: usize, out: &mut Vec<u8>)
    ensures
        final(out)@ == old(out)@ + le_bytes(x as nat, n as nat),
{
    let mut rest: u64 = x;
    let mut i: usize = 0;
    let ghost start = out@;
    while i < n
        invariant
            i <= n,
            start + le_bytes(x as nat, n as nat) == out@ + le_bytes(rest as nat, (n - i) as nat),
        decreases n - i,
    {
        let ghost before = out@;
        out.push((rest % 256) as u8);
        proof {
            assert(before + le_bytes(rest as nat, (n - i) as nat) =~= out@ + le_bytes(
                (rest / 256) as nat,
                (n - i - 1) as nat,
            ));
        }
        rest = rest / 256;
        i += 1;
    }
    assert(out@ + Seq::<u8>::empty() =~= out@);
}

/// Reads the `n`-byte number at `offset`.
pub fn get_le(data: &[u8], offset: usize, n: usize) -> (res: u64)
    requires
        n <= 8,
        offset + n <= data@.len(),
    ensures
        res == le_value(data@.subrange(offset as int, offset + n)),
        res < pow256(n as nat),
{
    let ghost s = data@.subrange(offset as int, offset + n);
    let mut i: usize = n;
    let mut res: u64 = 0;
    assert(s.skip(n as int) =~= Seq::empty());
    while i > 0
        invariant
            i <= n <= 8,
            offset + n <= data@.len(),
            s == data@.subrange(offset as int, offset + n),
            res == le_value(s.skip(i as int)),
        decreases i,
    {
        i -= 1;
        proof {
            assert(s.skip(i as int).drop_first() =~= s.skip(i + 1));
            lemma_le_value_bound(s.skip(i as int));
            lemma_pow256_grows((n - i) as nat, 8);
            lemma_pow256();
            assert(data@.len() == data.len());
        }
        res = data[offset + i] as u64 + 256 * res;
    }
    proof {
        assert(s.skip(0) =~= s);
        lemma_le_value_bound(s);
    }
    res
}

/// The pattern of a 32-bit integer, as an unsigned number.
pub fn i32_to_bits(v: i32) -> (res: u32)
    ensures
        res == i32_bits(v),
{
    assert(v >= 0 ==> (v as u32) == v) by (bit_vector);
    assert(v < 0 ==> (v as u32) == v + 0x1_0000_0000) by (bit_vector);
    v as u32
}

/// The 32-bit integer of a pattern.
pub fn i32_from_bits(b: u32) -> (res: i32)
    ensures
        res == i32_of(b as nat),
{
    assert(b < 0x8000_0000 ==> (b as i32) == b) by (bit_vector);
    assert(b >= 0x8000_0000 ==> (b as i32) == b - 0x1_0000_0000) by (bit_vector);
    b as i32
}

/// The pattern of a 64-bit integer, as an unsigned number.
pub fn i64_to_bits(v: i64) -> (res: u64)
    ensures
        res == i64_bits(v),
{
    assert(v >= 0 ==> (v as u64) == v) by (bit_vector);
    assert(v < 0 ==> (v as u64) == v + 0x1_0000_0000_0000_0000) by (bit_vector);
    v as u64
}

/// The 64-bit integer of a pattern.
pub fn i64_from_bits(b: u64) -> (res: i64)
    ensures
        res == i64_of(b as nat),
{
    assert(b < 0x8000_0000_0000_0000 ==> (b as i64) == b) by (bit_vector);
    assert(b >= 0x8000_0000_0000_0000 ==> (b as i64) == b - 0x1_0000_0000_0000_0000) by (bit_vector);
    b as i64
}

/// Calls `String::from_utf8`, which accepts exactly the byte strings that are
/// valid UTF-8 and gives the characters that they encode.
#[verifier::external_body]
fn string_from_utf8(bytes: Vec<u8>) -> (res: Option<String>)
    ensures
        match res {
            Some(s) => valid_utf8(bytes@) && s@ == decode_utf8(bytes@),
            None => !valid_utf8(bytes@),
        },
{
    match String::from_utf8(bytes) {
        Ok(s) => Some(s),
        Err(_) => None,
    }
}

/// The text that `data[from..to]` encodes, if it is UTF-8.
pub fn text_at(data: &[u8], from: usize, to: usize) -> (res: Option<String>)
    requires
        from <= to <= data@.len(),
    ensures
        match res {
            Some(s) => valid_utf8(data@.subrange(from as int, to as int)) && s@ == decode_utf8(
                data@.subrange(from as int, to as int),
            ),
            None => !valid_utf8(data@.subrange(from as int, to as int)),
        },
{
    let part = vstd::slice::slice_to_vec(vstd::slice::slice_subrange(data, from, to));
    string_from_utf8(part)
}

/// Appends the bytes of `s`.
pub fn append_bytes(out: &mut Vec<u8>, s: &[u8])
    ensures
        final(out)@ == old(out)@ + s@,
{
    let ghost before = out@;
    out.extend_from_slice(s);
    assert(out@ =~= before + s@);
}

/// The UTF-8 encoding of a text has a zero byte only where the text has the
/// character U+0000.
pub proof fn lemma_no_zero_byte(s: Seq<char>)
    requires
        forall|i: int| 0 <= i < s.len() ==> s[i] != '\0',
    ensures
        forall|i: int| 0 <= i < encode_utf8(s).len() ==> #[trigger] encode_utf8(s)[i] != 0u8,
    decreases s.len(),
{
    if s.len() > 0 {
        let rest = s.drop_first();
        assert forall|i: int| 0 <= i < rest.len() implies rest[i] != '\0' by {
            assert(rest[i] == s[i + 1]);
        }
        lemma_no_zero_byte(rest);
        let c = s[0] as u32;
        assert(s[0] != '\0');
        if c == 0 {
            char_u32_cast(s[0], c);
            assert(c as char == '\0');
        }
        char_is_scalar(s[0]);
        assert(0 < c <= 0x7f ==> (c & 0x7F) as u8 != 0u8) by (bit_vector);
        assert(0xC0u8 | ((c >> 6) & 0x1F) as u8 != 0u8) by (bit_vector);
        assert(0xE0u8 | ((c >> 12) & 0x0F) as u8 != 0u8) by (bit_vector);
        assert(0xF0u8 | ((c >> 18) & 0x7) as u8 != 0u8) by (bit_vector);
        assert(0x80u8 | (c & 0x3F) as u8 != 0u8) by (bit_vector);
        assert(0x80u8 | ((c >> 6) & 0x3F) as u8 != 0u8) by (bit_vector);
        assert(0x80u8 | ((c >> 12) & 0x3F) as u8 != 0u8) by (bit_vector);
        let first = encode_scalar(c);
        assert forall|i: int| 0 <= i < encode_utf8(s).len() implies #[trigger] encode_utf8(s)[i]
            != 0u8 by {
            if i < first.len() {
                assert(encode_utf8(s)[i] == first[i]);
            } else {
                assert(encode_utf8(s)[i] == encode_utf8(rest)[i - first.len()]);
            }
        }
    }
}

} // verus!
