//! Join keys: their hashes, a filter of keys that were seen, and the rows by key.

use std::collections::hash_map::DefaultHasher;
use std::collections::HashMap;
use std::hash::Hasher;

use vstd::prelude::*;
use vstd::std_specs::hash::*;
use vstd::string::*;
use vstd::utf8::*;

use crate::bytes::{i32_to_bits, i64_to_bits, put_le};
use crate::bytes;
use crate::ops::rows::clone_row;
use crate::query::ComparisionOperator;
use crate::row;
use crate::value::{Data, Val};
use crate::value;

verus! {

// ---- keys ----

/// What is fed to the hasher for a key: the bytes of a number, or the bytes of a text
/// and a byte that no text holds.
pub open spec fn key_writes(v: Val) -> Seq<Seq<u8>> {
    match v {
        Val::Int32(x) => seq![bytes::le_bytes(bytes::i32_bits(x), 4)],
        Val::Int64(x) => seq![bytes::le_bytes(bytes::i64_bits(x), 8)],
        Val::Float32(x) => seq![bytes::le_bytes(x as nat, 4)],
        Val::Float64(x) => seq![bytes::le_bytes(x as nat, 8)],
        Val::Text(s) => seq![encode_utf8(s), seq![0xffu8]],
    }
}

/// The hash of a key, by the default hasher of the standard library.
pub open spec fn key_hash(v: Val) -> u64 {
    DefaultHasher::spec_finish(key_writes(v))
}

/// Whether two values are the same join key: they are the same, bit by bit, and no
/// NaN. So zero and negative zero, which are equal numbers, are different keys.
pub open spec fn same_key(a: Val, b: Val) -> bool {
    a == b && !value::is_nan(a)
}

/// Hashes a key.
pub fn hash_data(data: &Data) -> (res: u64)
    ensures
        res == key_hash(data.deep_view()),
{
    let mut hasher = DefaultHasher::new();
    match data {
        Data::String(s) => {
            hasher.write(s.as_str().as_bytes());
            let mut end: Vec<u8> = Vec::new();
            end.push(0xff);
            assert(end@ =~= seq![0xffu8]);
            hasher.write(end.as_slice());
            assert(hasher@ =~= key_writes(data.deep_view()));
        },
        _ => {
            let mut b: Vec<u8> = Vec::new();
            match data {
                Data::Int32(v) => put_le(i32_to_bits(*v) as u64, 4, &mut b),
                Data::Int64(v) => put_le(i64_to_bits(*v), 8, &mut b),
                Data::Float32(v) => put_le(*v as u64, 4, &mut b),
                Data::Float64(v) => put_le(*v, 8, &mut b),
                Data::String(_) => {},
            }
            hasher.write(b.as_slice());
            assert(b@ =~= key_writes(data.deep_view())[0]);
            assert(hasher@ =~= key_writes(data.deep_view()));
        },
    }
    hasher.finish()
}

/// Says whether two values are the same join key.
pub fn is_same_key(a: &Data, b: &Data) -> (res: bool)
    ensures
        res == same_key(a.deep_view(), b.deep_view()),
{
    match (a, b) {
        (Data::Int32(x), Data::Int32(y)) => *x == *y,
        (Data::Int64(x), Data::Int64(y)) => *x == *y,
        (Data::Float32(x), Data::Float32(y)) => *x == *y && a.equals(b),
        (Data::Float64(x), Data::Float64(y)) => *x == *y && a.equals(b),
        (Data::String(x), Data::String(y)) => *x == *y,
        _ => false,
    }
}

// ---- the filter of keys ----

/// The number of bits of a filter.
pub const BLOOM_BITS: u64 = 524288;

/// The number of words of a filter.
pub const BLOOM_WORDS: usize = 8192;

/// The places of a key in a filter.
pub open spec fn bit_places(v: Val) -> Set<int> {
    let h1 = key_hash(v);
    let h2 = h1.wrapping_mul(0x9e3779b97f4a7c15).wrapping_add(0x6c62272e07bb0142);
    let h3 = h2.wrapping_mul(0x517cc1b727220a95).wrapping_add(0xd2a98b26625eee7b);
    set![
        (h1 % BLOOM_BITS) as int,
        (h2 % BLOOM_BITS) as int,
        (h3 % BLOOM_BITS) as int,
    ]
}

/// A filter of keys: a key that was put in is found; one that was not may be found.
pub struct BloomFilter {
    pub bits: Vec<u64>,
}

/// Whether a bit of the words is set.
pub open spec fn bit_at(words: Seq<u64>, p: int) -> bool {
    words[p / 64] & (1u64 << ((p % 64) as u64)) != 0
}

impl View for BloomFilter {
    type V = Set<int>;

    open spec fn view(&self) -> Set<int> {
        Set::new(|p: int| 0 <= p < BLOOM_BITS && bit_at(self.bits@, p))
    }
}

impl BloomFilter {
    /// Whether the filter has its words.
    pub open spec fn wf(self) -> bool {
        self.bits@.len() == BLOOM_WORDS
    }

    /// A filter without keys.
    pub fn new() -> (res: BloomFilter)
        ensures
            res.wf(),
            res@ == Set::<int>::empty(),
    {
        let mut bits: Vec<u64> = Vec::new();
        while bits.len() < BLOOM_WORDS
            invariant
                bits@.len() <= BLOOM_WORDS,
                forall|i: int| 0 <= i < bits@.len() ==> (#[trigger] bits@[i]) == 0,
            decreases BLOOM_WORDS - bits@.len(),
        {
            bits.push(0);
        }
        let f = BloomFilter { bits };
        assert(f@ =~= Set::<int>::empty()) by {
            assert forall|p: int| !f@.contains(p) by {
                if 0 <= p < BLOOM_BITS {
                    let s = (p % 64) as u64;
                    assert(0u64 & (1u64 << s) == 0) by (bit_vector);
                    assert(f.bits@[p / 64] == 0);
                }
            }
        }
        f
    }

    fn positions(key: &Data) -> (res: (u64, u64, u64))
        ensures
            bit_places(key.deep_view()) == set![res.0 as int, res.1 as int, res.2 as int],
            res.0 < BLOOM_BITS,
            res.1 < BLOOM_BITS,
            res.2 < BLOOM_BITS,
    {
        let h1: u64 = hash_data(key);
        let h2: u64 = h1.wrapping_mul(0x9e3779b97f4a7c15).wrapping_add(0x6c62272e07bb0142);
        let h3: u64 = h2.wrapping_mul(0x517cc1b727220a95).wrapping_add(0xd2a98b26625eee7b);
        (h1 % BLOOM_BITS, h2 % BLOOM_BITS, h3 % BLOOM_BITS)
    }

    fn set_bit(&mut self, p: u64)
        requires
            old(self).wf(),
            p < BLOOM_BITS,
        ensures
            final(self).wf(),
            final(self)@ == old(self)@.insert(p as int),
    {
        let ghost before = self.bits@;
        let w: usize = (p / 64) as usize;
        let s: u64 = p % 64;
        let word: u64 = self.bits[w];
        self.bits.set(w, word | (1u64 << s));
        proof {
            let after = self.bits@;
            assert forall|q: int| #[trigger] self@.contains(q) <==> (old(self)@.contains(q) || q
                == p) by {
                if 0 <= q < BLOOM_BITS {
                    let t = (q % 64) as u64;
                    if q / 64 == w {
                        assert(after[q / 64] == word | (1u64 << s));
                        assert(s < 64 && t < 64 ==> (((word | (1u64 << s)) & (1u64 << t) != 0)
                            <==> (word & (1u64 << t) != 0 || s == t))) by (bit_vector);
                        assert(q == p <==> s == t);
                    } else {
                        assert(after[q / 64] == before[q / 64]);
                    }
                }
            }
            assert(self@ =~= old(self)@.insert(p as int));
        }
    }

    fn has_bit(&self, p: u64) -> (res: bool)
        requires
            self.wf(),
            p < BLOOM_BITS,
        ensures
            res == self@.contains(p as int),
    {
        let w: usize = (p / 64) as usize;
        let s: u64 = p % 64;
        self.bits[w] & (1u64 << s) != 0
    }

    /// Puts a key in.
    pub fn insert(&mut self, key: &Data)
        requires
            old(self).wf(),
        ensures
            final(self).wf(),
            final(self)@ == old(self)@.union(bit_places(key.deep_view())),
    {
        let (a, b, c) = BloomFilter::positions(key);
        self.set_bit(a);
        self.set_bit(b);
        self.set_bit(c);
        assert(self@ =~= old(self)@.union(bit_places(key.deep_view())));
    }

    /// Says whether a key may have been put in.
    pub fn might_contain(&self, key: &Data) -> (res: bool)
        requires
            self.wf(),
        ensures
            res == bit_places(key.deep_view()).subset_of(self@),
    {
        let (a, b, c) = BloomFilter::positions(key);
        let res = self.has_bit(a) && self.has_bit(b) && self.has_bit(c);
        proof {
            let places = bit_places(key.deep_view());
            assert(places.contains(a as int) && places.contains(b as int) && places.contains(
                c as int,
            ));
        }
        res
    }
}

/// A key that was put into a filter is found, whatever was put in before or after.
pub proof fn filter_finds_what_was_put_in(before: Set<int>, key: Val, after: Set<int>)
    ensures
        bit_places(key).subset_of(before.union(bit_places(key)).union(after)),
{
}

// ---- rows by key ----

/// Rows that can be found by their key.
pub struct KeyTable {
    /// The column of the key.
    pub key: usize,
    pub rows: Vec<Vec<Data>>,
    /// For each hash the positions of the rows whose key has it.
    pub by_hash: HashMap<u64, Vec<usize>>,
}

/// The rows of a table whose key is this one, in the order in which they were added.
pub open spec fn matching(rows: Seq<Seq<Val>>, col: int, key: Val) -> Seq<Seq<Val>> {
    rows.filter(|r: Seq<Val>| same_key(r[col], key))
}

/// The positions of rows whose key has this hash.
pub open spec fn with_hash(rows: Seq<Seq<Val>>, col: int, h: u64) -> Seq<usize>
    decreases rows.len(),
{
    if rows.len() == 0 {
        Seq::empty()
    } else {
        let before = with_hash(rows.drop_last(), col, h);
        if key_hash(rows.last()[col]) == h {
            before.push((rows.len() - 1) as usize)
        } else {
            before
        }
    }
}

impl KeyTable {
    /// Whether all rows have the key column, and each is found by the hash of its key.
    pub open spec fn wf(self) -> bool {
        &&& forall|i: int| 0 <= i < self.rows@.len() ==> (#[trigger] self.rows@[i])@.len() > self.key
        &&& forall|h: u64| #[trigger]
            self.by_hash@.contains_key(h) ==> self.by_hash@[h]@ == with_hash(
                self.rows.deep_view(),
                self.key as int,
                h,
            )
        &&& forall|h: u64|
            !(#[trigger] self.by_hash@.contains_key(h)) ==> with_hash(
                self.rows.deep_view(),
                self.key as int,
                h,
            ).len() == 0
    }

    /// A table without rows.
    pub fn new(key: usize) -> (res: KeyTable)
        ensures
            res.wf(),
            res.key == key,
            res.rows.deep_view() == Seq::<Seq<Val>>::empty(),
    {
        let t = KeyTable { key, rows: Vec::new(), by_hash: HashMap::new() };
        assert(t.rows.deep_view() =~= Seq::<Seq<Val>>::empty());
        t
    }

    /// Adds a row.
    pub fn insert(&mut self, row: Vec<Data>)
        requires
            old(self).wf(),
            row@.len() > old(self).key,
        ensures
            final(self).wf(),
            final(self).key == old(self).key,
            final(self).rows.deep_view() == old(self).rows.deep_view().push(row.deep_view()),
    {
        broadcast use vstd::std_specs::hash::group_hash_axioms;

        let ghost before = self.rows.deep_view();
        let ghost old_map = self.by_hash@;
        let ghost col = self.key as int;
        let h: u64 = hash_data(&row[self.key]);
        let at: usize = self.rows.len();
        let mut places = match self.by_hash.remove(&h) {
            Some(v) => v,
            None => Vec::new(),
        };
        assert(places@ =~= with_hash(before, col, h));
        places.push(at);
        self.by_hash.insert(h, places);
        self.rows.push(row);
        let ghost after = self.rows.deep_view();
        proof {
            assert(after =~= before.push(row.deep_view()));
            assert(after.drop_last() =~= before);
            assert(before.len() == at);
            assert(self.by_hash@ == old_map.remove(h).insert(h, places));
            assert forall|g: u64| #[trigger] self.by_hash@.contains_key(g) implies self.by_hash@[g]@
                == with_hash(after, col, g) by {
                if g != h {
                    assert(old_map.contains_key(g));
                }
            }
            assert forall|g: u64| !(#[trigger] self.by_hash@.contains_key(g)) implies with_hash(
                after,
                col,
                g,
            ).len() == 0 by {
                assert(!old_map.contains_key(g));
            }
        }
    }

    /// Appends copies of the rows whose key is this one.
    pub fn find(&self, key: &Data, out: &mut Vec<Vec<Data>>)
        requires
            self.wf(),
        ensures
            final(out).deep_view() == old(out).deep_view() + matching(
                self.rows.deep_view(),
                self.key as int,
                key.deep_view(),
            ),
    {
        broadcast use vstd::std_specs::hash::group_hash_axioms;

        let ghost rows = self.rows.deep_view();
        let ghost col = self.key as int;
        let ghost k = key.deep_view();
        let ghost start = out.deep_view();
        assert(rows.len() == self.rows.len());
        let h: u64 = hash_data(key);
        match self.by_hash.get(&h) {
            None => {
                proof {
                    assert(with_hash(rows, col, h).len() == 0);
                    lemma_found_by_hash(rows, col, k);
                    assert(with_hash(rows, col, h) =~= Seq::empty());
                    assert(start + Seq::<Seq<Val>>::empty() =~= start);
                }
            },
            Some(places) => {
                let ghost p = places@;
                assert(p == with_hash(rows, col, h));
                proof {
                    lemma_hash_places(rows, col, h);
                }
                let mut i: usize = 0;
                assert(p.take(0) =~= Seq::empty());
                assert(start + Seq::<Seq<Val>>::empty() =~= start);
                while i < places.len()
                    invariant
                        i <= places@.len(),
                        p == places@,
                        rows == self.rows.deep_view(),
                        col == self.key,
                        k == key.deep_view(),
                        self.wf(),
                        forall|j: int| 0 <= j < p.len() ==> (#[trigger] p[j]) < rows.len(),
                        out.deep_view() == start + picked_matches(rows, col, k, p.take(i as int)),
                    decreases places@.len() - i,
                {
                    let at: usize = places[i];
                    proof {
                        assert(p.take(i + 1).drop_last() =~= p.take(i as int));
                        assert(p.take(i + 1).last() == at);
                        assert(p[i as int] < rows.len());
                        assert(self.rows@[at as int]@.len() > self.key);
                    }
                    if is_same_key(&self.rows[at][self.key], key) {
                        let ghost before = out.deep_view();
                        let r = clone_row(&self.rows[at]);
                        out.push(r);
                        assert(out.deep_view() =~= before.push(r.deep_view()));
                        assert(before.push(r.deep_view()) =~= start + picked_matches(
                            rows,
                            col,
                            k,
                            p.take(i as int),
                        ).push(r.deep_view()));
                    }
                    i += 1;
                }
                proof {
                    assert(p.take(i as int) =~= p);
                    lemma_found_by_hash(rows, col, k);
                }
            },
        }
    }
}

/// The rows at these positions whose key is this one.
spec fn picked_matches(
    rows: Seq<Seq<Val>>,
    col: int,
    key: Val,
    p: Seq<usize>,
) -> Seq<Seq<Val>>
    decreases p.len(),
{
    if p.len() == 0 {
        Seq::empty()
    } else {
        let before = picked_matches(rows, col, key, p.drop_last());
        if same_key(rows[p.last() as int][col], key) {
            before.push(rows[p.last() as int])
        } else {
            before
        }
    }
}

proof fn lemma_hash_places(rows: Seq<Seq<Val>>, col: int, h: u64)
    requires
        rows.len() <= usize::MAX,
    ensures
        forall|j: int|
            0 <= j < with_hash(rows, col, h).len() ==> (#[trigger] with_hash(rows, col, h)[j])
                < rows.len(),
    decreases rows.len(),
{
    if rows.len() > 0 {
        lemma_hash_places(rows.drop_last(), col, h);
        let before = with_hash(rows.drop_last(), col, h);
        let all = with_hash(rows, col, h);
        assert forall|j: int| 0 <= j < all.len() implies (#[trigger] all[j]) < rows.len() by {
            if j < before.len() {
                assert(all[j] == before[j]);
            }
        }
    }
}

proof fn lemma_picked_prefix(
    rows: Seq<Seq<Val>>,
    more: Seq<Val>,
    col: int,
    key: Val,
    p: Seq<usize>,
)
    requires
        forall|j: int| 0 <= j < p.len() ==> (#[trigger] p[j]) < rows.len(),
    ensures
        picked_matches(rows.push(more), col, key, p) == picked_matches(rows, col, key, p),
    decreases p.len(),
{
    if p.len() > 0 {
        assert forall|j: int| 0 <= j < p.drop_last().len() implies (#[trigger] p.drop_last()[j])
            < rows.len() by {
            assert(p.drop_last()[j] == p[j]);
        }
        lemma_picked_prefix(rows, more, col, key, p.drop_last());
        assert(p[p.len() - 1] < rows.len());
        assert(rows.push(more)[p.last() as int] == rows[p.last() as int]);
    }
}

/// The rows with the key are found among those with its hash.
proof fn lemma_found_by_hash(rows: Seq<Seq<Val>>, col: int, key: Val)
    requires
        rows.len() <= usize::MAX,
    ensures
        picked_matches(rows, col, key, with_hash(rows, col, key_hash(key))) == matching(
            rows,
            col,
            key,
        ),
    decreases rows.len(),
{
    reveal(Seq::filter);
    let h = key_hash(key);
    if rows.len() == 0 {
        assert(matching(rows, col, key) =~= Seq::empty());
    } else {
        let before = rows.drop_last();
        let r = rows.last();
        lemma_found_by_hash(before, col, key);
        lemma_hash_places(before, col, h);
        let p = with_hash(before, col, h);
        lemma_picked_prefix(before, r, col, key, p);
        assert(before.push(r) =~= rows);
        if key_hash(r[col]) == h {
            let all = p.push((rows.len() - 1) as usize);
            assert(all.drop_last() =~= p);
            assert(all.last() as int == rows.len() - 1);
        }
    }
}

// ---- what keys match ----

/// Keys match in either order, and a key that matches two others makes them match. Integers and
/// texts match where they are equal. Numbers match only where they are equal, and all equal
/// numbers do but the two zeros. Values of different types do not match.
pub proof fn keys_match_where_values_are_equal(a: Val, b: Val, c: Val)
    ensures
        same_key(a, b) == same_key(b, a),
        same_key(a, b) && same_key(b, c) ==> same_key(a, c),
        same_key(a, b) ==> row::vals_compare(a, ComparisionOperator::EQ, b),
        a is Int32 || a is Int64 || a is Text ==> same_key(a, b) == row::vals_compare(
            a,
            ComparisionOperator::EQ,
            b,
        ),
        row::vals_compare(a, ComparisionOperator::EQ, b) && !same_key(a, b) ==> match a {
            Val::Float32(x) => x as int % 0x8000_0000 == 0,
            Val::Float64(x) => x as int % 0x8000_0000_0000_0000 == 0,
            _ => false,
        },
        row::val_type(a) != row::val_type(b) ==> !same_key(a, b),
{
    if !value::is_nan(a) {
        value::order_is_reflexive(a);
    }
    match (a, b) {
        (Val::Text(s), Val::Text(t)) => {
            value::texts_compare_by_their_first_difference(s, t);
        },
        _ => {},
    }
}

/// Keys that match have the same hash, and so the same places in a filter.
pub proof fn matching_keys_have_the_same_hash(a: Val, b: Val)
    requires
        same_key(a, b),
    ensures
        key_hash(a) == key_hash(b),
        bit_places(a) == bit_places(b),
{
}

} // verus!
