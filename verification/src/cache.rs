//! A cache of block ranges with two queues: ranges that were used once and
//! ranges that were used again after they had left the first queue.

use vstd::prelude::*;
use vstd::slice::{slice_subrange, slice_to_vec};

verus! {

/// The most ranges that are remembered after they have left the first queue.
pub const GHOST_LIMIT: usize = 1000;

/// A cached range of blocks and its bytes.
pub struct CacheEntry {
    pub start_block_id: u64,
    pub num_blocks: usize,
    pub data: Vec<u8>,
}

/// The mathematical value of a [`CacheEntry`].
pub struct Entry {
    pub start: u64,
    pub num: usize,
    pub data: Seq<u8>,
}

impl DeepView for CacheEntry {
    type V = Entry;

    open spec fn deep_view(&self) -> Entry {
        Entry { start: self.start_block_id, num: self.num_blocks, data: self.data@ }
    }
}

/// The cache. `am` and `a1_in` hold ranges, the one used last first; `a1_out`
/// remembers ranges that have left `a1_in`, the one that left last first.
pub struct TwoQueueCache {
    pub am: Vec<CacheEntry>,
    pub a1_in: Vec<CacheEntry>,
    pub a1_out: Vec<(u64, usize)>,
    pub size_bytes: usize,
}

/// The mathematical value of a [`TwoQueueCache`].
#[verifier::ext_equal]
pub struct Queues {
    pub am: Seq<Entry>,
    pub a1_in: Seq<Entry>,
    pub a1_out: Seq<(u64, usize)>,
}

/// The number of bytes of ranges.
pub open spec fn total_bytes(entries: Seq<Entry>) -> nat
    decreases entries.len(),
{
    if entries.len() == 0 {
        0
    } else {
        total_bytes(entries.drop_last()) + entries.last().data.len()
    }
}

impl Queues {
    /// The number of bytes in the cache.
    pub open spec fn size(self) -> nat {
        total_bytes(self.am) + total_bytes(self.a1_in)
    }
}

impl View for TwoQueueCache {
    type V = Queues;

    open spec fn view(&self) -> Queues {
        Queues {
            am: self.am.deep_view(),
            a1_in: self.a1_in.deep_view(),
            a1_out: self.a1_out@,
        }
    }
}

/// Whether the range of an entry holds the blocks `start` to `start + num`.
pub open spec fn covers(e: Entry, start: u64, num: usize) -> bool {
    start >= e.start && start + num <= e.start + e.num
}

/// Whether two ranges have a block in common.
pub open spec fn overlap(start: u64, num: usize, other: u64, other_num: usize) -> bool {
    start < other + other_num && start + num > other
}

/// The first position at or behind `from` of an entry that holds the blocks.
pub open spec fn covering(entries: Seq<Entry>, start: u64, num: usize, from: int) -> Option<int>
    decreases entries.len() - from,
{
    if from < 0 || from >= entries.len() {
        None
    } else if covers(entries[from], start, num) {
        Some(from)
    } else {
        covering(entries, start, num, from + 1)
    }
}

/// The first position at or behind `from` of an entry of exactly these blocks.
pub open spec fn exact(entries: Seq<Entry>, start: u64, num: usize, from: int) -> Option<int>
    decreases entries.len() - from,
{
    if from < 0 || from >= entries.len() {
        None
    } else if entries[from].start == start && entries[from].num == num {
        Some(from)
    } else {
        exact(entries, start, num, from + 1)
    }
}

/// The first position at or behind `from` of a remembered range that overlaps.
pub open spec fn remembered(out: Seq<(u64, usize)>, start: u64, num: usize, from: int) -> Option<
    int,
>
    decreases out.len() - from,
{
    if from < 0 || from >= out.len() {
        None
    } else if overlap(start, num, out[from].0, out[from].1) {
        Some(from)
    } else {
        remembered(out, start, num, from + 1)
    }
}

/// The last position of the largest entry.
pub open spec fn last_largest(entries: Seq<Entry>) -> int
    decreases entries.len(),
{
    if entries.len() <= 1 {
        0
    } else {
        let m = last_largest(entries.drop_last());
        if entries.last().data.len() >= entries[m].data.len() {
            entries.len() - 1
        } else {
            m
        }
    }
}

/// The remembered ranges with one more in front: the oldest goes where they are
/// too many.
pub open spec fn remembering(out: Seq<(u64, usize)>, e: Entry) -> Seq<(u64, usize)> {
    let more = seq![(e.start, e.num)] + out;
    if more.len() > GHOST_LIMIT {
        more.drop_last()
    } else {
        more
    }
}

/// The cache once it has shrunk to the limit: the oldest range used once goes
/// while such ranges have more than their share, or there are no others; else the
/// largest range of the others goes.
pub open spec fn shrunk(c: Queues, limit: nat, a1_in_limit: nat) -> Queues
    decreases c.am.len() + c.a1_in.len(),
{
    if c.size() <= limit || (c.am.len() == 0 && c.a1_in.len() == 0) {
        c
    } else if total_bytes(c.a1_in) > a1_in_limit || c.am.len() == 0 {
        if c.a1_in.len() == 0 {
            c
        } else {
            shrunk(
                Queues {
                    am: c.am,
                    a1_in: c.a1_in.drop_last(),
                    a1_out: remembering(c.a1_out, c.a1_in.last()),
                },
                limit,
                a1_in_limit,
            )
        }
    } else {
        let i = last_largest(c.am);
        if 0 <= i < c.am.len() {
            shrunk(
                Queues { am: c.am.remove(i), a1_in: c.a1_in, a1_out: c.a1_out },
                limit,
                a1_in_limit,
            )
        } else {
            c
        }
    }
}

/// The cache with one more range: one that is remembered joins the ranges used
/// again, any other those used once. A range larger than the limit is not kept.
pub open spec fn inserted(c: Queues, e: Entry, limit: nat, a1_in_limit: nat) -> Queues {
    if e.data.len() > limit {
        c
    } else {
        match remembered(c.a1_out, e.start, e.num, 0) {
            Some(i) => shrunk(
                Queues { am: seq![e] + c.am, a1_in: c.a1_in, a1_out: c.a1_out.remove(i) },
                limit,
                a1_in_limit,
            ),
            None => shrunk(
                Queues { am: c.am, a1_in: seq![e] + c.a1_in, a1_out: c.a1_out },
                limit,
                a1_in_limit,
            ),
        }
    }
}

/// The cache without the ranges that start at or behind `base`.
pub open spec fn retained(c: Queues, base: u64) -> Queues {
    Queues {
        am: c.am.filter(|e: Entry| e.start < base),
        a1_in: c.a1_in.filter(|e: Entry| e.start < base),
        a1_out: c.a1_out.filter(|r: (u64, usize)| r.0 < base),
    }
}

/// The cache without the first entry of exactly these blocks.
pub open spec fn without_exact(c: Queues, start: u64, num: usize) -> Queues {
    match exact(c.am, start, num, 0) {
        Some(i) => Queues { am: c.am.remove(i), a1_in: c.a1_in, a1_out: c.a1_out },
        None => match exact(c.a1_in, start, num, 0) {
            Some(i) => Queues { am: c.am, a1_in: c.a1_in.remove(i), a1_out: c.a1_out },
            None => c,
        },
    }
}

/// The entry that holds the blocks, and the cache once it has been used: it
/// stands first in its queue.
pub open spec fn used(c: Queues, start: u64, num: usize) -> Option<(Entry, Queues)> {
    match covering(c.am, start, num, 0) {
        Some(i) => Some(
            (
                c.am[i],
                Queues { am: seq![c.am[i]] + c.am.remove(i), a1_in: c.a1_in, a1_out: c.a1_out },
            ),
        ),
        None => match covering(c.a1_in, start, num, 0) {
            Some(i) => Some(
                (
                    c.a1_in[i],
                    Queues {
                        am: c.am,
                        a1_in: seq![c.a1_in[i]] + c.a1_in.remove(i),
                        a1_out: c.a1_out,
                    },
                ),
            ),
            None => None,
        },
    }
}

// ---- lemmas ----

proof fn lemma_total_remove(s: Seq<Entry>, i: int)
    requires
        0 <= i < s.len(),
    ensures
        total_bytes(s.remove(i)) + s[i].data.len() == total_bytes(s),
    decreases s.len(),
{
    if i == s.len() - 1 {
        assert(s.remove(i) =~= s.drop_last());
    } else {
        lemma_total_remove(s.drop_last(), i);
        assert(s.remove(i).drop_last() =~= s.drop_last().remove(i));
        assert(s.remove(i).last() == s.last());
    }
}

proof fn lemma_total_front(s: Seq<Entry>, e: Entry)
    ensures
        total_bytes(seq![e] + s) == total_bytes(s) + e.data.len(),
    decreases s.len(),
{
    let t = seq![e] + s;
    if s.len() == 0 {
        assert(t.drop_last() =~= Seq::empty());
        assert(total_bytes(t.drop_last()) == 0);
        assert(t.last() == e);
    } else {
        lemma_total_front(s.drop_last(), e);
        assert(t.drop_last() =~= seq![e] + s.drop_last());
        assert(t.last() == s.last());
    }
}

proof fn lemma_total_take(s: Seq<Entry>, n: int)
    requires
        0 <= n <= s.len(),
    ensures
        total_bytes(s.take(n)) <= total_bytes(s),
    decreases s.len() - n,
{
    if n == s.len() {
        assert(s.take(n) =~= s);
    } else {
        lemma_total_take(s, n + 1);
        assert(s.take(n + 1).drop_last() =~= s.take(n));
    }
}

proof fn lemma_last_largest(s: Seq<Entry>)
    requires
        s.len() > 0,
    ensures
        0 <= last_largest(s) < s.len(),
    decreases s.len(),
{
    if s.len() > 1 {
        lemma_last_largest(s.drop_last());
    }
}

proof fn lemma_covering(s: Seq<Entry>, start: u64, num: usize, from: int)
    requires
        0 <= from,
    ensures
        covering(s, start, num, from) matches Some(i) ==> from <= i < s.len() && covers(
            s[i],
            start,
            num,
        ),
    decreases s.len() - from,
{
    if from < s.len() && !covers(s[from], start, num) {
        lemma_covering(s, start, num, from + 1);
    }
}

proof fn lemma_filter_total(s: Seq<Entry>, p: spec_fn(Entry) -> bool)
    ensures
        total_bytes(s.filter(p)) <= total_bytes(s),
    decreases s.len(),
{
    reveal(Seq::filter);
    if s.len() > 0 {
        lemma_filter_total(s.drop_last(), p);
        let f = s.drop_last().filter(p);
        if p(s.last()) {
            assert(f.push(s.last()).drop_last() =~= f);
        }
    }
}

// ---- code ----

fn find_covering(entries: &Vec<CacheEntry>, start: u64, num: usize) -> (res: Option<usize>)
    ensures
        match res {
            Some(i) => covering(entries.deep_view(), start, num, 0) == Some(i as int) && i
                < entries@.len() && covers(entries.deep_view()[i as int], start, num),
            None => covering(entries.deep_view(), start, num, 0) is None,
        },
{
    let mut i: usize = 0;
    while i < entries.len()
        invariant
            i <= entries@.len(),
            covering(entries.deep_view(), start, num, 0) == covering(
                entries.deep_view(),
                start,
                num,
                i as int,
            ),
        decreases entries@.len() - i,
    {
        let e = &entries[i];
        if start >= e.start_block_id && start as u128 + num as u128 <= e.start_block_id as u128
            + e.num_blocks as u128 {
            return Some(i);
        }
        i += 1;
    }
    None
}

fn find_exact(entries: &Vec<CacheEntry>, start: u64, num: usize) -> (res: Option<usize>)
    ensures
        match res {
            Some(i) => exact(entries.deep_view(), start, num, 0) == Some(i as int) && i
                < entries@.len(),
            None => exact(entries.deep_view(), start, num, 0) is None,
        },
{
    let mut i: usize = 0;
    while i < entries.len()
        invariant
            i <= entries@.len(),
            exact(entries.deep_view(), start, num, 0) == exact(
                entries.deep_view(),
                start,
                num,
                i as int,
            ),
        decreases entries@.len() - i,
    {
        if entries[i].start_block_id == start && entries[i].num_blocks == num {
            return Some(i);
        }
        i += 1;
    }
    None
}

fn find_remembered(out: &Vec<(u64, usize)>, start: u64, num: usize) -> (res: Option<usize>)
    ensures
        match res {
            Some(i) => remembered(out@, start, num, 0) == Some(i as int) && i < out@.len(),
            None => remembered(out@, start, num, 0) is None,
        },
{
    let mut i: usize = 0;
    while i < out.len()
        invariant
            i <= out@.len(),
            remembered(out@, start, num, 0) == remembered(out@, start, num, i as int),
        decreases out@.len() - i,
    {
        let (other, other_num) = out[i];
        if (start as u128) < other as u128 + other_num as u128 && start as u128 + num as u128
            > other as u128 {
            return Some(i);
        }
        i += 1;
    }
    None
}

fn find_largest(entries: &Vec<CacheEntry>) -> (res: usize)
    requires
        entries@.len() > 0,
    ensures
        res == last_largest(entries.deep_view()),
        res < entries@.len(),
{
    let ghost s = entries.deep_view();
    let mut best: usize = 0;
    let mut i: usize = 1;
    while i < entries.len()
        invariant
            1 <= i <= entries@.len(),
            s == entries.deep_view(),
            best < i,
            best == last_largest(s.take(i as int)),
        decreases entries@.len() - i,
    {
        proof {
            assert(s.take(i + 1).drop_last() =~= s.take(i as int));
            assert(s.take(i + 1).last() == s[i as int]);
            assert(s.take(i + 1)[best as int] == s[best as int]);
        }
        if entries[i].data.len() >= entries[best].data.len() {
            best = i;
        }
        i += 1;
    }
    assert(s.take(i as int) =~= s);
    best
}

fn sum_bytes(entries: &Vec<CacheEntry>) -> (res: usize)
    requires
        total_bytes(entries.deep_view()) <= usize::MAX,
    ensures
        res == total_bytes(entries.deep_view()),
{
    let ghost s = entries.deep_view();
    let mut sum: usize = 0;
    let mut i: usize = 0;
    assert(s.take(0) =~= Seq::empty());
    while i < entries.len()
        invariant
            i <= entries@.len(),
            s == entries.deep_view(),
            total_bytes(s) <= usize::MAX,
            sum == total_bytes(s.take(i as int)),
        decreases entries@.len() - i,
    {
        proof {
            assert(s.take(i + 1).drop_last() =~= s.take(i as int));
            assert(s.take(i + 1).last() == s[i as int]);
            lemma_total_take(s, i + 1);
        }
        sum += entries[i].data.len();
        i += 1;
    }
    assert(s.take(i as int) =~= s);
    sum
}

/// Removes the entry at a position.
pub(crate) fn take_entry(entries: &mut Vec<CacheEntry>, i: usize) -> (res: CacheEntry)
    requires
        i < old(entries)@.len(),
    ensures
        res.deep_view() == old(entries).deep_view()[i as int],
        final(entries).deep_view() == old(entries).deep_view().remove(i as int),
{
    let ghost before = entries.deep_view();
    let e = entries.remove(i);
    assert(entries.deep_view() =~= before.remove(i as int));
    e
}

/// Puts an entry in front.
fn put_front(entries: &mut Vec<CacheEntry>, e: CacheEntry)
    ensures
        final(entries).deep_view() == seq![e.deep_view()] + old(entries).deep_view(),
{
    let ghost before = entries.deep_view();
    entries.insert(0, e);
    assert(entries.deep_view() =~= seq![e.deep_view()] + before);
}

/// Keeps the entries that start before `base`.
fn retain_below(entries: &mut Vec<CacheEntry>, base: u64)
    ensures
        final(entries).deep_view() == old(entries).deep_view().filter(|e: Entry| e.start < base),
{
    let ghost s = entries.deep_view();
    let ghost p = |e: Entry| e.start < base;
    let ghost mut k: int = 0;
    let mut i: usize = 0;
    assert(s.take(0).filter(p) =~= Seq::empty()) by {
        reveal(Seq::filter);
    }
    assert(s.skip(0) =~= s);
    while i < entries.len()
        invariant
            0 <= k <= s.len(),
            i <= entries@.len(),
            p == (|e: Entry| e.start < base),
            i == s.take(k).filter(p).len(),
            entries.deep_view() == s.take(k).filter(p) + s.skip(k),
        decreases entries@.len() - i,
    {
        proof {
            assert(entries@.len() == entries.deep_view().len());
            assert(entries.deep_view()[i as int] == s[k]);
            assert(s.take(k + 1).drop_last() =~= s.take(k));
            assert(s.take(k + 1).last() == s[k]);
            reveal(Seq::filter);
        }
        if entries[i].start_block_id >= base {
            let ghost before = entries.deep_view();
            let _gone = take_entry(entries, i);
            assert(before.remove(i as int) =~= s.take(k + 1).filter(p) + s.skip(k + 1));
        } else {
            assert(entries.deep_view() =~= s.take(k + 1).filter(p) + s.skip(k + 1));
            i += 1;
        }
        proof {
            k = k + 1;
        }
    }
    proof {
        assert(entries.deep_view().len() == entries@.len());
        assert(k == s.len());
        assert(s.take(k) =~= s);
        assert(s.filter(p) + s.skip(k) =~= s.filter(p));
    }
}

/// Keeps the remembered ranges that start before `base`.
fn forget_from(out: &mut Vec<(u64, usize)>, base: u64)
    ensures
        final(out)@ == old(out)@.filter(|r: (u64, usize)| r.0 < base),
{
    let ghost s = out@;
    let ghost p = |r: (u64, usize)| r.0 < base;
    let ghost mut k: int = 0;
    let mut i: usize = 0;
    assert(s.take(0).filter(p) =~= Seq::empty()) by {
        reveal(Seq::filter);
    }
    assert(s.skip(0) =~= s);
    while i < out.len()
        invariant
            0 <= k <= s.len(),
            i <= out@.len(),
            p == (|r: (u64, usize)| r.0 < base),
            i == s.take(k).filter(p).len(),
            out@ == s.take(k).filter(p) + s.skip(k),
        decreases out@.len() - i,
    {
        proof {
            assert(out@[i as int] == s[k]);
            assert(s.take(k + 1).drop_last() =~= s.take(k));
            assert(s.take(k + 1).last() == s[k]);
            reveal(Seq::filter);
        }
        if out[i].0 >= base {
            let ghost before = out@;
            let _gone = out.remove(i);
            assert(before.remove(i as int) =~= s.take(k + 1).filter(p) + s.skip(k + 1));
        } else {
            assert(out@ =~= s.take(k + 1).filter(p) + s.skip(k + 1));
            i += 1;
        }
        proof {
            k = k + 1;
        }
    }
    proof {
        assert(k == s.len());
        assert(s.take(k) =~= s);
        assert(s.filter(p) + s.skip(k) =~= s.filter(p));
    }
}

impl TwoQueueCache {
    /// Whether `size_bytes` is the number of bytes in the cache, and leaves room for
    /// as many again.
    pub open spec fn wf(self) -> bool {
        &&& self.size_bytes == self@.size()
        &&& self.size_bytes <= usize::MAX / 2
    }

    /// An empty cache.
    pub fn new() -> (res: TwoQueueCache)
        ensures
            res.wf(),
            res@ == (Queues { am: Seq::empty(), a1_in: Seq::empty(), a1_out: Seq::empty() }),
    {
        let c = TwoQueueCache {
            am: Vec::new(),
            a1_in: Vec::new(),
            a1_out: Vec::new(),
            size_bytes: 0,
        };
        assert(c@ =~= Queues { am: Seq::empty(), a1_in: Seq::empty(), a1_out: Seq::empty() });
        c
    }

    /// Takes out the entry that holds the blocks, and says whether it was used again.
    fn remove_overlap(&mut self, start: u64, num: usize) -> (res: Option<(CacheEntry, bool)>)
        ensures
            final(self).size_bytes == old(self).size_bytes,
            match covering(old(self)@.am, start, num, 0) {
                Some(i) => {
                    &&& res matches Some((e, in_am))
                    &&& in_am
                    &&& covers(e.deep_view(), start, num)
                    &&& 0 <= i < old(self)@.am.len()
                    &&& e.deep_view() == old(self)@.am[i]
                    &&& final(self)@ == (Queues { am: old(self)@.am.remove(i), ..old(self)@ })
                },
                None => match covering(old(self)@.a1_in, start, num, 0) {
                    Some(i) => {
                        &&& res matches Some((e, in_am))
                        &&& !in_am
                        &&& covers(e.deep_view(), start, num)
                        &&& 0 <= i < old(self)@.a1_in.len()
                        &&& e.deep_view() == old(self)@.a1_in[i]
                        &&& final(self)@ == (Queues {
                            a1_in: old(self)@.a1_in.remove(i),
                            ..old(self)@
                        })
                    },
                    None => res is None && *final(self) == *old(self),
                },
            },
    {
        match find_covering(&self.am, start, num) {
            Some(i) => Some((take_entry(&mut self.am, i), true)),
            None => match find_covering(&self.a1_in, start, num) {
                Some(i) => Some((take_entry(&mut self.a1_in, i), false)),
                None => None,
            },
        }
    }

    /// Gives a copy of the bytes of the blocks if one entry holds them, and marks
    /// that entry as used last.
    pub fn lookup(&mut self, start: u64, num: usize, block_size: usize) -> (res: Option<Vec<u8>>)
        requires
            old(self).wf(),
            well_sized(old(self)@, block_size as nat),
        ensures
            final(self).wf(),
            well_sized(final(self)@, block_size as nat),
            match used(old(self)@, start, num) {
                Some((e, c)) => {
                    &&& res matches Some(data)
                    &&& data@ == blocks_of(e, start, num, block_size as nat)
                    &&& final(self)@ == c
                },
                None => res is None && final(self)@ == old(self)@,
            },
    {
        let ghost before = self@;
        match self.remove_overlap(start, num) {
            None => None,
            Some((entry, in_am)) => {
                let ghost e = entry.deep_view();
                let skip: usize = (start - entry.start_block_id) as usize;
                proof {
                    assert(sized(e, block_size as nat));
                    lemma_in_range(e, start, num, block_size as nat);
                    if in_am {
                        let i = covering(before.am, start, num, 0)->Some_0;
                        lemma_total_remove(before.am, i);
                        lemma_total_front(before.am.remove(i), e);
                    } else {
                        let i = covering(before.a1_in, start, num, 0)->Some_0;
                        lemma_total_remove(before.a1_in, i);
                        lemma_total_front(before.a1_in.remove(i), e);
                    }
                }
                let from: usize = skip * block_size;
                let to: usize = from + num * block_size;
                let data = slice_to_vec(slice_subrange(entry.data.as_slice(), from, to));
                if in_am {
                    put_front(&mut self.am, entry);
                } else {
                    put_front(&mut self.a1_in, entry);
                }
                Some(data)
            },
        }
    }

    /// Removes the ranges that start at or behind `base`.
    pub fn retain_anon_blocks(&mut self, base: u64)
        requires
            old(self).wf(),
        ensures
            final(self).wf(),
            final(self)@ == retained(old(self)@, base),
    {
        proof {
            lemma_filter_total(self@.am, |e: Entry| e.start < base);
            lemma_filter_total(self@.a1_in, |e: Entry| e.start < base);
        }
        retain_below(&mut self.am, base);
        retain_below(&mut self.a1_in, base);
        forget_from(&mut self.a1_out, base);
        self.size_bytes = sum_bytes(&self.am) + sum_bytes(&self.a1_in);
    }

    /// Removes the first entry of exactly these blocks.
    pub fn remove_exact(&mut self, start: u64, num: usize)
        requires
            old(self).wf(),
        ensures
            final(self).wf(),
            final(self)@ == without_exact(old(self)@, start, num),
    {
        let ghost before = self@;
        match find_exact(&self.am, start, num) {
            Some(i) => {
                proof {
                    lemma_total_remove(before.am, i as int);
                }
                let e = take_entry(&mut self.am, i);
                self.size_bytes = self.size_bytes - e.data.len();
            },
            None => match find_exact(&self.a1_in, start, num) {
                Some(i) => {
                    proof {
                        lemma_total_remove(before.a1_in, i as int);
                    }
                    let e = take_entry(&mut self.a1_in, i);
                    self.size_bytes = self.size_bytes - e.data.len();
                },
                None => {},
            },
        }
    }

    /// Inserts a range and shrinks the cache to the limit.
    pub fn insert(&mut self, entry: CacheEntry, target_limit: usize, a1_in_limit: usize)
        requires
            old(self).wf(),
            target_limit <= usize::MAX / 2,
        ensures
            final(self).wf(),
            final(self)@ == inserted(
                old(self)@,
                entry.deep_view(),
                target_limit as nat,
                a1_in_limit as nat,
            ),
    {
        if entry.data.len() > target_limit {
            return;
        }
        let ghost before = self@;
        let ghost e = entry.deep_view();
        let size: usize = entry.data.len();
        match find_remembered(&self.a1_out, entry.start_block_id, entry.num_blocks) {
            Some(i) => {
                let _gone = self.a1_out.remove(i);
                proof {
                    lemma_total_front(before.am, e);
                }
                put_front(&mut self.am, entry);
            },
            None => {
                proof {
                    lemma_total_front(before.a1_in, e);
                }
                put_front(&mut self.a1_in, entry);
            },
        }
        self.size_bytes = self.size_bytes + size;
        let ghost start = self@;
        while self.size_bytes > target_limit && (self.am.len() > 0 || self.a1_in.len() > 0)
            invariant
                self.size_bytes == self@.size(),
                shrunk(self@, target_limit as nat, a1_in_limit as nat) == shrunk(
                    start,
                    target_limit as nat,
                    a1_in_limit as nat,
                ),
            decreases self.am@.len() + self.a1_in@.len(),
        {
            let ghost now = self@;
            assert(now.am.len() == self.am@.len() && now.a1_in.len() == self.a1_in@.len());
            if sum_bytes(&self.a1_in) > a1_in_limit || self.am.len() == 0 {
                match self.a1_in.pop() {
                    Some(gone) => {
                        assert(gone.deep_view() == now.a1_in.last());
                        assert(self.a1_in.deep_view() =~= now.a1_in.drop_last());
                        self.size_bytes = self.size_bytes - gone.data.len();
                        self.a1_out.insert(0, (gone.start_block_id, gone.num_blocks));
                        assert(self.a1_out@ =~= seq![(gone.start_block_id, gone.num_blocks)]
                            + now.a1_out);
                        if self.a1_out.len() > GHOST_LIMIT {
                            let _oldest = self.a1_out.pop();
                        }
                        assert(self.a1_out@ =~= remembering(now.a1_out, now.a1_in.last()));
                    },
                    None => {
                        assert(now.a1_in =~= Seq::empty());
                    },
                }
            } else {
                let i: usize = find_largest(&self.am);
                proof {
                    lemma_total_remove(now.am, i as int);
                }
                let gone = take_entry(&mut self.am, i);
                self.size_bytes = self.size_bytes - gone.data.len();
            }
        }
        proof {
            assert(self@.am.len() == self.am@.len() && self@.a1_in.len() == self.a1_in@.len());
        }
    }
}

/// Whether an entry holds the bytes of its blocks.
pub open spec fn sized(e: Entry, block_size: nat) -> bool {
    e.data.len() == e.num * block_size
}

/// Whether all entries hold the bytes of their blocks.
pub open spec fn well_sized(c: Queues, block_size: nat) -> bool {
    &&& forall|i: int| 0 <= i < c.am.len() ==> sized(#[trigger] c.am[i], block_size)
    &&& forall|i: int| 0 <= i < c.a1_in.len() ==> sized(#[trigger] c.a1_in[i], block_size)
}

/// The bytes of blocks out of an entry that holds them.
pub open spec fn blocks_of(e: Entry, start: u64, num: usize, block_size: nat) -> Seq<u8> {
    e.data.subrange(
        (start - e.start) * block_size,
        (start - e.start) * block_size + num * block_size,
    )
}

proof fn lemma_in_range(e: Entry, start: u64, num: usize, block_size: nat)
    requires
        sized(e, block_size),
        covers(e, start, num),
    ensures
        0 <= (start - e.start) * block_size,
        0 <= num * block_size,
        (start - e.start) * block_size + num * block_size <= e.data.len(),
{
    let k = start - e.start;
    assert(0 <= k * block_size && 0 <= num * block_size && k * block_size + num * block_size
        <= e.num * block_size) by (nonlinear_arith)
        requires
            0 <= k,
            0 <= num,
            k + num <= e.num,
            block_size >= 0,
    ;
}

/// Whether every entry has a property.
pub open spec fn all_entries(c: Queues, p: spec_fn(Entry) -> bool) -> bool {
    &&& forall|i: int| 0 <= i < c.am.len() ==> p(#[trigger] c.am[i])
    &&& forall|i: int| 0 <= i < c.a1_in.len() ==> p(#[trigger] c.a1_in[i])
}

proof fn lemma_shrunk_entries(
    c: Queues,
    limit: nat,
    a1_in_limit: nat,
    p: spec_fn(Entry) -> bool,
)
    requires
        all_entries(c, p),
    ensures
        all_entries(shrunk(c, limit, a1_in_limit), p),
    decreases c.am.len() + c.a1_in.len(),
{
    if c.size() <= limit || (c.am.len() == 0 && c.a1_in.len() == 0) {
    } else if total_bytes(c.a1_in) > a1_in_limit || c.am.len() == 0 {
        if c.a1_in.len() > 0 {
            lemma_shrunk_entries(
                Queues {
                    am: c.am,
                    a1_in: c.a1_in.drop_last(),
                    a1_out: remembering(c.a1_out, c.a1_in.last()),
                },
                limit,
                a1_in_limit,
                p,
            );
        }
    } else {
        let i = last_largest(c.am);
        if 0 <= i < c.am.len() {
            lemma_shrunk_entries(
                Queues { am: c.am.remove(i), a1_in: c.a1_in, a1_out: c.a1_out },
                limit,
                a1_in_limit,
                p,
            );
        }
    }
}

/// A range that is inserted adds no entry but its own.
pub proof fn lemma_inserted_entries(
    c: Queues,
    e: Entry,
    limit: nat,
    a1_in_limit: nat,
    p: spec_fn(Entry) -> bool,
)
    requires
        all_entries(c, p),
        p(e),
    ensures
        all_entries(inserted(c, e, limit, a1_in_limit), p),
{
    match remembered(c.a1_out, e.start, e.num, 0) {
        Some(i) => {
            lemma_shrunk_entries(
                Queues { am: seq![e] + c.am, a1_in: c.a1_in, a1_out: c.a1_out.remove(i) },
                limit,
                a1_in_limit,
                p,
            );
        },
        None => {
            lemma_shrunk_entries(
                Queues { am: c.am, a1_in: seq![e] + c.a1_in, a1_out: c.a1_out },
                limit,
                a1_in_limit,
                p,
            );
        },
    }
}

/// Using an entry adds none.
pub proof fn lemma_used_entries(c: Queues, start: u64, num: usize, p: spec_fn(Entry) -> bool)
    requires
        all_entries(c, p),
    ensures
        used(c, start, num) matches Some((e, d)) ==> p(e) && all_entries(d, p) && covers(
            e,
            start,
            num,
        ),
{
    lemma_covering(c.am, start, num, 0);
    lemma_covering(c.a1_in, start, num, 0);
}

proof fn lemma_exact(s: Seq<Entry>, start: u64, num: usize, from: int)
    requires
        0 <= from,
    ensures
        match exact(s, start, num, from) {
            Some(i) => from <= i < s.len() && s[i].start == start && s[i].num == num && forall|j: int|
                from <= j < i ==> !((#[trigger] s[j]).start == start && s[j].num == num),
            None => forall|j: int|
                from <= j < s.len() ==> !((#[trigger] s[j]).start == start && s[j].num == num),
        },
    decreases s.len() - from,
{
    if from < s.len() && !(s[from].start == start && s[from].num == num) {
        lemma_exact(s, start, num, from + 1);
    }
}

/// Removing an entry adds none.
pub proof fn lemma_without_exact_entries(
    c: Queues,
    start: u64,
    num: usize,
    p: spec_fn(Entry) -> bool,
)
    requires
        all_entries(c, p),
    ensures
        all_entries(without_exact(c, start, num), p),
{
    lemma_exact(c.am, start, num, 0);
    lemma_exact(c.a1_in, start, num, 0);
}

/// Removing the ranges from a block on adds none, and none of those is left.
pub proof fn lemma_retained_entries(c: Queues, base: u64, p: spec_fn(Entry) -> bool)
    requires
        all_entries(c, p),
    ensures
        all_entries(retained(c, base), p),
        all_entries(retained(c, base), |e: Entry| e.start < base),
{
    let q = |e: Entry| e.start < base;
    lemma_filter_entries(c.am, q, p);
    lemma_filter_entries(c.a1_in, q, p);
}

proof fn lemma_filter_entries(s: Seq<Entry>, q: spec_fn(Entry) -> bool, p: spec_fn(Entry) -> bool)
    requires
        forall|i: int| 0 <= i < s.len() ==> p(#[trigger] s[i]),
    ensures
        forall|i: int| 0 <= i < s.filter(q).len() ==> p(#[trigger] s.filter(q)[i]),
        forall|i: int| 0 <= i < s.filter(q).len() ==> q(#[trigger] s.filter(q)[i]),
    decreases s.len(),
{
    reveal(Seq::filter);
    if s.len() > 0 {
        let t = s.drop_last();
        assert forall|i: int| 0 <= i < t.len() implies p(#[trigger] t[i]) by {
            assert(t[i] == s[i]);
        }
        lemma_filter_entries(t, q, p);
        assert(p(s[s.len() - 1]));
        let f = t.filter(q);
        let g = s.filter(q);
        assert forall|i: int| 0 <= i < g.len() implies p(#[trigger] g[i]) && q(g[i]) by {
            if i < f.len() {
                assert(g[i] == f[i]);
            }
        }
    }
}

// ---- what the cache promises ----

/// The bytes of `num` blocks from `start` on, one behind the other, of a disk that
/// holds `disk[b]` in block `b`.
pub open spec fn disk_blocks(disk: Map<int, Seq<u8>>, start: int, num: nat) -> Seq<u8>
    decreases num,
{
    if num == 0 {
        Seq::empty()
    } else {
        disk_blocks(disk, start, (num - 1) as nat) + disk[start + num - 1]
    }
}

/// Whether the cache holds what the disk holds.
pub open spec fn coherent(c: Queues, disk: Map<int, Seq<u8>>) -> bool {
    all_entries(c, |e: Entry| e.data == disk_blocks(disk, e.start as int, e.num as nat))
}

/// Whether every block of a disk has the block size.
pub open spec fn uniform(disk: Map<int, Seq<u8>>, block_size: nat) -> bool {
    forall|b: int| (#[trigger] disk[b]).len() == block_size
}

/// The length of blocks of a disk.
pub proof fn lemma_disk_blocks_len(disk: Map<int, Seq<u8>>, start: int, num: nat, block_size: nat)
    requires
        uniform(disk, block_size),
    ensures
        disk_blocks(disk, start, num).len() == num * block_size,
    decreases num,
{
    if num > 0 {
        lemma_disk_blocks_len(disk, start, (num - 1) as nat, block_size);
        assert(disk[start + num - 1].len() == block_size);
        assert((num - 1) * block_size + block_size == num * block_size) by (nonlinear_arith);
    } else {
        assert(0 * block_size == 0);
    }
}

/// Blocks of a disk one behind the other.
pub proof fn lemma_disk_blocks_split(disk: Map<int, Seq<u8>>, start: int, a: nat, b: nat)
    ensures
        disk_blocks(disk, start, a + b) == disk_blocks(disk, start, a) + disk_blocks(
            disk,
            start + a,
            b,
        ),
    decreases b,
{
    if b > 0 {
        lemma_disk_blocks_split(disk, start, a, (b - 1) as nat);
        assert((start + a) + b - 1 == start + (a + b) - 1);
        assert(disk_blocks(disk, start, a + b) =~= disk_blocks(disk, start, a) + disk_blocks(
            disk,
            start + a,
            b,
        ));
    } else {
        assert(disk_blocks(disk, start, a) + Seq::empty() =~= disk_blocks(disk, start, a));
    }
}

/// Each block of a range of the disk stands in its place.
pub proof fn lemma_blocks_of_disk(
    disk: Map<int, Seq<u8>>,
    start: int,
    n: nat,
    i: nat,
    block_size: nat,
)
    requires
        uniform(disk, block_size),
        i < n,
    ensures
        disk_blocks(disk, start, n).subrange(
            i as int * block_size,
            i as int * block_size + block_size,
        )
            == disk[start + i],
{
    assert(n == i + (n - i) as nat);
    lemma_disk_blocks_split(disk, start, i, (n - i) as nat);
    assert((n - i) as nat == 1 + (n - i - 1) as nat);
    lemma_disk_blocks_split(disk, start + i, 1, (n - i - 1) as nat);
    lemma_disk_blocks_len(disk, start, i, block_size);
    assert(disk[start + i].len() == block_size);
    assert(disk_blocks(disk, start + i, 0) =~= Seq::empty());
    assert(disk_blocks(disk, start + i, 1) =~= disk[start + i]);
    assert(disk_blocks(disk, start, n).subrange(
            i as int * block_size,
            i as int * block_size + block_size,
        )
        =~= disk[start + i]);
}

/// A cache that holds what the disk holds gives what the disk would give.
pub proof fn cache_gives_disk_contents(
    c: Queues,
    disk: Map<int, Seq<u8>>,
    start: u64,
    num: usize,
    block_size: nat,
)
    requires
        coherent(c, disk),
        uniform(disk, block_size),
    ensures
        used(c, start, num) matches Some((e, d)) ==> coherent(d, disk) && blocks_of(
            e,
            start,
            num,
            block_size,
        ) == disk_blocks(disk, start as int, num as nat),
{
    let p = |e: Entry| e.data == disk_blocks(disk, e.start as int, e.num as nat);
    lemma_used_entries(c, start, num, p);
    match used(c, start, num) {
        Some((e, d)) => {
            let k = (start - e.start) as nat;
            let rest = (e.start + e.num - start - num) as nat;
            lemma_disk_blocks_split(disk, e.start as int, k, num as nat + rest);
            lemma_disk_blocks_split(disk, start as int, num as nat, rest);
            lemma_disk_blocks_len(disk, e.start as int, k, block_size);
            lemma_disk_blocks_len(disk, start as int, num as nat, block_size);
            assert(k + (num as nat + rest) == e.num as nat);
            assert(blocks_of(e, start, num, block_size) =~= disk_blocks(
                disk,
                start as int,
                num as nat,
            ));
        },
        None => {},
    }
}

/// What was read from the disk can be cached.
pub proof fn caching_a_read_keeps_coherence(
    c: Queues,
    disk: Map<int, Seq<u8>>,
    e: Entry,
    limit: nat,
    a1_in_limit: nat,
)
    requires
        coherent(c, disk),
        e.data == disk_blocks(disk, e.start as int, e.num as nat),
    ensures
        coherent(inserted(c, e, limit, a1_in_limit), disk),
{
    lemma_inserted_entries(
        c,
        e,
        limit,
        a1_in_limit,
        |e: Entry| e.data == disk_blocks(disk, e.start as int, e.num as nat),
    );
}

/// The disk once `num` blocks of `data` were written from `start` on.
pub open spec fn written(
    disk: Map<int, Seq<u8>>,
    start: int,
    num: nat,
    data: Seq<u8>,
    block_size: nat,
) -> Map<int, Seq<u8>>
    decreases num,
{
    if num == 0 {
        disk
    } else {
        written(disk, start, (num - 1) as nat, data, block_size).insert(
            start + num - 1,
            data.subrange((num - 1) * block_size, (num - 1) * block_size + block_size),
        )
    }
}

/// Each block of a disk once blocks were written.
pub proof fn lemma_written(
    disk: Map<int, Seq<u8>>,
    start: int,
    num: nat,
    data: Seq<u8>,
    block_size: nat,
    b: int,
)
    ensures
        !(start <= b < start + num) ==> written(disk, start, num, data, block_size)[b] == disk[b],
        start <= b < start + num ==> written(disk, start, num, data, block_size)[b]
            == data.subrange((b - start) * block_size, (b - start) * block_size + block_size),
    decreases num,
{
    if num > 0 {
        lemma_written(disk, start, (num - 1) as nat, data, block_size, b);
    }
}

proof fn lemma_written_inside(
    disk: Map<int, Seq<u8>>,
    start: int,
    num: nat,
    data: Seq<u8>,
    block_size: nat,
    n: nat,
)
    requires
        n <= num,
        data.len() == num * block_size,
    ensures
        n * block_size <= data.len(),
        disk_blocks(written(disk, start, num, data, block_size), start, n) == data.take(
            (n * block_size) as int,
        ),
    decreases n,
{
    assert(n * block_size <= num * block_size) by (nonlinear_arith)
        requires
            n <= num,
    ;
    if n > 0 {
        lemma_written_inside(disk, start, num, data, block_size, (n - 1) as nat);
        lemma_written(disk, start, num, data, block_size, start + n - 1);
        assert((n - 1) * block_size + block_size == n * block_size) by (nonlinear_arith);
        assert((start + n - 1) - start == n - 1);
        assert(data.take(((n - 1) * block_size) as int) + data.subrange(
            (n - 1) * block_size,
            (n - 1) * block_size + block_size,
        ) =~= data.take((n * block_size) as int));
    } else {
        assert(0 * block_size == 0);
        assert(data.take(0) =~= Seq::empty());
    }
}

/// Writing leaves other blocks as they are.
pub proof fn lemma_written_outside(
    disk: Map<int, Seq<u8>>,
    start: int,
    num: nat,
    data: Seq<u8>,
    block_size: nat,
    from: int,
    n: nat,
)
    requires
        from + n <= start || start + num <= from,
    ensures
        disk_blocks(written(disk, start, num, data, block_size), from, n) == disk_blocks(
            disk,
            from,
            n,
        ),
    decreases n,
{
    if n > 0 {
        lemma_written_outside(disk, start, num, data, block_size, from, (n - 1) as nat);
        lemma_written(disk, start, num, data, block_size, from + n - 1);
    }
}

/// What was written is what the disk holds.
pub proof fn lemma_written_whole(
    disk: Map<int, Seq<u8>>,
    start: int,
    num: nat,
    data: Seq<u8>,
    block_size: nat,
)
    requires
        data.len() == num * block_size,
    ensures
        disk_blocks(written(disk, start, num, data, block_size), start, num) == data,
{
    lemma_written_inside(disk, start, num, data, block_size, num);
    assert(data.take(data.len() as int) =~= data);
}

/// Writing keeps the size of the blocks.
pub proof fn lemma_written_uniform(
    disk: Map<int, Seq<u8>>,
    start: int,
    num: nat,
    data: Seq<u8>,
    block_size: nat,
)
    requires
        uniform(disk, block_size),
        data.len() == num * block_size,
    ensures
        uniform(written(disk, start, num, data, block_size), block_size),
{
    assert forall|b: int| (#[trigger] written(disk, start, num, data, block_size)[b]).len()
        == block_size by {
        lemma_written(disk, start, num, data, block_size, b);
        assert(disk[b].len() == block_size);
        if start <= b < start + num {
            let k = b - start;
            assert(0 <= k * block_size && k * block_size + block_size <= num * block_size)
                by (nonlinear_arith)
                requires
                    0 <= k < num,
                    block_size >= 0,
            ;
        }
    }
}

/// Whether two disks have the same blocks before a block.
pub open spec fn same_before(disk: Map<int, Seq<u8>>, other: Map<int, Seq<u8>>, end: int) -> bool {
    forall|b: int| b < end ==> #[trigger] other[b] == disk[b]
}

/// Writing from a block on leaves the blocks before it.
pub proof fn lemma_written_same_before(
    disk: Map<int, Seq<u8>>,
    start: int,
    num: nat,
    data: Seq<u8>,
    block_size: nat,
    end: int,
)
    requires
        end <= start,
    ensures
        same_before(disk, written(disk, start, num, data, block_size), end),
{
    assert forall|b: int| b < end implies #[trigger] written(
        disk,
        start,
        num,
        data,
        block_size,
    )[b] == disk[b] by {
        lemma_written(disk, start, num, data, block_size, b);
    }
}

/// Whether no cached range shares a block with the range, but for one cached entry
/// of exactly that range.
pub open spec fn replaces(c: Queues, start: u64, num: usize) -> bool {
    all_entries(
        without_exact(c, start, num),
        |e: Entry| e.start + e.num <= start || start + num <= e.start,
    )
}

/// A range that is written, and shares blocks with no cached range other than the
/// one it replaces, is what the cache and the disk then hold.
pub proof fn caching_a_write_keeps_coherence(
    c: Queues,
    disk: Map<int, Seq<u8>>,
    e: Entry,
    block_size: nat,
    limit: nat,
    a1_in_limit: nat,
)
    requires
        coherent(c, disk),
        sized(e, block_size),
        replaces(c, e.start, e.num),
    ensures
        coherent(
            inserted(without_exact(c, e.start, e.num), e, limit, a1_in_limit),
            written(disk, e.start as int, e.num as nat, e.data, block_size),
        ),
{
    let now = written(disk, e.start as int, e.num as nat, e.data, block_size);
    let p = |e: Entry| e.data == disk_blocks(disk, e.start as int, e.num as nat);
    let q = |e: Entry| e.data == disk_blocks(now, e.start as int, e.num as nat);
    let d = without_exact(c, e.start, e.num);
    lemma_without_exact_entries(c, e.start, e.num, p);
    assert forall|i: int| 0 <= i < d.am.len() implies q(#[trigger] d.am[i]) by {
        let x = d.am[i];
        assert(p(x));
        lemma_written_outside(
            disk,
            e.start as int,
            e.num as nat,
            e.data,
            block_size,
            x.start as int,
            x.num as nat,
        );
    }
    assert forall|i: int| 0 <= i < d.a1_in.len() implies q(#[trigger] d.a1_in[i]) by {
        let x = d.a1_in[i];
        assert(p(x));
        lemma_written_outside(
            disk,
            e.start as int,
            e.num as nat,
            e.data,
            block_size,
            x.start as int,
            x.num as nat,
        );
    }
    lemma_written_inside(disk, e.start as int, e.num as nat, e.data, block_size, e.num as nat);
    assert(e.data.take(e.data.len() as int) =~= e.data);
    lemma_inserted_entries(d, e, limit, a1_in_limit, q);
}

/// Forgetting ranges keeps the cache coherent.
pub proof fn retaining_keeps_coherence(c: Queues, disk: Map<int, Seq<u8>>, base: u64)
    requires
        coherent(c, disk),
    ensures
        coherent(retained(c, base), disk),
        all_entries(retained(c, base), |e: Entry| e.start < base),
{
    lemma_retained_entries(
        c,
        base,
        |e: Entry| e.data == disk_blocks(disk, e.start as int, e.num as nat),
    );
}

/// A range that is larger than the limit changes nothing. Once any other was inserted, the
/// cache holds no more bytes than the limit, and remembers no more ranges than it may.
/// Whatever it holds is the new range, or was held before.
pub proof fn cache_keeps_to_its_limit(c: Queues, e: Entry, limit: nat, a1_in_limit: nat)
    requires
        c.a1_out.len() <= GHOST_LIMIT,
    ensures
        ({
            let d = inserted(c, e, limit, a1_in_limit);
            &&& e.data.len() > limit ==> d == c
            &&& e.data.len() <= limit ==> d.size() <= limit
            &&& d.a1_out.len() <= GHOST_LIMIT
            &&& all_entries(d, |x: Entry| x == e || c.am.contains(x) || c.a1_in.contains(x))
        }),
{
    let p = |x: Entry| x == e || c.am.contains(x) || c.a1_in.contains(x);
    assert(all_entries(c, p));
    lemma_inserted_entries(c, e, limit, a1_in_limit, p);
    match remembered(c.a1_out, e.start, e.num, 0) {
        Some(i) => {
            lemma_remembered(c.a1_out, e.start, e.num, 0);
            lemma_shrunk_size(
                Queues { am: seq![e] + c.am, a1_in: c.a1_in, a1_out: c.a1_out.remove(i) },
                limit,
                a1_in_limit,
            );
        },
        None => {
            lemma_shrunk_size(
                Queues { am: c.am, a1_in: seq![e] + c.a1_in, a1_out: c.a1_out },
                limit,
                a1_in_limit,
            );
        },
    }
}

proof fn lemma_remembered(out: Seq<(u64, usize)>, start: u64, num: usize, from: int)
    requires
        0 <= from,
    ensures
        remembered(out, start, num, from) matches Some(i) ==> from <= i < out.len(),
    decreases out.len() - from,
{
    if from < out.len() && !overlap(start, num, out[from].0, out[from].1) {
        lemma_remembered(out, start, num, from + 1);
    }
}

proof fn lemma_shrunk_size(c: Queues, limit: nat, a1_in_limit: nat)
    ensures
        shrunk(c, limit, a1_in_limit).size() <= limit,
        c.a1_out.len() <= GHOST_LIMIT ==> shrunk(c, limit, a1_in_limit).a1_out.len()
            <= GHOST_LIMIT,
    decreases c.am.len() + c.a1_in.len(),
{
    if c.size() <= limit {
    } else if c.am.len() == 0 && c.a1_in.len() == 0 {
    } else if total_bytes(c.a1_in) > a1_in_limit || c.am.len() == 0 {
        lemma_shrunk_size(
            Queues {
                am: c.am,
                a1_in: c.a1_in.drop_last(),
                a1_out: remembering(c.a1_out, c.a1_in.last()),
            },
            limit,
            a1_in_limit,
        );
    } else {
        let i = last_largest(c.am);
        lemma_last_largest(c.am);
        lemma_shrunk_size(
            Queues { am: c.am.remove(i), a1_in: c.a1_in, a1_out: c.a1_out },
            limit,
            a1_in_limit,
        );
    }
}

} // verus!
