//! The protocol of the disk: commands, the buffer of writes, the cache of reads,
//! and the blocks that operators take for themselves.
//!
//! Nothing here talks to the disk. A function that needs it gives the bytes to
//! send, and what the disk replies is handed to the function that goes on.

use vstd::prelude::*;
use vstd::string::*;
use vstd::utf8::*;

use crate::bytes::append_bytes;
use crate::cache::{take_entry, CacheEntry, Entry, Queues, TwoQueueCache};
use crate::cache;
use crate::error::{DbError, Fault};
use crate::text::{parse_u64, push_decimal, trim};
use crate::text;

verus! {

/// What is known of the disk between commands.
pub struct DiskState {
    /// Writes that have not been sent.
    pub write_buffer: Vec<u8>,
    /// The size from which the buffer of writes is sent.
    pub buffer_limit: usize,
    /// The next block that an operator can take.
    pub next_anon_block: u64,
    /// The first block that operators can take, 0 while it is not known.
    pub base_anon_block: u64,
    pub cache: TwoQueueCache,
    pub cache_limit: usize,
    pub a1_in_limit: usize,
    /// Blocks that were written and are to be cached once the writes were sent.
    pub waiting: Vec<CacheEntry>,
}

/// The mathematical value of a [`DiskState`].
#[verifier::ext_equal]
pub struct Disk {
    pub buffer: Seq<u8>,
    pub buffer_limit: nat,
    pub next: u64,
    pub base: u64,
    pub queues: Queues,
    pub cache_limit: nat,
    pub a1_in_limit: nat,
    pub waiting: Seq<Entry>,
}

impl View for DiskState {
    type V = Disk;

    open spec fn view(&self) -> Disk {
        Disk {
            buffer: self.write_buffer@,
            buffer_limit: self.buffer_limit as nat,
            next: self.next_anon_block,
            base: self.base_anon_block,
            queues: self.cache@,
            cache_limit: self.cache_limit as nat,
            a1_in_limit: self.a1_in_limit as nat,
            waiting: self.waiting.deep_view(),
        }
    }
}

/// How a read goes on.
pub enum BlockRead {
    /// The blocks were cached.
    Cached(Vec<u8>),
    /// These bytes have to be sent; the disk replies with the blocks.
    Fetch(Vec<u8>),
}

impl DiskState {
    /// Whether the cache is in order, and its limit leaves room for as much again.
    pub open spec fn wf(self) -> bool {
        &&& self.cache.wf()
        &&& self.cache_limit <= usize::MAX / 2
    }

    /// Whether every range that is cached, or is to be, has the size of its blocks.
    pub open spec fn sized_for(self, block_size: nat) -> bool {
        &&& cache::well_sized(self.cache@, block_size)
        &&& forall|i: int|
            0 <= i < self@.waiting.len() ==> cache::sized(#[trigger] self@.waiting[i], block_size)
    }

    /// Nothing cached, nothing buffered, and the budgets of a small memory: 4 MB of
    /// writes and 12 MB of cache, 3 MB of it for ranges used once.
    pub fn new() -> (res: DiskState)
        ensures
            res.wf(),
            forall|block_size: nat| #[trigger] res.sized_for(block_size),
            res@ == (Disk {
                buffer: Seq::empty(),
                buffer_limit: 4 * 1024 * 1024,
                next: 0,
                base: 0,
                queues: Queues { am: Seq::empty(), a1_in: Seq::empty(), a1_out: Seq::empty() },
                cache_limit: 12 * 1024 * 1024,
                a1_in_limit: 3 * 1024 * 1024,
                waiting: Seq::empty(),
            }),
    {
        let waiting: Vec<CacheEntry> = Vec::new();
        assert(waiting.deep_view() =~= Seq::empty());
        DiskState {
            write_buffer: Vec::new(),
            buffer_limit: 4 * 1024 * 1024,
            next_anon_block: 0,
            base_anon_block: 0,
            cache: TwoQueueCache::new(),
            cache_limit: 12 * 1024 * 1024,
            a1_in_limit: 3 * 1024 * 1024,
            waiting,
        }
    }
}

/// Takes the buffered writes, to be sent; there is nothing to send where they are none.
/// Once they were sent, [`writes_sent`] follows; where sending fails, they are handed to
/// [`keep_unsent`].
pub fn flush_disk_write_buffer(disk: &mut DiskState) -> (res: Vec<u8>)
    ensures
        res@ == old(disk)@.buffer,
        final(disk)@ == (Disk { buffer: Seq::empty(), ..old(disk)@ }),
        final(disk).cache == old(disk).cache,
{
    let mut out: Vec<u8> = Vec::new();
    out.append(&mut disk.write_buffer);
    out
}

/// The disk with writes that could not be sent in front of the buffered ones. Blocks that
/// waited for them are not cached.
pub open spec fn with_unsent(d: Disk, unsent: Seq<u8>) -> Disk {
    Disk { buffer: unsent + d.buffer, waiting: Seq::empty(), ..d }
}

/// Takes back writes that could not be sent: they are buffered again, before those that were
/// buffered since, and their blocks are not cached.
pub fn keep_unsent(disk: &mut DiskState, unsent: Vec<u8>)
    ensures
        final(disk)@ == with_unsent(old(disk)@, unsent@),
        final(disk).cache == old(disk).cache,
{
    let mut all = unsent;
    all.append(&mut disk.write_buffer);
    disk.write_buffer = all;
    disk.waiting = Vec::new();
    assert(disk.waiting.deep_view() =~= Seq::empty());
}

/// The cache once written blocks took the place of a range of exactly these blocks.
pub open spec fn refreshed(c: Queues, e: Entry, limit: nat, a1_in_limit: nat) -> Queues {
    cache::inserted(cache::without_exact(c, e.start, e.num), e, limit, a1_in_limit)
}

/// The cache once written blocks were cached in turn.
pub open spec fn refreshed_by_all(
    c: Queues,
    entries: Seq<Entry>,
    limit: nat,
    a1_in_limit: nat,
) -> Queues
    decreases entries.len(),
{
    if entries.len() == 0 {
        c
    } else {
        refreshed(
            refreshed_by_all(c, entries.drop_last(), limit, a1_in_limit),
            entries.last(),
            limit,
            a1_in_limit,
        )
    }
}

/// The disk once the writes that were given to be sent were sent: their blocks are cached.
pub open spec fn settled(d: Disk) -> Disk {
    Disk {
        queues: refreshed_by_all(d.queues, d.waiting, d.cache_limit, d.a1_in_limit),
        waiting: Seq::empty(),
        ..d
    }
}

/// Caches the blocks of the writes that have been sent.
pub fn writes_sent(disk: &mut DiskState)
    requires
        old(disk).wf(),
    ensures
        final(disk).wf(),
        final(disk)@ == settled(old(disk)@),
        forall|block_size: nat|
            old(disk).sized_for(block_size) ==> #[trigger] final(disk).sized_for(block_size),
{
    let ghost before = disk@;
    let ghost all = disk@.waiting;
    let mut waiting: Vec<CacheEntry> = Vec::new();
    std::mem::swap(&mut waiting, &mut disk.waiting);
    assert(disk.waiting.deep_view() =~= Seq::empty());
    let ghost mut i: int = 0;
    assert(all.take(0) =~= Seq::empty());
    assert(all.skip(0) =~= all);
    while waiting.len() > 0
        invariant
            disk.wf(),
            0 <= i <= all.len(),
            all == before.waiting,
            waiting.deep_view() == all.skip(i),
            disk@ == (Disk {
                queues: refreshed_by_all(
                    before.queues,
                    all.take(i),
                    before.cache_limit,
                    before.a1_in_limit,
                ),
                waiting: Seq::empty(),
                ..before
            }),
            forall|block_size: nat|
                old(disk).sized_for(block_size) ==> #[trigger] disk.sized_for(block_size),
            all == old(disk)@.waiting,
        decreases waiting@.len(),
    {
        let ghost left = waiting.deep_view();
        assert(left.len() == waiting@.len());
        let e = take_entry(&mut waiting, 0);
        proof {
            assert(e.deep_view() == all[i]);
            assert(all.take(i + 1).drop_last() =~= all.take(i));
            assert(all.take(i + 1).last() == all[i]);
            assert(left.remove(0) =~= all.skip(i + 1));
            i = i + 1;
        }
        refresh(disk, e);
    }
    assert(all.take(i) =~= all);
}

/// Gives the bytes that ask the disk for a line: the buffered writes and the
/// command.
pub fn ask_disk_line(disk: &mut DiskState, cmd: &str) -> (res: Vec<u8>)
    ensures
        res@ == old(disk)@.buffer + encode_utf8(cmd@),
        final(disk)@ == (Disk { buffer: Seq::empty(), ..old(disk)@ }),
        final(disk).cache == old(disk).cache,
{
    let mut out = flush_disk_write_buffer(disk);
    append_bytes(&mut out, cmd.as_bytes());
    out
}

/// The line that the disk replied, without the white space round it.
pub fn disk_reply(line: &str) -> (res: String)
    ensures
        res@ == text::trimmed(line@),
{
    trim(line)
}

/// A part of a budget in megabytes, in bytes.
pub open spec fn budget_share(memory_limit_mb: u64, percent: int) -> int {
    memory_limit_mb * 1024 * 1024 * percent / 100
}

/// Sets the limits of the cache and of the buffer of writes from the memory limit.
pub fn set_global_budgets(disk: &mut DiskState, memory_limit_mb: u64)
    requires
        old(disk).wf(),
        memory_limit_mb * 1024 * 1024 * 18 <= usize::MAX,
    ensures
        final(disk).wf(),
        final(disk)@ == (Disk {
            cache_limit: budget_share(memory_limit_mb, 18) as nat,
            a1_in_limit: (budget_share(memory_limit_mb, 18) / 4) as nat,
            buffer_limit: budget_share(memory_limit_mb, 6) as nat,
            ..old(disk)@
        }),
        final(disk).cache == old(disk).cache,
{
    let total: usize = memory_limit_mb as usize * 1024 * 1024;
    let cache_limit: usize = total * 18 / 100;
    disk.cache_limit = cache_limit;
    disk.a1_in_limit = cache_limit / 4;
    disk.buffer_limit = total * 6 / 100;
}

/// Sets the first block that operators can take.
pub fn set_anon_block_base(disk: &mut DiskState, base: u64)
    ensures
        final(disk)@ == (Disk { base, next: base, ..old(disk)@ }),
        final(disk).cache == old(disk).cache,
{
    disk.base_anon_block = base;
    disk.next_anon_block = base;
}

/// The command that reads blocks.
pub open spec fn get_command(start: u64, num: usize) -> Seq<u8> {
    encode_utf8(
        "get block "@ + text::decimal(start as nat) + " "@ + text::decimal(num as nat) + "\n"@,
    )
}

/// The line of the command that writes blocks; the blocks follow it.
pub open spec fn put_command(start: u64, num: usize) -> Seq<u8> {
    encode_utf8(
        "put block "@ + text::decimal(start as nat) + " "@ + text::decimal(num as nat) + "\n"@,
    )
}

fn push_command(verb: &str, start: u64, num: usize, out: &mut Vec<u8>)
    ensures
        final(out)@ == old(out)@ + encode_utf8(
            verb@ + text::decimal(start as nat) + " "@ + text::decimal(num as nat) + "\n"@,
        ),
{
    let mut line = String::new();
    line.append(verb);
    push_decimal(start, &mut line);
    line.append(" ");
    push_decimal(num as u64, &mut line);
    line.append("\n");
    assert(line@ =~= verb@ + text::decimal(start as nat) + " "@ + text::decimal(num as nat)
        + "\n"@);
    append_bytes(out, line.as_str().as_bytes());
}

/// Reads blocks: from the cache, or by the bytes to send, before which the buffered
/// writes go. What the disk then replies is handed to [`read_blocks_done`].
pub fn read_blocks(
    disk: &mut DiskState,
    start_block_id: u64,
    num_blocks: usize,
    block_size: usize,
) -> (res: BlockRead)
    requires
        old(disk).wf(),
        old(disk).sized_for(block_size as nat),
    ensures
        final(disk).wf(),
        final(disk).sized_for(block_size as nat),
        match cache::used(old(disk)@.queues, start_block_id, num_blocks) {
            Some((e, c)) => {
                &&& res matches BlockRead::Cached(data)
                &&& data@ == cache::blocks_of(e, start_block_id, num_blocks, block_size as nat)
                &&& final(disk)@ == (Disk { queues: c, ..old(disk)@ })
            },
            None => {
                &&& res matches BlockRead::Fetch(bytes)
                &&& bytes@ == old(disk)@.buffer + get_command(start_block_id, num_blocks)
                &&& final(disk)@ == (Disk { buffer: Seq::empty(), ..old(disk)@ })
            },
        },
{
    match disk.cache.lookup(start_block_id, num_blocks, block_size) {
        Some(data) => BlockRead::Cached(data),
        None => {
            let mut out = flush_disk_write_buffer(disk);
            push_command("get block ", start_block_id, num_blocks, &mut out);
            BlockRead::Fetch(out)
        },
    }
}

/// The disk once blocks were cached.
pub open spec fn cached(d: Disk, start: u64, num: usize, data: Seq<u8>) -> Disk {
    Disk {
        queues: cache::inserted(
            d.queues,
            Entry { start, num, data },
            d.cache_limit,
            d.a1_in_limit,
        ),
        ..d
    }
}

/// Caches the blocks that the disk replied.
pub fn read_blocks_done(
    disk: &mut DiskState,
    start_block_id: u64,
    num_blocks: usize,
    data: &Vec<u8>,
)
    requires
        old(disk).wf(),
    ensures
        final(disk).wf(),
        final(disk)@ == cached(old(disk)@, start_block_id, num_blocks, data@),
        forall|block_size: nat|
            old(disk).sized_for(block_size) && data@.len() == num_blocks * block_size
                ==> #[trigger] final(disk).sized_for(block_size),
{
    let ghost e = Entry { start: start_block_id, num: num_blocks, data: data@ };
    let copy = data.clone();
    assert(copy@ =~= data@);
    proof {
        lemma_sized_inserted(disk.cache@, e, disk.cache_limit as nat, disk.a1_in_limit as nat);
    }
    disk.cache.insert(
        CacheEntry { start_block_id, num_blocks, data: copy },
        disk.cache_limit,
        disk.a1_in_limit,
    );
}

proof fn lemma_sized_inserted(c: Queues, e: Entry, limit: nat, a1_in_limit: nat)
    ensures
        forall|block_size: nat|
            cache::well_sized(c, block_size) && cache::sized(e, block_size)
                ==> #[trigger] cache::well_sized(
                cache::inserted(c, e, limit, a1_in_limit),
                block_size,
            ),
{
    assert forall|block_size: nat|
        cache::well_sized(c, block_size) && cache::sized(
            e,
            block_size,
        ) implies #[trigger] cache::well_sized(
        cache::inserted(c, e, limit, a1_in_limit),
        block_size,
    ) by {
        let p = |e: Entry| cache::sized(e, block_size);
        assert(cache::all_entries(c, p));
        cache::lemma_inserted_entries(c, e, limit, a1_in_limit, p);
        let d = cache::inserted(c, e, limit, a1_in_limit);
        assert forall|i: int| 0 <= i < d.am.len() implies cache::sized(
            #[trigger] d.am[i],
            block_size,
        ) by {
            assert(p(d.am[i]));
        }
        assert forall|i: int| 0 <= i < d.a1_in.len() implies cache::sized(
            #[trigger] d.a1_in[i],
            block_size,
        ) by {
            assert(p(d.a1_in[i]));
        }
    }
}

/// Reads blocks as [`read_blocks`] does; what the disk replies is not cached, so that
/// a long scan does not push other ranges out.
pub fn read_blocks_nocache(
    disk: &mut DiskState,
    start_block_id: u64,
    num_blocks: usize,
    block_size: usize,
) -> (res: BlockRead)
    requires
        old(disk).wf(),
        old(disk).sized_for(block_size as nat),
    ensures
        final(disk).wf(),
        final(disk).sized_for(block_size as nat),
        match cache::used(old(disk)@.queues, start_block_id, num_blocks) {
            Some((e, c)) => {
                &&& res matches BlockRead::Cached(data)
                &&& data@ == cache::blocks_of(e, start_block_id, num_blocks, block_size as nat)
                &&& final(disk)@ == (Disk { queues: c, ..old(disk)@ })
            },
            None => {
                &&& res matches BlockRead::Fetch(bytes)
                &&& bytes@ == old(disk)@.buffer + get_command(start_block_id, num_blocks)
                &&& final(disk)@ == (Disk { buffer: Seq::empty(), ..old(disk)@ })
            },
        },
{
    read_blocks(disk, start_block_id, num_blocks, block_size)
}

/// Gives the bytes that ask for the first free block, if it is not known yet.
pub fn init_anon_block_allocator(disk: &mut DiskState) -> (res: Option<Vec<u8>>)
    ensures
        final(disk).cache == old(disk).cache,
        if old(disk)@.next == 0 {
            &&& res matches Some(bytes)
            &&& bytes@ == old(disk)@.buffer + encode_utf8("get anon-start-block\n"@)
            &&& final(disk)@ == (Disk { buffer: Seq::empty(), ..old(disk)@ })
        } else {
            res is None && final(disk)@ == old(disk)@
        },
{
    if disk.next_anon_block == 0 {
        Some(ask_disk_line(disk, "get anon-start-block\n"))
    } else {
        None
    }
}

/// Sets the first free block from the line that the disk replied.
pub fn init_anon_block_allocator_done(disk: &mut DiskState, line: &str) -> (res: Result<
    (),
    DbError,
>)
    ensures
        final(disk).cache == old(disk).cache,
        match text::parsed(text::trimmed(line@)) {
            Some(base) => res is Ok && final(disk)@ == (Disk { base, next: base, ..old(disk)@ }),
            None => (res matches Err(e) && e@ == Fault::InvalidNumber) && final(disk)@ == old(disk)@,
        },
{
    let base = anon_start_block_reply(line)?;
    set_anon_block_base(disk, base);
    Ok(())
}

/// Gives the bytes that ask for the first free block.
pub fn get_anon_start_block(disk: &mut DiskState) -> (res: Vec<u8>)
    ensures
        res@ == old(disk)@.buffer + encode_utf8("get anon-start-block\n"@),
        final(disk)@ == (Disk { buffer: Seq::empty(), ..old(disk)@ }),
        final(disk).cache == old(disk).cache,
{
    ask_disk_line(disk, "get anon-start-block\n")
}

/// The first free block, from the line that the disk replied.
pub fn anon_start_block_reply(line: &str) -> (res: Result<u64, DbError>)
    ensures
        match text::parsed(text::trimmed(line@)) {
            Some(base) => res matches Ok(b) && b == base,
            None => res matches Err(e) && e@ == Fault::InvalidNumber,
        },
{
    match parse_u64(disk_reply(line).as_str()) {
        Some(base) => Ok(base),
        None => Err(DbError::InvalidNumber),
    }
}

/// The sum of two numbers within 64 bits.
pub open spec fn wrapped_sum(a: u64, b: u64) -> u64 {
    if a + b > u64::MAX {
        (a + b - 0x1_0000_0000_0000_0000) as u64
    } else {
        (a + b) as u64
    }
}

/// The disk once an operator took blocks.
pub open spec fn allocated(d: Disk, num: u64) -> Disk {
    Disk { next: wrapped_sum(d.next, num), ..d }
}

/// Takes blocks for an operator and gives the first of them.
pub fn allocate_anon_block_chunk(disk: &mut DiskState, num_blocks: u64) -> (res: u64)
    ensures
        res == old(disk)@.next,
        final(disk)@ == allocated(old(disk)@, num_blocks),
        final(disk).cache == old(disk).cache,
{
    let start: u64 = disk.next_anon_block;
    disk.next_anon_block = start.wrapping_add(num_blocks);
    start
}

/// The disk once all blocks that operators took were given back.
pub open spec fn rewound(d: Disk) -> Disk {
    if d.base > 0 {
        Disk { next: d.base, queues: cache::retained(d.queues, d.base), ..d }
    } else {
        d
    }
}

/// Gives all blocks that operators took back, and forgets what was cached of them.
pub fn rewind_anon_block_allocator(disk: &mut DiskState)
    requires
        old(disk).wf(),
    ensures
        final(disk).wf(),
        final(disk)@ == rewound(old(disk)@),
        forall|block_size: nat|
            old(disk).sized_for(block_size) ==> #[trigger] final(disk).sized_for(block_size),
{
    let base: u64 = disk.base_anon_block;
    if base > 0 {
        let ghost c = disk.cache@;
        disk.next_anon_block = base;
        disk.cache.retain_anon_blocks(base);
        proof {
            assert forall|block_size: nat|
                cache::well_sized(c, block_size) implies #[trigger] cache::well_sized(
                cache::retained(c, base),
                block_size,
            ) by {
                let p = |e: Entry| cache::sized(e, block_size);
                assert(cache::all_entries(c, p));
                cache::lemma_retained_entries(c, base, p);
                let d = cache::retained(c, base);
                assert forall|i: int| 0 <= i < d.am.len() implies cache::sized(
                    #[trigger] d.am[i],
                    block_size,
                ) by {
                    assert(p(d.am[i]));
                }
                assert forall|i: int| 0 <= i < d.a1_in.len() implies cache::sized(
                    #[trigger] d.a1_in[i],
                    block_size,
                ) by {
                    assert(p(d.a1_in[i]));
                }
            }
            assert forall|block_size: nat|
                old(disk).sized_for(block_size) implies #[trigger] disk.sized_for(block_size) by {
                assert(cache::well_sized(c, block_size));
                assert(cache::well_sized(cache::retained(c, base), block_size));
                assert(disk@.waiting == old(disk)@.waiting);
            }
        }
    }
}

/// The disk once blocks were written, and the bytes to send: the buffered writes
/// and the new one go as soon as they reach the limit. The blocks are cached, unless there
/// are bytes to send: then they wait until these have been sent.
pub open spec fn wrote(d: Disk, start: u64, num: usize, data: Seq<u8>) -> (Disk, Seq<u8>) {
    let buffered = d.buffer + put_command(start, num) + data;
    let is_due = buffered.len() >= d.buffer_limit;
    let e = Entry { start, num, data };
    let c = if is_due || d.waiting.len() > 0 {
        Disk { waiting: d.waiting.push(e), ..d }
    } else {
        Disk { queues: refreshed(d.queues, e, d.cache_limit, d.a1_in_limit), ..d }
    };
    if is_due {
        (Disk { buffer: Seq::empty(), ..c }, buffered)
    } else {
        (Disk { buffer: buffered, ..c }, Seq::empty())
    }
}

/// Caches written blocks in the place of a range of exactly these blocks.
fn refresh(disk: &mut DiskState, entry: CacheEntry)
    requires
        old(disk).wf(),
    ensures
        final(disk).wf(),
        final(disk)@ == (Disk {
            queues: refreshed(
                old(disk)@.queues,
                entry.deep_view(),
                old(disk)@.cache_limit,
                old(disk)@.a1_in_limit,
            ),
            ..old(disk)@
        }),
        forall|block_size: nat|
            old(disk).sized_for(block_size) && cache::sized(entry.deep_view(), block_size)
                ==> #[trigger] final(disk).sized_for(block_size),
{
    let ghost c = disk.cache@;
    let ghost e = entry.deep_view();
    let ghost mid = cache::without_exact(c, e.start, e.num);
    disk.cache.remove_exact(entry.start_block_id, entry.num_blocks);
    disk.cache.insert(entry, disk.cache_limit, disk.a1_in_limit);
    proof {
        lemma_sized_inserted(mid, e, disk.cache_limit as nat, disk.a1_in_limit as nat);
        assert forall|block_size: nat|
            old(disk).sized_for(block_size) && cache::sized(
                e,
                block_size,
            ) implies #[trigger] disk.sized_for(block_size) by {
            let p = |e: Entry| cache::sized(e, block_size);
            assert(cache::all_entries(c, p));
            cache::lemma_without_exact_entries(c, e.start, e.num, p);
            assert forall|i: int| 0 <= i < mid.am.len() implies cache::sized(
                #[trigger] mid.am[i],
                block_size,
            ) by {
                assert(p(mid.am[i]));
            }
            assert forall|i: int| 0 <= i < mid.a1_in.len() implies cache::sized(
                #[trigger] mid.a1_in[i],
                block_size,
            ) by {
                assert(p(mid.a1_in[i]));
            }
            assert(cache::well_sized(mid, block_size));
            assert(disk@.waiting == old(disk)@.waiting);
        }
    }
}

/// Writes blocks: the command goes into the buffer, and the blocks into the cache.
/// Gives the bytes to send, which are none while the buffer has room. Where there are some,
/// the blocks are cached by [`writes_sent`].
pub fn write_blocks(
    disk: &mut DiskState,
    start_block_id: u64,
    num_blocks: usize,
    data: &Vec<u8>,
) -> (res: Vec<u8>)
    requires
        old(disk).wf(),
    ensures
        final(disk).wf(),
        (final(disk)@, res@) == wrote(old(disk)@, start_block_id, num_blocks, data@),
        forall|block_size: nat|
            old(disk).sized_for(block_size) && data@.len() == num_blocks * block_size
                ==> #[trigger] final(disk).sized_for(block_size),
{
    let ghost before = disk.write_buffer@;
    push_command("put block ", start_block_id, num_blocks, &mut disk.write_buffer);
    append_bytes(&mut disk.write_buffer, data.as_slice());
    assert(disk.write_buffer@ == before + put_command(start_block_id, num_blocks) + data@);
    let copy = data.clone();
    assert(copy@ =~= data@);
    let entry = CacheEntry { start_block_id, num_blocks, data: copy };
    let ghost e = entry.deep_view();
    let is_due = disk.write_buffer.len() >= disk.buffer_limit;
    let ghost mid = *disk;
    if is_due || disk.waiting.len() > 0 {
        let ghost all = disk.waiting.deep_view();
        disk.waiting.push(entry);
        assert(disk.waiting.deep_view() =~= all.push(entry.deep_view()));
    } else {
        refresh(disk, entry);
    }
    let out = if is_due {
        flush_disk_write_buffer(disk)
    } else {
        Vec::new()
    };
    proof {
        assert forall|block_size: nat|
            old(disk).sized_for(block_size) && data@.len() == num_blocks
                * block_size implies #[trigger] disk.sized_for(block_size) by {
            assert(cache::sized(e, block_size));
            assert(mid@.waiting == old(disk)@.waiting);
            assert(mid.sized_for(block_size));
            if is_due || mid@.waiting.len() > 0 {
                let (all, more) = (mid@.waiting, disk@.waiting);
                assert(more =~= all.push(e));
                assert forall|i: int| 0 <= i < more.len() implies cache::sized(
                    #[trigger] more[i],
                    block_size,
                ) by {
                    if i < all.len() {
                        assert(more[i] == all[i]);
                    }
                }
            }
        }
    }
    out
}

// ---- what the protocol promises ----

/// No write is lost: what is sent and what stays in the buffer are together what
/// was in the buffer and the new write.
pub proof fn no_write_is_lost(d: Disk, start: u64, num: usize, data: Seq<u8>)
    ensures
        wrote(d, start, num, data).1 + wrote(d, start, num, data).0.buffer == d.buffer + put_command(
            start,
            num,
        ) + data,
{
    let all = d.buffer + put_command(start, num) + data;
    assert(all + Seq::<u8>::empty() =~= all);
    assert(Seq::<u8>::empty() + all =~= all);
}

/// A failed send loses no write, and leaves the cache alone: once the bytes are taken back, the
/// buffered writes are those from before, and after a write the new one too. Nothing else of
/// the disk changes.
pub proof fn a_failed_send_keeps_the_writes(d: Disk, start: u64, num: usize, data: Seq<u8>)
    requires
        d.waiting.len() == 0,
    ensures
        with_unsent(Disk { buffer: Seq::empty(), ..d }, d.buffer) == d,
        wrote(d, start, num, data).1.len() > 0 ==> with_unsent(
            wrote(d, start, num, data).0,
            wrote(d, start, num, data).1,
        ) == (Disk { buffer: d.buffer + put_command(start, num) + data, ..d }),
{
    assert(d.waiting =~= Seq::empty());
    assert(d.buffer + Seq::<u8>::empty() =~= d.buffer);
    no_write_is_lost(d, start, num, data);
}

/// Blocks that were written are cached once the writes were sent, behind those that were
/// written before.
pub proof fn sent_writes_are_cached(d: Disk, start: u64, num: usize, data: Seq<u8>)
    ensures
        settled(wrote(d, start, num, data).0) == (Disk {
            buffer: wrote(d, start, num, data).0.buffer,
            queues: refreshed(
                settled(d).queues,
                Entry { start, num, data },
                d.cache_limit,
                d.a1_in_limit,
            ),
            ..settled(d)
        }),
{
    let e = Entry { start, num, data };
    assert(d.waiting.push(e).drop_last() =~= d.waiting);
}

/// Blocks that were written are read back from the cache as they were written, if
/// it holds them once the writes were sent, provided that it held what the disk held, and that no cached range
/// shared blocks with them but one that they replace.
pub proof fn written_blocks_are_read_back(
    d: Disk,
    contents: Map<int, Seq<u8>>,
    start: u64,
    num: usize,
    data: Seq<u8>,
    block_size: nat,
)
    requires
        cache::coherent(settled(d).queues, contents),
        cache::uniform(contents, block_size),
        cache::replaces(settled(d).queues, start, num),
        data.len() == num * block_size,
    ensures
        ({
            let after = settled(wrote(d, start, num, data).0);
            &&& cache::coherent(
                after.queues,
                cache::written(contents, start as int, num as nat, data, block_size),
            )
            &&& cache::used(after.queues, start, num) matches Some((e, _)) ==> cache::blocks_of(
                e,
                start,
                num,
                block_size,
            ) == data
        }),
{
    let e = Entry { start, num, data };
    let after = settled(wrote(d, start, num, data).0);
    sent_writes_are_cached(d, start, num, data);
    let now = cache::written(contents, start as int, num as nat, data, block_size);
    cache::caching_a_write_keeps_coherence(
        settled(d).queues,
        contents,
        e,
        block_size,
        d.cache_limit,
        d.a1_in_limit,
    );
    cache::lemma_written_uniform(contents, start as int, num as nat, data, block_size);
    cache::cache_gives_disk_contents(after.queues, now, start, num, block_size);
    cache::lemma_written_whole(contents, start as int, num as nat, data, block_size);
}

/// The blocks that two operators take have nothing in common, as long as block
/// numbers last.
pub proof fn taken_blocks_are_disjoint(d: Disk, num: u64)
    requires
        d.next + num <= u64::MAX,
    ensures
        allocated(d, num).next == d.next + num,
{
}

} // verus!
