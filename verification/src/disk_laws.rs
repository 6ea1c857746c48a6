//! Laws of the talk with the disk: what its commands ask for, when writes are sent, and how
//! blocks are taken and given back.

use vstd::prelude::*;
use vstd::string::*;
use vstd::utf8::*;

use crate::cache::Entry;
use crate::cache;
use crate::cache_laws;
use crate::disk::Disk;
use crate::disk;
use crate::ops::scan;
use crate::text;

verus! {

/// A command on blocks is a line of its verb, the first block and the number of blocks, with
/// a space between. Both numbers are read back from it.
pub proof fn a_command_names_its_blocks(start: u64, num: usize) -> (res: (Seq<char>, Seq<char>))
    ensures
        disk::get_command(start, num) == encode_utf8(
            "get block "@ + res.0 + seq![' '] + res.1 + seq!['\n'],
        ),
        disk::put_command(start, num) == encode_utf8(
            "put block "@ + res.0 + seq![' '] + res.1 + seq!['\n'],
        ),
        text::parsed(res.0) == Some(start),
        text::parsed(res.1) == Some(num as u64),
        res.0[0] == '0' ==> start == 0 && res.0.len() == 1,
        res.1[0] == '0' ==> num == 0 && res.1.len() == 1,
{
    reveal_strlit(" ");
    reveal_strlit("\n");
    assert(" "@ =~= seq![' ']);
    assert("\n"@ =~= seq!['\n']);
    text::decimal_is_parsed(start);
    text::decimal_is_parsed(num as u64);
    text::a_decimal_has_no_leading_zero(start as nat);
    text::a_decimal_has_no_leading_zero(num as nat);
    (text::decimal(start as nat), text::decimal(num as nat))
}

/// Reading and writing blocks are asked for by different commands, and each other range of
/// blocks by another one.
pub proof fn commands_tell_their_blocks_apart(start: u64, num: usize, other: u64, other_num: usize)
    ensures
        disk::get_command(start, num) != disk::put_command(other, other_num),
        disk::get_command(start, num) == disk::get_command(other, other_num) ==> start == other && num
            == other_num,
        disk::put_command(start, num) == disk::put_command(other, other_num) ==> start == other && num
            == other_num,
{
    reveal_strlit("get block ");
    reveal_strlit("put block ");
    let (a, b) = a_command_names_its_blocks(start, num);
    let (c, d) = a_command_names_its_blocks(other, other_num);
    let g = "get block "@ + a + seq![' '] + b + seq!['\n'];
    let h = "get block "@ + c + seq![' '] + d + seq!['\n'];
    let p = "put block "@ + a + seq![' '] + b + seq!['\n'];
    let q = "put block "@ + c + seq![' '] + d + seq!['\n'];
    encode_utf8_decode_utf8(g);
    encode_utf8_decode_utf8(h);
    encode_utf8_decode_utf8(p);
    encode_utf8_decode_utf8(q);
    assert(g[0] == 'g');
    assert(q[0] == 'p');
    if g == h {
        assert(g.skip(10) =~= a + seq![' '] + b + seq!['\n']);
        assert(h.skip(10) =~= c + seq![' '] + d + seq!['\n']);
        lemma_two_numbers(a, b, c, d);
    }
    if p == q {
        assert(p.skip(10) =~= a + seq![' '] + b + seq!['\n']);
        assert(q.skip(10) =~= c + seq![' '] + d + seq!['\n']);
        lemma_two_numbers(a, b, c, d);
    }
}

proof fn lemma_no_space(s: Seq<char>)
    requires
        text::parsed(s) is Some,
    ensures
        forall|i: int| 0 <= i < s.len() ==> #[trigger] s[i] != ' ',
{
    let digits = text::without_plus(s);
    lemma_digits(digits);
    assert forall|i: int| 0 <= i < s.len() implies #[trigger] s[i] != ' ' by {
        if s[0] == '+' {
            if i > 0 {
                assert(s[i] == digits[i - 1]);
            }
        } else {
            assert(s[i] == digits[i]);
        }
    }
}

proof fn lemma_digits(s: Seq<char>)
    requires
        text::digits_value(s) is Some,
    ensures
        forall|i: int| 0 <= i < s.len() ==> text::is_digit(#[trigger] s[i]),
    decreases s.len(),
{
    if s.len() > 0 {
        lemma_digits(s.drop_last());
        assert forall|i: int| 0 <= i < s.len() implies text::is_digit(#[trigger] s[i]) by {
            if i < s.len() - 1 {
                assert(s[i] == s.drop_last()[i]);
            }
        }
    }
}

proof fn lemma_two_numbers(a: Seq<char>, b: Seq<char>, c: Seq<char>, d: Seq<char>)
    requires
        text::parsed(a) is Some,
        text::parsed(c) is Some,
        a + seq![' '] + b + seq!['\n'] == c + seq![' '] + d + seq!['\n'],
    ensures
        a == c,
        b == d,
{
    let (x, y) = (a + seq![' '] + b + seq!['\n'], c + seq![' '] + d + seq!['\n']);
    lemma_no_space(a);
    lemma_no_space(c);
    assert(x[a.len() as int] == ' ');
    assert(y[c.len() as int] == ' ');
    if a.len() < c.len() {
        assert(y[a.len() as int] == c[a.len() as int]);
    }
    if c.len() < a.len() {
        assert(x[c.len() as int] == a[c.len() as int]);
    }
    assert forall|i: int| 0 <= i < a.len() implies a[i] == c[i] by {
        assert(x[i] == a[i] && y[i] == c[i]);
    }
    assert(a =~= c);
    assert(x.len() == a.len() + b.len() + 2);
    assert(y.len() == c.len() + d.len() + 2);
    assert forall|i: int| 0 <= i < b.len() implies b[i] == d[i] by {
        assert(x[a.len() + 1 + i] == b[i] && y[a.len() + 1 + i] == d[i]);
    }
    assert(b =~= d);
}

/// The place of a table is asked for by two lines that end in its id: the first block, then
/// the number of blocks.
pub proof fn a_table_is_asked_for_by_its_id(id: Seq<char>)
    ensures
        scan::file_command(id) == encode_utf8("get file start-block "@ + id + seq!['\n'])
            + encode_utf8("get file num-blocks "@ + id + seq!['\n']),
{
    reveal_strlit("\n");
    assert("\n"@ =~= seq!['\n']);
}

/// What was last noted of a table is found, and notes on others do not count.
pub proof fn the_last_note_of_a_table_is_found(
    entries: Seq<(Seq<char>, (u64, u64))>,
    id: Seq<char>,
    other: Seq<char>,
    place: (u64, u64),
)
    ensures
        scan::meta_of(Seq::empty(), id) is None,
        scan::meta_of(entries.push((id, place)), id) == Some(place),
        other != id ==> scan::meta_of(entries.push((other, place)), id) == scan::meta_of(entries, id),
{
    assert(entries.push((id, place)).drop_last() =~= entries);
    assert(entries.push((other, place)).drop_last() =~= entries);
}

/// Writes are kept back until they reach the limit, and then all of them are sent: what is
/// kept back is always less than the limit.
pub proof fn writes_are_sent_at_the_limit(d: Disk, start: u64, num: usize, data: Seq<u8>)
    ensures
        ({
            let (after, sent) = disk::wrote(d, start, num, data);
            let all = d.buffer.len() + disk::put_command(start, num).len() + data.len();
            &&& all >= d.buffer_limit ==> sent.len() == all && after.buffer.len() == 0
            &&& all < d.buffer_limit ==> sent.len() == 0 && after.buffer.len() == all
            &&& d.buffer_limit > 0 ==> after.buffer.len() < d.buffer_limit
            &&& after.next == d.next && after.base == d.base && after.buffer_limit == d.buffer_limit
                && after.cache_limit == d.cache_limit && after.a1_in_limit == d.a1_in_limit
        }),
{
}

/// Where there is room in the cache, blocks that were read or written are found in it with
/// their bytes.
pub proof fn blocks_are_cached_where_there_is_room(d: Disk, start: u64, num: usize, data: Seq<u8>)
    requires
        d.queues.size() + data.len() <= d.cache_limit,
    ensures
        ({
            let e = Entry { start, num, data };
            let q = disk::cached(d, start, num, data).queues;
            &&& q.am.contains(e) || q.a1_in.contains(e)
            &&& cache::used(q, start, num) is Some
        }),
{
    let e = Entry { start, num, data };
    let q = disk::cached(d, start, num, data).queues;
    cache_laws::a_new_range_stands_in_front(d.queues, e, d.cache_limit, d.a1_in_limit);
    cache_laws::blocks_are_found_where_a_range_covers_them(q, start, num);
    assert(q.am =~= seq![e] + d.queues.am || q.a1_in =~= seq![e] + d.queues.a1_in);
    if q.am == seq![e] + d.queues.am {
        assert(q.am[0] == e);
    } else {
        assert(q.a1_in[0] == e);
    }
    assert(cache::covers(e, start, num));
}

/// Blocks are taken in turn: the next ones begin where the last ones end, within 64 bits.
pub proof fn blocks_are_taken_in_turn(d: Disk, num: u64, more: u64)
    ensures
        (disk::allocated(d, num).next - (d.next + num)) % 0x1_0000_0000_0000_0000 == 0,
        disk::allocated(d, 0) == d,
        d.next + num + more <= u64::MAX ==> disk::allocated(disk::allocated(d, num), more).next
            == d.next + num + more,
{
}

/// Once all blocks that operators took were given back, the first of them is the next to be
/// taken, and none of them is cached any more; other ranges stay. Where no first block is
/// known, nothing changes.
pub proof fn blocks_are_given_back(d: Disk, e: Entry)
    ensures
        d.base > 0 ==> {
            let r = disk::rewound(d);
            &&& r.next == d.base
            &&& r.base == d.base
            &&& r.buffer == d.buffer
            &&& r.queues.am.contains(e) <==> d.queues.am.contains(e) && e.start < d.base
            &&& r.queues.a1_in.contains(e) <==> d.queues.a1_in.contains(e) && e.start < d.base
        },
        d.base == 0 ==> disk::rewound(d) == d,
{
    cache_laws::ranges_before_a_block_are_retained(d.queues, d.base, e, (0, 0));
}

/// A share of the memory is so many percent of it, less than a byte too little.
pub proof fn a_share_is_its_percentage(memory_limit_mb: u64, percent: int)
    requires
        percent >= 0,
    ensures
        100 * disk::budget_share(memory_limit_mb, percent) <= memory_limit_mb * 1048576 * percent,
        memory_limit_mb * 1048576 * percent < 100 * (disk::budget_share(memory_limit_mb, percent) + 1),
{
    let all = memory_limit_mb * 1024 * 1024 * percent;
    assert(all == memory_limit_mb * 1048576 * percent) by (nonlinear_arith)
        requires
            all == memory_limit_mb * 1024 * 1024 * percent,
    ;
}

} // verus!
