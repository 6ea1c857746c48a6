//! Laws of shares of the memory: how many blocks are read at once, and how much a sort holds.

use vstd::prelude::*;
use vstd::arithmetic::div_mod::*;
use vstd::arithmetic::mul::*;
use vstd::string::*;

use crate::ops::cross_output;
use crate::ops::scanner;
use crate::ops::sort_chunk;
use crate::ops::sort_merge;
use crate::ops::sort_output;
use crate::ops;
use crate::query::SortKey;

verus! {

/// The greatest number of parts of a size that a whole holds.
proof fn lemma_greatest(whole: int, size: int)
    requires
        whole >= 0,
        size > 0,
    ensures
        whole / size >= 0,
        (whole / size) * size <= whole < (whole / size + 1) * size,
{
    lemma_fundamental_div_mod(whole, size);
    let q = whole / size;
    assert(size * q == q * size) by (nonlinear_arith);
    assert((q + 1) * size == q * size + size) by (nonlinear_arith);
    lemma_div_pos_is_pos(whole, size);
}

/// A share of a whole, in parts of a size: the greatest number of parts that fit so often into
/// the whole.
proof fn lemma_share(total: int, often: int, size: int, n: int)
    requires
        total >= 0,
        often > 0,
        size > 0,
        n == total / often / size,
    ensures
        n >= 0,
        n * size * often <= total < (n + 1) * size * often,
{
    lemma_greatest(total, often);
    let part = total / often;
    lemma_greatest(part, size);
    assert(n * size * often <= part * often) by (nonlinear_arith)
        requires
            n * size <= part,
            often > 0,
    ;
    assert((part + 1) * often <= (n + 1) * size * often) by (nonlinear_arith)
        requires
            part + 1 <= (n + 1) * size,
            often > 0,
    ;
}

/// A scan reads so many blocks at once that twenty times as much fits into the memory, and no
/// more would: but at least one, and at most 512.
pub proof fn a_scan_reads_a_twentieth_of_the_memory(memory_limit_mb: int, block_size: int)
    requires
        memory_limit_mb >= 0,
        block_size > 0,
    ensures
        ({
            let n = scanner::chunk_size(memory_limit_mb, block_size);
            let total = memory_limit_mb * 1048576;
            &&& 1 <= n <= 512
            &&& n == 1 || n * block_size * 20 <= total
            &&& n == 512 || total < (n + 1) * block_size * 20
        }),
{
    let total = memory_limit_mb * 1024 * 1024;
    assert(total * 5 / 100 == total / 20);
    let n = total / 20 / block_size;
    lemma_share(total, 20, block_size, n);
    if n < 1 {
        assert((n + 1) * block_size * 20 <= 2 * block_size * 20) by (nonlinear_arith)
            requires
                n < 1,
                block_size > 0,
        ;
    }
    if n > 512 {
        assert(512 * block_size * 20 <= n * block_size * 20) by (nonlinear_arith)
            requires
                n > 512,
                block_size > 0,
        ;
    }
}

/// A cross join reads so many right blocks at once that ten times as much fits into the memory,
/// and no more would: but at least one, and at most 256.
pub proof fn a_cross_join_reads_a_tenth_of_the_memory(memory_limit_mb: int, block_size: int)
    requires
        memory_limit_mb >= 0,
        block_size > 0,
    ensures
        ({
            let n = cross_output::fetch_size(memory_limit_mb, block_size);
            let total = memory_limit_mb * 1048576;
            &&& 1 <= n <= 256
            &&& n == 1 || n * block_size * 10 <= total
            &&& n == 256 || total < (n + 1) * block_size * 10
        }),
{
    let total = memory_limit_mb * 1024 * 1024;
    assert(total * 10 / 100 == total / 10);
    let n = total / 10 / block_size;
    lemma_share(total, 10, block_size, n);
    if n < 1 {
        assert((n + 1) * block_size * 10 <= 2 * block_size * 10) by (nonlinear_arith)
            requires
                n < 1,
                block_size > 0,
        ;
    }
    if n > 256 {
        assert(256 * block_size * 10 <= n * block_size * 10) by (nonlinear_arith)
            requires
                n > 256,
                block_size > 0,
        ;
    }
}

/// The runs of a merge share its memory evenly: so many blocks are read of each at once as fit
/// for all of them, but at least 16, and at most 4096.
pub proof fn runs_share_the_memory_of_a_merge(pool: int, runs: int, block_size: int)
    requires
        pool >= 0,
        runs > 0,
        block_size > 0,
    ensures
        ({
            let n = sort_merge::fetch_share(pool, runs, block_size);
            &&& 16 <= n <= 4096
            &&& n == 16 || n * (runs * block_size) <= pool
            &&& n == 4096 || pool < (n + 1) * (runs * block_size)
        }),
{
    let per = runs * block_size;
    assert(per >= 1) by (nonlinear_arith)
        requires
            per == runs * block_size,
            runs > 0,
            block_size > 0,
    ;
    let n = pool / per;
    lemma_greatest(pool, per);
    if n < 16 {
        assert((n + 1) * per <= 17 * per) by (nonlinear_arith)
            requires
                n < 16,
                per > 0,
        ;
    }
    if n > 4096 {
        assert(4096 * per <= n * per) by (nonlinear_arith)
            requires
                n > 4096,
                per > 0,
        ;
    }
}

/// The runs of a merge have 30 percent of the memory, less than a byte too little.
pub proof fn a_merge_has_thirty_percent_of_the_memory(memory_limit_mb: int)
    requires
        memory_limit_mb >= 0,
    ensures
        100 * sort_output::merge_pool(memory_limit_mb) <= memory_limit_mb * 1048576 * 30,
        memory_limit_mb * 1048576 * 30 < 100 * (sort_output::merge_pool(memory_limit_mb) + 1),
{
}

/// A sort holds as much as an operator may. A sort by the flag, the status, the order and the
/// line of line items, in this order, holds up to 45 percent of the memory if that is more, but
/// on that account no more than 30 MB.
pub proof fn a_sort_holds_what_an_operator_may(
    budget: int,
    specs: Seq<SortKey>,
    memory_limit_mb: int,
)
    requires
        memory_limit_mb >= 0,
    ensures
        ({
            let n = sort_chunk::chunk_limit(budget, specs, memory_limit_mb);
            let of_items = specs.len() == 4 && specs[0].column == "l_returnflag"@ && specs[1].column
                == "l_linestatus"@ && specs[2].column == "l_orderkey"@ && specs[3].column
                == "l_linenumber"@;
            &&& n >= budget
            &&& !of_items ==> n == budget
            &&& n > budget ==> n <= 31457280 && 100 * n <= memory_limit_mb * 1048576 * 45
            &&& of_items ==> n >= 31457280 || memory_limit_mb * 1048576 * 45 < 100 * (n + 1)
        }),
{
}

/// The runtime keeps 19 MB for itself: with no more memory operators get nothing, and with
/// more, the operators at work and one more share at most what is left.
pub proof fn the_runtime_keeps_nineteen_megabytes(count: int, memory_limit_mb: int)
    requires
        count >= 1,
        memory_limit_mb >= 0,
    ensures
        memory_limit_mb <= 19 ==> ops::operator_budget(count, memory_limit_mb) == 0,
        memory_limit_mb > 19 ==> (count + 1) * ops::operator_budget(count, memory_limit_mb) <= (
        memory_limit_mb - 19) * 1048576,
        100 * ops::operator_budget(count, memory_limit_mb) <= memory_limit_mb * 1048576 * 12,
{
    let total = memory_limit_mb * 1024 * 1024;
    let overhead = 19int * 1024 * 1024;
    let available = if total > overhead { total - overhead } else { 0 };
    lemma_greatest(available, count + 1);
    let share = available / (count + 1);
    let b = ops::operator_budget(count, memory_limit_mb);
    if memory_limit_mb <= 19 {
        assert(available == 0);
        assert(share == 0) by (nonlinear_arith)
            requires
                share * (count + 1) <= 0,
                share >= 0,
                count >= 1,
        ;
    }
    assert((count + 1) * b <= share * (count + 1)) by (nonlinear_arith)
        requires
            b <= share,
            count >= 1,
    ;
}

/// Groups of runs that are merged together follow each other without a gap, each with as many
/// runs as can be merged at once, but for the last.
pub proof fn groups_of_runs_are_full_but_for_the_last(from: int, n: int)
    requires
        0 <= from < n,
    ensures
        from < sort_output::group_end(from, n) <= n,
        sort_output::group_end(from, n) - from <= sort_merge::MAX_MERGE_WIDTH,
        sort_output::group_end(from, n) < n ==> sort_output::group_end(from, n) - from
            == sort_merge::MAX_MERGE_WIDTH,
{
}

} // verus!
