//! The operators of a query plan and the memory they share.

use vstd::prelude::*;

use crate::error::{DbError, Fault};
use crate::value::{Data, Val};

pub mod cross;
pub mod cross_laws;
pub mod cross_output;
pub mod execution_laws;
pub mod fault_laws;
pub mod filter;
pub mod hash;
pub mod hash_join;
pub mod join_input_laws;
pub mod join_laws;
pub mod join_output;
pub mod join_output_laws;
pub mod joiner;
pub mod memory_laws;
pub mod merge;
pub mod merge_laws;
pub mod pair_laws;
pub mod plan_laws;
pub mod project;
pub mod rows;
pub mod run_laws;
pub mod scan;
pub mod scan_choice_laws;
pub mod scan_laws;
pub mod scanner;
pub mod share_laws;
pub mod sort;
pub mod sort_chunk;
pub mod sort_input_laws;
pub mod sort_key_laws;
pub mod sort_laws;
pub mod sort_merge;
pub mod sort_output;
pub mod sort_output_laws;
pub mod spill_laws;

verus! {

/// The number of operators that hold much memory at the same time.
pub struct HeavyOps {
    pub count: usize,
}

/// Sets the number of operators that hold much memory: at least one.
pub fn set_heavy_op_count(ops: &mut HeavyOps, count: usize)
    ensures
        final(ops).count == if count == 0 {
            1
        } else {
            count
        },
{
    ops.count = if count == 0 {
        1
    } else {
        count
    };
}

/// The memory of one operator: an even share of what the runtime leaves, with one
/// share kept free, and no more than 12 percent of all.
pub open spec fn operator_budget(count: int, memory_limit_mb: int) -> int {
    let total = memory_limit_mb * 1024 * 1024;
    let overhead = 19 * 1024 * 1024;
    let available = if total > overhead {
        total - overhead
    } else {
        0
    };
    let share = available / (if count == 0 {
        2
    } else {
        count + 1
    });
    let most = total * 12 / 100;
    if share < most {
        share
    } else {
        most
    }
}

/// Computes the memory of one operator in bytes.
pub fn operator_budget_bytes(ops: &HeavyOps, memory_limit_mb: u64) -> (res: usize)
    requires
        ops.count < usize::MAX,
        memory_limit_mb * 1024 * 1024 * 12 <= usize::MAX,
    ensures
        res == operator_budget(ops.count as int, memory_limit_mb as int),
{
    let count: usize = if ops.count == 0 {
        1
    } else {
        ops.count
    };
    let total: usize = memory_limit_mb as usize * 1024 * 1024;
    let overhead: usize = 19 * 1024 * 1024;
    let available: usize = total.saturating_sub(overhead);
    let share: usize = available / (count + 1);
    let most: usize = total * 12 / 100;
    if share < most {
        share
    } else {
        most
    }
}

/// What the runtime takes of the memory.
pub open spec fn runtime_bytes() -> int {
    19int * 1024 * 1024
}

/// Where the runtime leaves nothing, an operator gets nothing. Elsewhere the budgets of all
/// operators that are at work, and one more, fit into what it leaves, each is no more than 12
/// percent of all, and no larger budget has both.
pub proof fn the_budgets_fit_into_the_memory(count: int, memory_limit_mb: int)
    requires
        count >= 0,
        memory_limit_mb >= 0,
    ensures
        ({
            let total = memory_limit_mb * 1024 * 1024;
            let b = operator_budget(count, memory_limit_mb);
            let k = if count == 0 {
                1
            } else {
                count
            };
            &&& b >= 0
            &&& total <= runtime_bytes() ==> b == 0
            &&& total > runtime_bytes() ==> {
                &&& (k + 1) * b + runtime_bytes() <= total
                &&& 100 * b <= 12 * total
                &&& (k + 1) * (b + 1) + runtime_bytes() > total || 100 * (b + 1) > 12 * total
            }
        }),
{
    let total = memory_limit_mb * 1024 * 1024;
    let available = if total > runtime_bytes() {
        total - runtime_bytes()
    } else {
        0
    };
    let k = if count == 0 {
        1
    } else {
        count
    };
    let (n, b) = (k + 1, operator_budget(count, memory_limit_mb));
    let share = available / n;
    assert(0 <= share && n * share <= available && available < n * (share + 1))
        by (nonlinear_arith)
        requires
            n >= 1,
            available >= 0,
            share == available / n,
    ;
    assert(n * b <= n * share) by (nonlinear_arith)
        requires
            n >= 1,
            b <= share,
    ;
    if available == 0 {
        assert(share == 0) by (nonlinear_arith)
            requires
                n >= 1,
                n * share <= 0,
                share >= 0,
        ;
    }
}

/// No operators at work count as one. More of them get no larger budgets, and more memory no
/// smaller ones.
pub proof fn budgets_follow_the_count_and_the_memory(
    count: int,
    more: int,
    memory_limit_mb: int,
    larger: int,
)
    requires
        1 <= count <= more,
        0 <= memory_limit_mb <= larger,
    ensures
        operator_budget(0, memory_limit_mb) == operator_budget(1, memory_limit_mb),
        operator_budget(more, memory_limit_mb) <= operator_budget(count, memory_limit_mb),
        operator_budget(count, memory_limit_mb) <= operator_budget(count, larger),
{
    let overhead = runtime_bytes();
    let (total, most) = (memory_limit_mb * 1024 * 1024, larger * 1024 * 1024);
    let a = if total > overhead {
        total - overhead
    } else {
        0
    };
    let b = if most > overhead {
        most - overhead
    } else {
        0
    };
    let (n, m) = (count + 1, more + 1);
    assert(a / m <= a / n) by (nonlinear_arith)
        requires
            1 <= n <= m,
            a >= 0,
    ;
    assert(a / n <= b / n) by (nonlinear_arith)
        requires
            1 <= n,
            0 <= a <= b,
    ;
}

// ---- the steps of operators ----

/// What an operator does next.
pub enum Action {
    /// It gives a row.
    Row(Vec<Data>),
    /// It needs these blocks: the first of them, and their number.
    Fetch(u64, usize),
    /// It has to be asked again.
    Again,
    /// It has given all its rows.
    Done,
}

/// The mathematical value of an [`Action`].
pub enum Act {
    Row(Seq<Val>),
    Fetch(u64, usize),
    Again,
    Done,
}

impl View for Action {
    type V = Act;

    open spec fn view(&self) -> Act {
        match *self {
            Action::Row(r) => Act::Row(r.deep_view()),
            Action::Fetch(b, n) => Act::Fetch(b, n),
            Action::Again => Act::Again,
            Action::Done => Act::Done,
        }
    }
}

/// The mathematical value of a step.
pub open spec fn act_view(res: Result<Action, DbError>) -> Result<Act, Fault> {
    match res {
        Ok(a) => Ok(a@),
        Err(e) => Err(e@),
    }
}

/// What went wrong, if anything did.
pub open spec fn fault_of(res: Result<(), DbError>) -> Option<Fault> {
    match res {
        Ok(_) => None,
        Err(e) => Some(e@),
    }
}

} // verus!
