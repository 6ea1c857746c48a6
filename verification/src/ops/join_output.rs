//! The last phase of a hash join: the buckets that went to blocks are matched. Each step
//! says what to do next.

use vstd::prelude::*;

use crate::block;
use crate::error::{DbError, Fault};
use crate::ops::hash_join::{BucketRun, NUM_BUCKETS};
use crate::ops::joiner::{
    copy_runs, BuildPass, Cursor, HashJoiner, Join, ProbePlan, RunCursor, LOAD_BLOCKS, PROBE_BLOCKS,
};
use crate::ops::joiner;
use crate::ops::{Act, Action};
use crate::ops;
use crate::row;
use crate::schema::{copy_columns, Column, ColumnInfo};
use crate::value::{Data, Val};

verus! {

/// The matching of one bucket: as many rows of one side as memory takes are held by key, and
/// all rows of the other side are matched with them; and so on, until all rows of the first
/// side have been held.
pub struct ProbePass {
    pub build: BuildPass,
    pub probe: Vec<BucketRun>,
    pub cursor: RunCursor,
    /// Rows are matched, not held.
    pub probing: bool,
    pub left_is_build: bool,
}

/// The last phase of a hash join.
pub struct JoinOutput {
    pub joiner: HashJoiner,
    pub left_schema: Vec<ColumnInfo>,
    pub right_schema: Vec<ColumnInfo>,
    /// The next bucket.
    pub bucket: usize,
    pub pass: Option<ProbePass>,
}

/// The mathematical value of a [`BuildPass`].
pub struct Loading {
    pub columns: Seq<Column>,
    pub block_size: nat,
    pub budget: nat,
    pub cursor: Cursor,
    pub key: int,
    pub rows: Seq<Seq<Val>>,
    pub loaded: usize,
    pub full: bool,
}

/// The mathematical value of a [`ProbePass`].
pub struct Probing {
    pub load: Loading,
    pub probe: Seq<BucketRun>,
    pub cursor: Cursor,
    pub probing: bool,
    pub left_is_build: bool,
}

/// The mathematical value of a [`JoinOutput`].
pub struct Matching {
    pub join: Join,
    pub left_columns: Seq<Column>,
    pub right_columns: Seq<Column>,
    pub bucket: int,
    pub pass: Option<Probing>,
}

impl View for BuildPass {
    type V = Loading;

    open spec fn view(&self) -> Loading {
        Loading {
            columns: self.schema.deep_view(),
            block_size: self.block_size as nat,
            budget: self.budget as nat,
            cursor: self.cursor@,
            key: self.table.key as int,
            rows: self.table.rows.deep_view(),
            loaded: self.loaded,
            full: self.full,
        }
    }
}

impl View for ProbePass {
    type V = Probing;

    open spec fn view(&self) -> Probing {
        Probing {
            load: self.build@,
            probe: self.probe@,
            cursor: self.cursor@,
            probing: self.probing,
            left_is_build: self.left_is_build,
        }
    }
}

impl View for JoinOutput {
    type V = Matching;

    open spec fn view(&self) -> Matching {
        Matching {
            join: self.joiner@,
            left_columns: self.left_schema.deep_view(),
            right_columns: self.right_schema.deep_view(),
            bucket: self.bucket as int,
            pass: match self.pass {
                Some(p) => Some(p@),
                None => None,
            },
        }
    }
}

/// The first block of runs.
pub open spec fn first_block(runs: Seq<BucketRun>, most: int) -> Cursor {
    Cursor { runs, run: 0, block: 0, most }
}

/// The columns of the side that is held, or of the other one.
pub open spec fn side_columns(m: Matching, left: bool) -> Seq<Column> {
    if left {
        m.left_columns
    } else {
        m.right_columns
    }
}

/// The key of the left or of the right side.
pub open spec fn side_key(m: Matching, left: bool) -> int {
    if left {
        m.join.left_key
    } else {
        m.join.right_key
    }
}

/// The matching of a bucket begins.
pub open spec fn pass_begun(
    m: Matching,
    build: Seq<BucketRun>,
    probe: Seq<BucketRun>,
    left_is_build: bool,
) -> Probing {
    Probing {
        load: Loading {
            columns: side_columns(m, left_is_build),
            block_size: m.join.block_size,
            budget: m.join.budget,
            cursor: first_block(build, LOAD_BLOCKS as int),
            key: side_key(m, left_is_build),
            rows: Seq::empty(),
            loaded: 0,
            full: false,
        },
        probe,
        cursor: first_block(probe, PROBE_BLOCKS as int),
        probing: false,
        left_is_build,
    }
}

/// The next pass over the side that is matched: none of the rows that were held is held any
/// more.
pub open spec fn next_pass(load: Loading) -> Loading {
    Loading { rows: Seq::empty(), loaded: 0, full: false, ..load }
}

/// One step of the matching of a bucket.
pub open spec fn pass_step(p: Probing) -> (Option<Probing>, Act) {
    if !p.probing {
        let c = joiner::moved_on(p.load.cursor);
        if p.load.full || joiner::blocks_at(c) is None {
            let load = if p.load.full {
                p.load
            } else {
                Loading { cursor: c, ..p.load }
            };
            if p.load.rows.len() == 0 {
                (None, Act::Again)
            } else {
                (
                    Some(
                        Probing {
                            load,
                            cursor: first_block(p.probe, PROBE_BLOCKS as int),
                            probing: true,
                            ..p
                        },
                    ),
                    Act::Again,
                )
            }
        } else {
            let (b, n) = joiner::blocks_at(c)->Some_0;
            (Some(Probing { load: Loading { cursor: c, ..p.load }, ..p }), Act::Fetch(b, n))
        }
    } else {
        let c = joiner::moved_on(p.cursor);
        match joiner::blocks_at(c) {
            Some((b, n)) => (Some(Probing { cursor: c, ..p }), Act::Fetch(b, n)),
            None => if p.load.cursor.run >= p.load.cursor.runs.len() {
                (None, Act::Again)
            } else {
                (
                    Some(Probing { load: next_pass(p.load), cursor: c, probing: false, ..p }),
                    Act::Again,
                )
            },
        }
    }
}

/// One step of the last phase of a hash join.
pub open spec fn match_step(m: Matching) -> (Matching, Act) {
    match m.pass {
        Some(p) => {
            let (pass, act) = pass_step(p);
            (Matching { pass, ..m }, act)
        },
        None => if m.bucket >= NUM_BUCKETS {
            (m, Act::Done)
        } else {
            (
                Matching {
                    bucket: m.bucket + 1,
                    pass: match joiner::plan_of(m.join.buckets[m.bucket]) {
                        Some((build, probe, left_is_build)) => Some(
                            pass_begun(m, build, probe, left_is_build),
                        ),
                        None => None,
                    },
                    ..m
                },
                Act::Again,
            )
        },
    }
}

/// Rows that are held by key, behind others.
pub open spec fn held_too(load: Loading, rows: Seq<Seq<Val>>, n: int) -> Loading {
    let loaded = row::saturated((load.loaded + joiner::rows_weight(rows)) as nat);
    Loading {
        rows: load.rows + rows,
        loaded,
        full: loaded >= load.budget,
        cursor: Cursor { block: load.cursor.block + n, ..load.cursor },
        ..load
    }
}

/// The blocks that were asked for have been read: the state then, the pairs, and what went
/// wrong.
pub open spec fn match_supplied(m: Matching, data: Seq<u8>, n: int) -> (
    Matching,
    Seq<Seq<Val>>,
    Option<Fault>,
) {
    match m.pass {
        None => (m, Seq::empty(), None),
        Some(p) => if !p.probing {
            match block::blocks_rows(data, p.load.block_size, p.load.columns, n as nat) {
                Err(e) => (Matching { pass: None, ..m }, Seq::empty(), Some(e)),
                Ok(rows) => (
                    Matching {
                        pass: Some(Probing { load: held_too(p.load, rows, n), ..p }),
                        ..m
                    },
                    Seq::empty(),
                    None,
                ),
            }
        } else {
            let (pairs, fault) = joiner::blocks_probed(
                p.load.rows,
                p.load.key,
                data,
                p.load.block_size,
                n as nat,
                side_columns(m, !p.left_is_build),
                side_key(m, !p.left_is_build),
                p.left_is_build,
            );
            (
                Matching {
                    pass: if fault is Some {
                        None
                    } else {
                        Some(
                            Probing {
                                cursor: Cursor { block: p.cursor.block + n, ..p.cursor },
                                ..p
                            },
                        )
                    },
                    ..m
                },
                pairs,
                fault,
            )
        },
    }
}

impl JoinOutput {
    /// Whether the keys are columns, and what is held is in order.
    pub open spec fn wf(self) -> bool {
        &&& self.joiner.wf()
        &&& self.joiner.left_key < self.left_schema@.len()
        &&& self.joiner.right_key < self.right_schema@.len()
        &&& self.bucket <= NUM_BUCKETS
        &&& self.pass matches Some(p) ==> p.build.wf() && p.build.block_size
            == self.joiner.block_size
    }

    /// Whether `n` blocks can be taken.
    pub open spec fn takes(self, n: usize) -> bool {
        self.pass matches Some(p) && (if p.probing {
            p.cursor.block
        } else {
            p.build.cursor.block
        }) + n <= usize::MAX
    }

    /// Begins the last phase of a join whose inputs have ended.
    pub fn start(joiner: HashJoiner, left_schema: Vec<ColumnInfo>, right_schema: Vec<ColumnInfo>) -> (res:
        JoinOutput)
        requires
            joiner.wf(),
            joiner.left_key < left_schema@.len(),
            joiner.right_key < right_schema@.len(),
        ensures
            res.wf(),
            res.joiner.block_size == joiner.block_size,
            res@ == (Matching {
                join: joiner@,
                left_columns: left_schema.deep_view(),
                right_columns: right_schema.deep_view(),
                bucket: 0,
                pass: None,
            }),
    {
        JoinOutput { joiner, left_schema, right_schema, bucket: 0, pass: None }
    }

    fn begin_pass(&self, plan: ProbePlan) -> (res: ProbePass)
        requires
            self.wf(),
        ensures
            res.build.wf(),
            res.build.block_size == self.joiner.block_size,
            res@ == pass_begun(self@, plan.build@, plan.probe@, plan.left_is_build),
    {
        let schema = if plan.left_is_build {
            copy_columns(&self.left_schema)
        } else {
            copy_columns(&self.right_schema)
        };
        let key: usize = if plan.left_is_build {
            self.joiner.left_key
        } else {
            self.joiner.right_key
        };
        assert(schema.deep_view() =~= side_columns(self@, plan.left_is_build));
        let build = BuildPass::new(
            plan.build,
            schema,
            key,
            self.joiner.block_size,
            self.joiner.budget,
        );
        let cursor = RunCursor::new(copy_runs(&plan.probe), PROBE_BLOCKS);
        ProbePass {
            build,
            probe: plan.probe,
            cursor,
            probing: false,
            left_is_build: plan.left_is_build,
        }
    }

    /// Makes one step.
    pub fn step(&mut self) -> (res: Action)
        requires
            old(self).wf(),
        ensures
            final(self).wf(),
            final(self).joiner.block_size == old(self).joiner.block_size,
            (final(self)@, res@) == match_step(old(self)@),
            res matches Action::Fetch(_, n) ==> final(self).takes(n),
    {
        let mut pass: Option<ProbePass> = None;
        std::mem::swap(&mut pass, &mut self.pass);
        match pass {
            None => {
                if self.bucket >= NUM_BUCKETS {
                    return Action::Done;
                }
                let b: usize = self.bucket;
                let plan = self.joiner.probe_plan(b);
                match plan {
                    None => {},
                    Some(plan) => {
                        let p = self.begin_pass(plan);
                        self.pass = Some(p);
                    },
                }
                self.bucket = b + 1;
                Action::Again
            },
            Some(mut p) => {
                let ghost before = p@;
                if !p.probing {
                    match p.build.next_load() {
                        Some((b, n)) => {
                            self.pass = Some(p);
                            Action::Fetch(b, n)
                        },
                        None => {
                            if p.build.has_rows() {
                                p.cursor = RunCursor::new(copy_runs(&p.probe), PROBE_BLOCKS);
                                p.probing = true;
                                self.pass = Some(p);
                            }
                            Action::Again
                        },
                    }
                } else {
                    match p.cursor.next() {
                        Some((b, n)) => {
                            self.pass = Some(p);
                            Action::Fetch(b, n)
                        },
                        None => {
                            if !p.build.cursor.at_end() {
                                p.build.next_pass();
                                p.probing = false;
                                self.pass = Some(p);
                            }
                            Action::Again
                        },
                    }
                }
            },
        }
    }

    /// Takes the blocks that were asked for. Appends the pairs.
    pub fn supply(&mut self, data: &Vec<u8>, n: usize, pairs: &mut Vec<Vec<Data>>) -> (res: Result<
        (),
        DbError,
    >)
        requires
            old(self).wf(),
            old(self).takes(n),
            data@.len() == n * old(self).joiner.block_size,
        ensures
            final(self).wf(),
            final(self).joiner.block_size == old(self).joiner.block_size,
            ({
                let got = match_supplied(old(self)@, data@, n as int);
                &&& final(self)@ == got.0
                &&& final(pairs).deep_view() == old(pairs).deep_view() + got.1
                &&& ops::fault_of(res) == got.2
            }),
    {
        let ghost given = pairs.deep_view();
        assert(given + Seq::<Seq<Val>>::empty() =~= given);
        let mut pass: Option<ProbePass> = None;
        std::mem::swap(&mut pass, &mut self.pass);
        match pass {
            None => Ok(()),
            Some(mut p) => {
                if !p.probing {
                    match p.build.accept(data, n) {
                        Err(e) => Err(e),
                        Ok(_) => {
                            self.pass = Some(p);
                            Ok(())
                        },
                    }
                } else {
                    let res = if p.left_is_build {
                        p.build.probe(
                            data,
                            n,
                            &self.right_schema,
                            self.joiner.right_key,
                            true,
                            pairs,
                        )
                    } else {
                        p.build.probe(
                            data,
                            n,
                            &self.left_schema,
                            self.joiner.left_key,
                            false,
                            pairs,
                        )
                    };
                    if res.is_ok() {
                        p.cursor.advance(n);
                        self.pass = Some(p);
                    }
                    res
                }
            },
        }
    }
}

} // verus!
