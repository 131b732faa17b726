//! What the end of a pipeline means.
use crate::state::{element_set_env, init_array_env, same_but_env, ShellState};
use crate::text::{dec, dec_int, i64_to_dec, u64_to_dec};
use crate::vars::{EnvView, ValueView};
use vstd::prelude::*;

verus! {

/// The status of a pipeline: that of its last stage, or with `pipefail` that of the last stage
/// that failed.
pub open spec fn pipeline_result(statuses: Seq<i32>, pipefail: bool) -> i32
    decreases statuses.len(),
{
    if statuses.len() == 0 {
        0
    } else if !pipefail || statuses.last() != 0 {
        statuses.last()
    } else {
        pipeline_result(statuses.drop_last(), pipefail)
    }
}

/// The status of a pipeline.
pub fn pipeline_status(statuses: &Vec<i32>, pipefail: bool) -> (r: i32)
    ensures
        r == pipeline_result(statuses@, pipefail),
{
    let mut n: usize = statuses.len();
    assert(statuses@.take(n as int) =~= statuses@);
    while n > 0
        invariant
            n <= statuses@.len(),
            pipeline_result(statuses@, pipefail) == pipeline_result(
                statuses@.take(n as int),
                pipefail,
            ),
        decreases n,
    {
        let s: i32 = statuses[n - 1];
        assert(statuses@.take(n as int).last() == s);
        if !pipefail || s != 0 {
            return s;
        }
        assert(statuses@.take(n as int).drop_last() =~= statuses@.take(n - 1));
        n = n - 1;
    }
    0
}

/// With `pipefail` a pipeline succeeds exactly when every stage does.
pub proof fn law_pipefail_reports_any_failure(statuses: Seq<i32>)
    ensures
        pipeline_result(statuses, true) == 0 <==> (forall|i: int|
            0 <= i < statuses.len() ==> statuses[i] == 0),
    decreases statuses.len(),
{
    if statuses.len() > 0 {
        let t = statuses.drop_last();
        law_pipefail_reports_any_failure(t);
        if statuses.last() == 0 {
            assert forall|i: int| 0 <= i < statuses.len() && (forall|k: int|
                0 <= k < t.len() ==> t[k] == 0) implies statuses[i] == 0 by {
                if i < t.len() {
                    assert(t[i] == statuses[i]);
                }
            }
            assert forall|k: int| 0 <= k < t.len() && (forall|i: int|
                0 <= i < statuses.len() ==> statuses[i] == 0) implies t[k] == 0 by {
                assert(t[k] == statuses[k]);
            }
        } else {
            assert(statuses[statuses.len() - 1] != 0);
        }
    }
}

/// The status of a pipeline that may be negated.
pub open spec fn negated_status(status: i32, negated: bool) -> i32 {
    if !negated {
        status
    } else if status == 0 {
        1
    } else {
        0
    }
}

/// The status of a negated pipeline.
pub fn negate_status(status: i32, negated: bool) -> (r: i32)
    ensures
        r == negated_status(status, negated),
{
    if !negated {
        status
    } else if status == 0 {
        1
    } else {
        0
    }
}

/// How two pipelines are joined.
#[derive(Clone, Copy, Debug, PartialEq, Eq, Structural)]
pub enum AndOrOp {
    And,
    Or,
}

/// Whether what follows `op` is to run after `status`.
pub open spec fn runs_next(op: AndOrOp, status: i32) -> bool {
    match op {
        AndOrOp::And => status == 0,
        AndOrOp::Or => status != 0,
    }
}

/// Whether the pipeline after `op` runs when the one before came to `status`.
pub fn and_or_runs(op: AndOrOp, status: i32) -> (r: bool)
    ensures
        r == runs_next(op, status),
{
    match op {
        AndOrOp::And => status == 0,
        AndOrOp::Or => status != 0,
    }
}

/// The variables after the first `n` statuses went into `PIPESTATUS`.
pub open spec fn pipestatus_upto(env: EnvView, statuses: Seq<i32>, n: int) -> EnvView
    decreases n,
{
    if n <= 0 {
        init_array_env(env, "PIPESTATUS"@, ValueView::Indexed(Seq::empty()))
    } else {
        element_set_env(
            pipestatus_upto(env, statuses, n - 1),
            "PIPESTATUS"@,
            dec((n - 1) as nat),
            dec_int(statuses[n - 1] as int),
        )
    }
}

/// Puts the statuses of the stages into `PIPESTATUS`.
pub fn set_pipestatus(state: &mut ShellState, statuses: &Vec<i32>)
    ensures
        final(state).env@ == pipestatus_upto(
            old(state).env@,
            statuses@,
            statuses@.len() as int,
        ),
        same_but_env(*final(state), *old(state)),
{
    let ghost env0 = state.env@;
    state.init_indexed_array("PIPESTATUS".to_owned());
    let mut i: usize = 0;
    while i < statuses.len()
        invariant
            i <= statuses@.len(),
            state.env@ == pipestatus_upto(env0, statuses@, i as int),
            same_but_env(*state, *old(state)),
        decreases statuses@.len() - i,
    {
        let index = u64_to_dec(i as u64);
        state.set_array_element(
            "PIPESTATUS".to_owned(),
            index.as_str(),
            i64_to_dec(statuses[i] as i64),
        );
        i = i + 1;
    }
}

/// Takes note of how a pipeline ended: the statuses of its stages go into `PIPESTATUS`, and its
/// status is the last one of the shell unless a limit was hit.
pub fn settle_pipeline(
    state: &mut ShellState,
    statuses: &Vec<i32>,
    pipefail: bool,
    exhausted: bool,
)
    ensures
        final(state).env@ == pipestatus_upto(
            old(state).env@,
            statuses@,
            statuses@.len() as int,
        ),
        final(state).last_status == if exhausted {
            old(state).last_status
        } else {
            pipeline_result(statuses@, pipefail)
        },
        same_but_env(
            *final(state),
            (ShellState { last_status: final(state).last_status, ..*old(state) }),
        ),
{
    set_pipestatus(state, statuses);
    if !exhausted {
        state.last_status = pipeline_status(statuses, pipefail);
    }
}

} // verus!
