//! Compound commands: which part of them runs next.
use crate::pattern::glob::glob_match_inner;
use crate::pattern::glob::glob_matches;
use crate::runtime::flow::ExecState;
use crate::text::{lowercased, to_lowercase};
use vstd::prelude::*;
use vstd::utf8::encode_utf8;

verus! {

/// What an `if` runs next. The arms are counted from the first condition on.
#[derive(Clone, Copy, Debug, PartialEq, Eq, Structural)]
pub enum IfStep {
    Condition(usize),
    Body(usize),
    Else,
    End,
}

/// What follows the condition of an arm that came to `status`.
pub open spec fn if_next(arm: int, arms: int, has_else: bool, status: i32) -> IfStep {
    if status == 0 {
        IfStep::Body(arm as usize)
    } else if arm + 1 < arms {
        IfStep::Condition((arm + 1) as usize)
    } else if has_else {
        IfStep::Else
    } else {
        IfStep::End
    }
}

/// What follows the condition of an arm.
pub fn after_condition(arm: usize, arms: usize, has_else: bool, status: i32) -> (r: IfStep)
    requires
        arm < arms,
    ensures
        r == if_next(arm as int, arms as int, has_else, status),
{
    if status == 0 {
        IfStep::Body(arm)
    } else if arm + 1 < arms {
        IfStep::Condition(arm + 1)
    } else if has_else {
        IfStep::Else
    } else {
        IfStep::End
    }
}

/// What an `if` comes to, given the status of each condition, from an arm on.
pub open spec fn if_outcome(statuses: Seq<i32>, has_else: bool, arm: int) -> IfStep
    decreases statuses.len() - arm,
{
    if arm < 0 || arm >= statuses.len() {
        IfStep::End
    } else {
        match if_next(arm, statuses.len() as int, has_else, statuses[arm]) {
            IfStep::Condition(_) => if_outcome(statuses, has_else, arm + 1),
            step => step,
        }
    }
}

/// An `if` runs the body of its first arm whose condition succeeds, and no other; without one it
/// runs what stands after `else`.
pub proof fn law_if_takes_first_success(statuses: Seq<i32>, has_else: bool, arm: int, hit: int)
    requires
        0 <= arm <= hit <= statuses.len() <= usize::MAX,
        arm < statuses.len(),
        forall|i: int| arm <= i < hit ==> statuses[i] != 0,
        hit < statuses.len() ==> statuses[hit] == 0,
    ensures
        hit < statuses.len() ==> if_outcome(statuses, has_else, arm) == IfStep::Body(hit as usize),
        hit == statuses.len() && has_else ==> if_outcome(statuses, has_else, arm) is Else,
        hit == statuses.len() && !has_else ==> if_outcome(statuses, has_else, arm) is End,
    decreases statuses.len() - arm,
{
    if arm < hit && arm + 1 < statuses.len() {
        law_if_takes_first_success(statuses, has_else, arm + 1, hit);
    }
}

/// Whether the body of a loop runs after its condition came to `status`.
pub open spec fn loop_goes_on(until: bool, status: i32) -> bool {
    if until {
        status != 0
    } else {
        status == 0
    }
}

/// Whether the body of a `while` or `until` loop runs after its condition.
pub fn loop_runs_body(until: bool, status: i32) -> (r: bool)
    ensures
        r == loop_goes_on(until, status),
{
    if until {
        status != 0
    } else {
        status == 0
    }
}

impl ExecState {
    /// Begins a condition, in which a failure does not end the shell; returns what held before.
    pub fn begin_condition(&mut self) -> (r: bool)
        ensures
            r == old(self).errexit_suppressed,
            *final(self) == (ExecState { errexit_suppressed: true, ..*old(self) }),
    {
        let before: bool = self.errexit_suppressed;
        self.errexit_suppressed = true;
        before
    }

    /// Ends a condition.
    pub fn end_condition(&mut self, before: bool)
        ensures
            *final(self) == (ExecState { errexit_suppressed: before, ..*old(self) }),
    {
        self.errexit_suppressed = before;
    }

    /// What a `for` loop over words does after its body ran; `true` when it stops. Unlike in the
    /// other loops, `continue` goes on even where an exit was asked for.
    pub fn handle_for_control(&mut self) -> (r: bool)
        ensures
            r == (old(self).break_depth > 0 || (!old(self).loop_continue
                && old(self).exit_requested is Some)),
            *final(self) == crate::runtime::flow::loop_round(*old(self)),
    {
        if self.break_depth > 0 {
            self.break_depth = self.break_depth - 1;
            return true;
        }
        if self.loop_continue {
            self.loop_continue = false;
            return false;
        }
        self.exit_requested.is_some()
    }
}

/// What follows the commands of a `case` item.
#[derive(Clone, Copy, Debug, PartialEq, Eq, Structural)]
pub enum CaseTerminator {
    /// The command is done.
    Break,
    /// The next item runs without being tested.
    Fallthrough,
    /// The next items are tested.
    ContinueTesting,
}

/// A `case` while it goes through its items.
#[derive(Clone, Copy, Debug, PartialEq, Eq, Structural)]
pub struct CaseRun {
    /// The item that is looked at.
    pub index: usize,
    /// Whether it runs without being tested.
    pub fallthrough: bool,
    pub done: bool,
}

/// A `case` after an item was tested, or not, and run where its turn had come.
pub open spec fn case_next(c: CaseRun, matched: bool, t: CaseTerminator) -> CaseRun {
    if c.fallthrough || matched {
        match t {
            CaseTerminator::Break => CaseRun { done: true, ..c },
            CaseTerminator::Fallthrough => CaseRun {
                index: (c.index + 1) as usize,
                fallthrough: true,
                done: false,
            },
            CaseTerminator::ContinueTesting => CaseRun {
                index: (c.index + 1) as usize,
                fallthrough: false,
                done: false,
            },
        }
    } else {
        CaseRun { index: (c.index + 1) as usize, fallthrough: false, done: false }
    }
}

impl CaseRun {
    /// Before the first item.
    pub fn new() -> (r: CaseRun)
        ensures
            r == (CaseRun { index: 0, fallthrough: false, done: false }),
    {
        CaseRun { index: 0, fallthrough: false, done: false }
    }

    /// The item that is looked at, of so many, unless the command is done.
    pub fn current(&self, items: usize) -> (r: Option<usize>)
        ensures
            r == if self.done || self.index >= items {
                None::<usize>
            } else {
                Some(self.index)
            },
    {
        if self.done || self.index >= items {
            None
        } else {
            Some(self.index)
        }
    }

    /// Whether an item runs, given whether one of its patterns matches.
    pub fn runs(&self, matched: bool) -> (r: bool)
        ensures
            r == (self.fallthrough || matched),
    {
        self.fallthrough || matched
    }

    /// Goes on after an item.
    pub fn advance(&mut self, matched: bool, terminator: CaseTerminator)
        requires
            old(self).index < usize::MAX,
        ensures
            *final(self) == case_next(*old(self), matched, terminator),
    {
        if self.fallthrough || matched {
            match terminator {
                CaseTerminator::Break => {
                    self.done = true;
                },
                CaseTerminator::Fallthrough => {
                    self.fallthrough = true;
                    self.index = self.index + 1;
                    self.done = false;
                },
                CaseTerminator::ContinueTesting => {
                    self.fallthrough = false;
                    self.index = self.index + 1;
                    self.done = false;
                },
            }
        } else {
            self.fallthrough = false;
            self.index = self.index + 1;
            self.done = false;
        }
    }
}

/// The items that a `case` runs from a place on, given which of them match.
pub open spec fn case_bodies(
    c: CaseRun,
    matched: Seq<bool>,
    terminators: Seq<CaseTerminator>,
) -> Seq<int>
    decreases matched.len() - c.index,
{
    if c.done || c.index >= matched.len() || c.index >= usize::MAX || matched.len()
        != terminators.len() {
        Seq::empty()
    } else {
        let i = c.index as int;
        let next = case_next(c, matched[i], terminators[i]);
        let rest = if next.done {
            Seq::empty()
        } else {
            case_bodies(next, matched, terminators)
        };
        if c.fallthrough || matched[i] {
            seq![i] + rest
        } else {
            rest
        }
    }
}

/// Where every item ends the command, a `case` runs the first item that matches and no other.
pub proof fn law_case_runs_first_match(
    c: CaseRun,
    matched: Seq<bool>,
    terminators: Seq<CaseTerminator>,
    hit: int,
)
    requires
        !c.done,
        !c.fallthrough,
        c.index <= hit <= matched.len() < usize::MAX,
        matched.len() == terminators.len(),
        forall|i: int| 0 <= i < terminators.len() ==> terminators[i] == CaseTerminator::Break,
        forall|i: int| c.index <= i < hit ==> !matched[i],
        hit < matched.len() ==> matched[hit],
    ensures
        case_bodies(c, matched, terminators) == (if hit < matched.len() {
            seq![hit]
        } else {
            Seq::empty()
        }),
    decreases matched.len() - c.index,
{
    if c.index < matched.len() {
        let i = c.index as int;
        let next = case_next(c, matched[i], terminators[i]);
        if i < hit {
            law_case_runs_first_match(next, matched, terminators, hit);
        } else {
            assert(seq![i] + Seq::<int>::empty() =~= seq![hit]);
        }
    }
}

/// Whether a pattern of a `case` item matches a value.
pub open spec fn case_matches(pattern: Seq<char>, value: Seq<char>, nocase: bool) -> bool {
    if nocase {
        glob_matches(encode_utf8(lowercased(pattern)), encode_utf8(lowercased(value)))
    } else {
        glob_matches(encode_utf8(pattern), encode_utf8(value))
    }
}

/// Whether a pattern of a `case` item matches a value, in whatever case where that is ignored.
pub fn case_pattern_matches(pattern: &str, value: &str, nocase: bool) -> (r: bool)
    ensures
        r == case_matches(pattern@, value@, nocase),
{
    if nocase {
        let p = to_lowercase(pattern);
        let v = to_lowercase(value);
        glob_match_inner(p.as_str().as_bytes(), v.as_str().as_bytes())
    } else {
        glob_match_inner(pattern.as_bytes(), value.as_bytes())
    }
}

} // verus!
