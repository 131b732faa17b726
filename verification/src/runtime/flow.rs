//! The transient state of an execution: loops, exits, function-local variables.
use crate::state::{named_value, ShellState};
use crate::text::{parse_i64, parse_signed, parse_u64, parse_unsigned, str_eq};
use crate::vars::EnvView;
use crate::views::strs;
use vstd::prelude::*;

verus! {

/// A variable that `local` hides, with the value it had.
#[derive(Debug)]
pub struct SavedLocal {
    pub name: String,
    pub value: Option<String>,
}

/// The transient state of an execution.
#[derive(Debug)]
pub struct ExecState {
    /// How many loops `break` still leaves.
    pub break_depth: u32,
    pub loop_continue: bool,
    pub exit_requested: Option<i32>,
    /// Whether a failing command is part of a condition.
    pub errexit_suppressed: bool,
    pub local_save_stack: Vec<SavedLocal>,
    pub recursion_depth: u32,
    /// Whether expanding a word failed.
    pub expansion_failed: bool,
}

/// Whether nothing stands in the way of the next command.
pub open spec fn undisturbed(e: ExecState) -> bool {
    &&& e.break_depth == 0
    &&& !e.loop_continue
    &&& e.exit_requested is None
    &&& !e.errexit_suppressed
    &&& !e.expansion_failed
}

impl ExecState {
    /// The state before anything runs.
    pub fn new() -> (r: ExecState)
        ensures
            undisturbed(r),
            r.local_save_stack@.len() == 0,
            r.recursion_depth == 0,
    {
        ExecState {
            break_depth: 0,
            loop_continue: false,
            exit_requested: None,
            errexit_suppressed: false,
            local_save_stack: Vec::new(),
            recursion_depth: 0,
            expansion_failed: false,
        }
    }

    /// Forgets what the last command left behind; saved variables and the depth stay.
    pub fn reset(&mut self)
        ensures
            undisturbed(*final(self)),
            final(self).local_save_stack == old(self).local_save_stack,
            final(self).recursion_depth == old(self).recursion_depth,
    {
        self.break_depth = 0;
        self.loop_continue = false;
        self.exit_requested = None;
        self.errexit_suppressed = false;
        self.expansion_failed = false;
    }

    /// Whether the commands that follow are passed over.
    pub fn should_stop_execution(&self, exhausted: bool) -> (r: bool)
        ensures
            r == (self.break_depth > 0 || self.loop_continue || self.exit_requested is Some
                || exhausted),
    {
        self.break_depth > 0 || self.loop_continue || self.exit_requested.is_some() || exhausted
    }

    /// Takes note of `break`: out of as many loops as it says, one by default.
    pub fn request_break(&mut self, arg: Option<&str>)
        ensures
            final(self).break_depth == break_depth_of(
                match arg {
                    Some(s) => Some(s@),
                    None => None,
                },
            ),
            *final(self) == (ExecState { break_depth: final(self).break_depth, ..*old(self) }),
    {
        self.break_depth = match arg {
            Some(s) => match parse_u64(s, u32::MAX as u64) {
                Some(n) => n as u32,
                None => 1,
            },
            None => 1,
        };
    }

    /// Takes note of `continue`.
    pub fn request_continue(&mut self)
        ensures
            *final(self) == (ExecState { loop_continue: true, ..*old(self) }),
    {
        self.loop_continue = true;
    }

    /// Takes note of `exit` and returns its code: the number given, else the last status.
    pub fn request_exit(&mut self, arg: Option<&str>, last_status: i32) -> (r: i32)
        ensures
            r == exit_code_of(
                match arg {
                    Some(s) => Some(s@),
                    None => None,
                },
                last_status,
            ),
            *final(self) == (ExecState { exit_requested: Some(r), ..*old(self) }),
    {
        let code: i32 = match arg {
            Some(s) => match parse_i64(s, i32::MIN as i64, i32::MAX as i64) {
                Some(n) => n as i32,
                None => last_status,
            },
            None => last_status,
        };
        self.exit_requested = Some(code);
        code
    }

    /// What a loop does after its body ran: it stops for `break`, which counts it, and for
    /// `exit`; `continue` ends only the round.
    pub fn handle_loop_control(&mut self) -> (r: bool)
        ensures
            r == loop_stops(*old(self)),
            *final(self) == loop_round(*old(self)),
    {
        if self.break_depth > 0 {
            self.break_depth = self.break_depth - 1;
            return true;
        }
        if self.loop_continue {
            self.loop_continue = false;
        }
        self.exit_requested.is_some()
    }
}

/// Whether a loop stops after a round.
pub open spec fn loop_stops(e: ExecState) -> bool {
    e.break_depth > 0 || e.exit_requested is Some
}

/// The state after a round of a loop.
pub open spec fn loop_round(e: ExecState) -> ExecState {
    if e.break_depth > 0 {
        ExecState { break_depth: (e.break_depth - 1) as u32, ..e }
    } else {
        ExecState { loop_continue: false, ..e }
    }
}

/// How many loops `break` leaves.
pub open spec fn break_depth_of(arg: Option<Seq<char>>) -> u32 {
    match arg {
        Some(s) => match parse_unsigned(s, u32::MAX as nat) {
            Some(n) => n as u32,
            None => 1,
        },
        None => 1,
    }
}

/// The code of `exit`.
pub open spec fn exit_code_of(arg: Option<Seq<char>>, last_status: i32) -> i32 {
    match arg {
        Some(s) => match parse_signed(s, i32::MIN as int, i32::MAX as int) {
            Some(n) => n as i32,
            None => last_status,
        },
        None => last_status,
    }
}

/// The state after as many rounds of enclosing loops.
pub open spec fn after_rounds(e: ExecState, n: nat) -> ExecState
    decreases n,
{
    if n == 0 {
        e
    } else {
        after_rounds(loop_round(e), (n - 1) as nat)
    }
}

/// `break n` leaves `n` enclosing loops and no more: each takes one off, and after `n` of them
/// none is left to leave.
pub proof fn law_break_leaves_n_loops(e: ExecState, n: nat)
    requires
        n == e.break_depth,
    ensures
        after_rounds(e, n).break_depth == 0,
        forall|k: nat| k < n ==> (#[trigger] after_rounds(e, k)).break_depth > 0,
    decreases n,
{
    if n > 0 {
        let f = loop_round(e);
        law_break_leaves_n_loops(f, (n - 1) as nat);
        assert forall|k: nat| k < n implies (#[trigger] after_rounds(e, k)).break_depth > 0 by {
            if k > 0 {
                assert(after_rounds(f, (k - 1) as nat).break_depth > 0);
            }
        }
    }
}

/// Whether an option of `set` is on.
pub open spec fn option_on(env: EnvView, positional: Seq<Seq<char>>, name: Seq<char>) -> bool {
    named_value(env, positional, name) == Some("1"@)
}

/// Whether an option of `set` is on.
pub fn is_option_on(state: &ShellState, name: &str) -> (r: bool)
    ensures
        r == option_on(state.env@, strs(state.positional@), name@),
{
    match state.get_named(name) {
        Some(v) => str_eq(v.as_str(), "1"),
        None => false,
    }
}

/// The shape of commands joined by `&&` and `||`, as far as failing matters.
#[derive(Clone, Copy, Debug)]
pub struct AndOrShape {
    /// Whether there is more than one pipeline.
    pub joined: bool,
    /// Whether the first pipeline is negated.
    pub negated: bool,
}

/// Whether a failure ends the shell: `set -e` is on, the command stands alone, is not negated
/// and not part of a condition.
pub open spec fn errexit_applies(
    e: ExecState,
    env: EnvView,
    positional: Seq<Seq<char>>,
    last_status: i32,
    shape: AndOrShape,
) -> bool {
    &&& !e.errexit_suppressed
    &&& !shape.joined
    &&& !shape.negated
    &&& option_on(env, positional, "SHOPT_e"@)
    &&& last_status != 0
    &&& e.exit_requested is None
}

/// Whether a failure ends the shell.
pub fn should_errexit(exec: &ExecState, state: &ShellState, shape: AndOrShape) -> (r: bool)
    ensures
        r == errexit_applies(
            *exec,
            state.env@,
            strs(state.positional@),
            state.last_status,
            shape,
        ),
{
    !exec.errexit_suppressed && !shape.joined && !shape.negated && is_option_on(state, "SHOPT_e")
        && state.last_status != 0 && exec.exit_requested.is_none()
}

/// The line on which a command stands: one more than the newlines before it.
pub fn line_number_for_offset(input: &str, offset: usize) -> (r: u32)
    requires
        crate::stream::wc::newline_count(prefix_of(input@, offset as int)) < u32::MAX,
    ensures
        r == crate::stream::wc::newline_count(prefix_of(input@, offset as int)) + 1,
{
    let bytes = input.as_bytes();
    let end: usize = if offset < bytes.len() {
        offset
    } else {
        bytes.len()
    };
    let ghost p = prefix_of(input@, offset as int);
    assert(p =~= bytes@.take(end as int));
    let mut count: u32 = 0;
    let mut i: usize = 0;
    assert(p.take(0) =~= Seq::empty());
    while i < end
        invariant
            i <= end <= bytes@.len(),
            p == bytes@.take(end as int),
            count == crate::stream::wc::newline_count(p.take(i as int)),
            crate::stream::wc::newline_count(p) < u32::MAX,
        decreases end - i,
    {
        proof {
            assert(p.take(i + 1).drop_last() =~= p.take(i as int));
            lemma_newline_count_grows(p, i + 1);
        }
        if bytes[i] == crate::ascii::NEWLINE {
            count = count + 1;
        }
        i = i + 1;
    }
    assert(p.take(end as int) =~= p);
    count + 1
}

/// The first bytes of a text.
pub open spec fn prefix_of(input: Seq<char>, offset: int) -> Seq<u8> {
    let b = vstd::utf8::encode_utf8(input);
    if offset < b.len() {
        b.take(offset)
    } else {
        b
    }
}

proof fn lemma_newline_count_grows(s: Seq<u8>, k: int)
    requires
        0 <= k <= s.len(),
    ensures
        crate::stream::wc::newline_count(s.take(k)) <= crate::stream::wc::newline_count(s),
    decreases s.len(),
{
    if k < s.len() {
        lemma_newline_count_grows(s.drop_last(), k);
        assert(s.drop_last().take(k) =~= s.take(k));
    } else {
        assert(s.take(k) =~= s);
    }
}

} // verus!
