//! What signals and traps do.
use crate::runtime::flow::{is_option_on, option_on};
use crate::signals::{signal_specs, RuntimeSignalSpec, SignalDefaultAction};
use crate::state::{named_value, ShellState};
use crate::vars::EnvView;
use crate::views::strs;
use vstd::prelude::*;

verus! {

/// What a signal does to the shell.
#[derive(Debug)]
pub enum SignalEffect {
    Nothing,
    /// The handler runs, and the shell goes on.
    Handler(String),
    /// The shell ends with this status.
    Terminate(i32),
    /// The signal would stop a job, which the shell does not do.
    Stop,
}

/// The text that a variable holds, where it holds any.
pub open spec fn text_in(env: EnvView, positional: Seq<Seq<char>>, name: Seq<char>) -> Option<
    Seq<char>,
> {
    match named_value(env, positional, name) {
        Some(v) => if v.len() > 0 {
            Some(v)
        } else {
            None
        },
        None => None,
    }
}

/// The text that a variable holds, where it holds any.
pub fn nonempty_var(state: &ShellState, name: &str) -> (r: Option<String>)
    ensures
        match r {
            Some(v) => text_in(state.env@, strs(state.positional@), name@) == Some(v@),
            None => text_in(state.env@, strs(state.positional@), name@) is None,
        },
{
    match state.get_named(name) {
        Some(v) => if v.as_str().is_empty() {
            None
        } else {
            Some(v)
        },
        None => None,
    }
}

/// Whether an effect is what a signal does: a signal that can be trapped runs its handler or is
/// ignored where `trap` said so; else it does what it does by default, and one that terminates
/// does so with 128 more than its number.
pub open spec fn is_effect(
    env: EnvView,
    positional: Seq<Seq<char>>,
    spec: RuntimeSignalSpec,
    effect: SignalEffect,
) -> bool {
    let handler = text_in(env, positional, spec.handler_var@);
    if spec.trappable && handler is Some {
        effect matches SignalEffect::Handler(h) && Some(h@) == handler
    } else if spec.trappable && option_on(env, positional, spec.ignore_var@) {
        effect is Nothing
    } else {
        match spec.default_action {
            SignalDefaultAction::Terminate => effect == SignalEffect::Terminate(
                (128 + spec.number) as i32,
            ),
            SignalDefaultAction::Ignore => effect is Nothing,
            SignalDefaultAction::StopLike => effect is Stop,
            SignalDefaultAction::ContinueLike => effect is Nothing,
        }
    }
}

/// What a signal does.
pub fn signal_effect(state: &ShellState, spec: &RuntimeSignalSpec) -> (r: SignalEffect)
    requires
        0 < spec.number < 128,
    ensures
        is_effect(state.env@, strs(state.positional@), *spec, r),
{
    if spec.trappable {
        if let Some(handler) = nonempty_var(state, spec.handler_var) {
            return SignalEffect::Handler(handler);
        }
        if is_option_on(state, spec.ignore_var) {
            return SignalEffect::Nothing;
        }
    }
    match spec.default_action {
        SignalDefaultAction::Terminate => SignalEffect::Terminate(128 + spec.number),
        SignalDefaultAction::Ignore => SignalEffect::Nothing,
        SignalDefaultAction::StopLike => SignalEffect::Stop,
        SignalDefaultAction::ContinueLike => SignalEffect::Nothing,
    }
}

/// The number of every signal that the runtime knows is small.
pub proof fn lemma_signal_number(i: int)
    requires
        0 <= i < signal_specs().len(),
    ensures
        0 < signal_specs()[i].number < 128,
{
    assert(signal_specs().len() == 20);
}

/// A trap that is run by what the shell does, not by a signal.
#[derive(Clone, Copy, Debug, PartialEq, Eq, Structural)]
pub enum TrapKind {
    /// Before a simple command.
    Debug,
    /// When a function returns.
    Return,
    /// After a failing command.
    Failure,
}

/// The variable in which `trap` keeps the handler.
pub open spec fn trap_var(kind: TrapKind) -> Seq<char> {
    match kind {
        TrapKind::Debug => "_TRAP_DEBUG"@,
        TrapKind::Return => "_TRAP_RETURN"@,
        TrapKind::Failure => "_TRAP_ERR"@,
    }
}

/// The option of `set` that lets functions inherit the trap.
pub open spec fn trap_option(kind: TrapKind) -> Seq<char> {
    match kind {
        TrapKind::Failure => "SHOPT_E"@,
        _ => "SHOPT_T"@,
    }
}

/// The handler that is to run: the one of `trap`, inside a function only where the option for it
/// is on.
pub open spec fn trap_handler(
    env: EnvView,
    positional: Seq<Seq<char>>,
    in_function: bool,
    kind: TrapKind,
) -> Option<Seq<char>> {
    if in_function && !option_on(env, positional, trap_option(kind)) {
        None
    } else {
        text_in(env, positional, trap_var(kind))
    }
}

/// The handler that is to run.
pub fn handler_to_run(state: &ShellState, kind: TrapKind) -> (r: Option<String>)
    ensures
        match r {
            Some(h) => trap_handler(
                state.env@,
                strs(state.positional@),
                state.func_stack@.len() > 0,
                kind,
            ) == Some(h@),
            None => trap_handler(
                state.env@,
                strs(state.positional@),
                state.func_stack@.len() > 0,
                kind,
            ) is None,
        },
{
    let (var, option): (&str, &str) = match kind {
        TrapKind::Debug => ("_TRAP_DEBUG", "SHOPT_T"),
        TrapKind::Return => ("_TRAP_RETURN", "SHOPT_T"),
        TrapKind::Failure => ("_TRAP_ERR", "SHOPT_E"),
    };
    if state.func_stack.len() > 0 && !is_option_on(state, option) {
        None
    } else {
        nonempty_var(state, var)
    }
}

} // verus!
