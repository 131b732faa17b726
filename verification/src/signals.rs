//! The signals that the runtime knows.
use crate::text::{parse_i64, parse_signed, str_eq, to_upper_ascii, upper_ascii};
use crate::text::{chars_of, starts_with, string_of, str_starts_with};
use vstd::prelude::*;

verus! {

/// What a signal does where no handler is installed.
#[derive(Clone, Copy, Debug, PartialEq, Eq, Structural)]
pub enum SignalDefaultAction {
    Terminate,
    Ignore,
    StopLike,
    ContinueLike,
}

/// One signal: its name and number, the variables in which `trap` keeps its handler and its
/// being ignored, and what it does by default.
#[derive(Clone, Copy, Debug)]
pub struct RuntimeSignalSpec {
    pub name: &'static str,
    pub number: i32,
    pub handler_var: &'static str,
    pub ignore_var: &'static str,
    pub default_action: SignalDefaultAction,
    pub trappable: bool,
}

/// The signals that the runtime knows, by number.
pub open spec fn signal_specs() -> Seq<RuntimeSignalSpec> {
    seq![
        RuntimeSignalSpec {
            name: "HUP",
            number: 1,
            handler_var: "_TRAP_SIG_HUP",
            ignore_var: "_TRAP_IGNORE_SIG_HUP",
            default_action: SignalDefaultAction::Terminate,
            trappable: true,
        },
        RuntimeSignalSpec {
            name: "INT",
            number: 2,
            handler_var: "_TRAP_SIG_INT",
            ignore_var: "_TRAP_IGNORE_SIG_INT",
            default_action: SignalDefaultAction::Terminate,
            trappable: true,
        },
        RuntimeSignalSpec {
            name: "QUIT",
            number: 3,
            handler_var: "_TRAP_SIG_QUIT",
            ignore_var: "_TRAP_IGNORE_SIG_QUIT",
            default_action: SignalDefaultAction::Terminate,
            trappable: true,
        },
        RuntimeSignalSpec {
            name: "ILL",
            number: 4,
            handler_var: "_TRAP_SIG_ILL",
            ignore_var: "_TRAP_IGNORE_SIG_ILL",
            default_action: SignalDefaultAction::Terminate,
            trappable: true,
        },
        RuntimeSignalSpec {
            name: "ABRT",
            number: 6,
            handler_var: "_TRAP_SIG_ABRT",
            ignore_var: "_TRAP_IGNORE_SIG_ABRT",
            default_action: SignalDefaultAction::Terminate,
            trappable: true,
        },
        RuntimeSignalSpec {
            name: "FPE",
            number: 8,
            handler_var: "_TRAP_SIG_FPE",
            ignore_var: "_TRAP_IGNORE_SIG_FPE",
            default_action: SignalDefaultAction::Terminate,
            trappable: true,
        },
        RuntimeSignalSpec {
            name: "KILL",
            number: 9,
            handler_var: "_TRAP_SIG_KILL",
            ignore_var: "_TRAP_IGNORE_SIG_KILL",
            default_action: SignalDefaultAction::Terminate,
            trappable: false,
        },
        RuntimeSignalSpec {
            name: "USR1",
            number: 10,
            handler_var: "_TRAP_SIG_USR1",
            ignore_var: "_TRAP_IGNORE_SIG_USR1",
            default_action: SignalDefaultAction::Terminate,
            trappable: true,
        },
        RuntimeSignalSpec {
            name: "SEGV",
            number: 11,
            handler_var: "_TRAP_SIG_SEGV",
            ignore_var: "_TRAP_IGNORE_SIG_SEGV",
            default_action: SignalDefaultAction::Terminate,
            trappable: true,
        },
        RuntimeSignalSpec {
            name: "USR2",
            number: 12,
            handler_var: "_TRAP_SIG_USR2",
            ignore_var: "_TRAP_IGNORE_SIG_USR2",
            default_action: SignalDefaultAction::Terminate,
            trappable: true,
        },
        RuntimeSignalSpec {
            name: "PIPE",
            number: 13,
            handler_var: "_TRAP_SIG_PIPE",
            ignore_var: "_TRAP_IGNORE_SIG_PIPE",
            default_action: SignalDefaultAction::Terminate,
            trappable: true,
        },
        RuntimeSignalSpec {
            name: "ALRM",
            number: 14,
            handler_var: "_TRAP_SIG_ALRM",
            ignore_var: "_TRAP_IGNORE_SIG_ALRM",
            default_action: SignalDefaultAction::Terminate,
            trappable: true,
        },
        RuntimeSignalSpec {
            name: "TERM",
            number: 15,
            handler_var: "_TRAP_SIG_TERM",
            ignore_var: "_TRAP_IGNORE_SIG_TERM",
            default_action: SignalDefaultAction::Terminate,
            trappable: true,
        },
        RuntimeSignalSpec {
            name: "CHLD",
            number: 17,
            handler_var: "_TRAP_SIG_CHLD",
            ignore_var: "_TRAP_IGNORE_SIG_CHLD",
            default_action: SignalDefaultAction::Ignore,
            trappable: true,
        },
        RuntimeSignalSpec {
            name: "CONT",
            number: 18,
            handler_var: "_TRAP_SIG_CONT",
            ignore_var: "_TRAP_IGNORE_SIG_CONT",
            default_action: SignalDefaultAction::ContinueLike,
            trappable: true,
        },
        RuntimeSignalSpec {
            name: "STOP",
            number: 19,
            handler_var: "_TRAP_SIG_STOP",
            ignore_var: "_TRAP_IGNORE_SIG_STOP",
            default_action: SignalDefaultAction::StopLike,
            trappable: false,
        },
        RuntimeSignalSpec {
            name: "TSTP",
            number: 20,
            handler_var: "_TRAP_SIG_TSTP",
            ignore_var: "_TRAP_IGNORE_SIG_TSTP",
            default_action: SignalDefaultAction::StopLike,
            trappable: true,
        },
        RuntimeSignalSpec {
            name: "TTIN",
            number: 21,
            handler_var: "_TRAP_SIG_TTIN",
            ignore_var: "_TRAP_IGNORE_SIG_TTIN",
            default_action: SignalDefaultAction::StopLike,
            trappable: true,
        },
        RuntimeSignalSpec {
            name: "TTOU",
            number: 22,
            handler_var: "_TRAP_SIG_TTOU",
            ignore_var: "_TRAP_IGNORE_SIG_TTOU",
            default_action: SignalDefaultAction::StopLike,
            trappable: true,
        },
        RuntimeSignalSpec {
            name: "WINCH",
            number: 28,
            handler_var: "_TRAP_SIG_WINCH",
            ignore_var: "_TRAP_IGNORE_SIG_WINCH",
            default_action: SignalDefaultAction::Ignore,
            trappable: true,
        },
    ]
}

/// The signals that the runtime knows, by number.
pub fn runtime_signal_specs() -> (r: Vec<RuntimeSignalSpec>)
    ensures
        r@ == signal_specs(),
{
    let v: Vec<RuntimeSignalSpec> = vec![
        RuntimeSignalSpec {
            name: "HUP",
            number: 1,
            handler_var: "_TRAP_SIG_HUP",
            ignore_var: "_TRAP_IGNORE_SIG_HUP",
            default_action: SignalDefaultAction::Terminate,
            trappable: true,
        },
        RuntimeSignalSpec {
            name: "INT",
            number: 2,
            handler_var: "_TRAP_SIG_INT",
            ignore_var: "_TRAP_IGNORE_SIG_INT",
            default_action: SignalDefaultAction::Terminate,
            trappable: true,
        },
        RuntimeSignalSpec {
            name: "QUIT",
            number: 3,
            handler_var: "_TRAP_SIG_QUIT",
            ignore_var: "_TRAP_IGNORE_SIG_QUIT",
            default_action: SignalDefaultAction::Terminate,
            trappable: true,
        },
        RuntimeSignalSpec {
            name: "ILL",
            number: 4,
            handler_var: "_TRAP_SIG_ILL",
            ignore_var: "_TRAP_IGNORE_SIG_ILL",
            default_action: SignalDefaultAction::Terminate,
            trappable: true,
        },
        RuntimeSignalSpec {
            name: "ABRT",
            number: 6,
            handler_var: "_TRAP_SIG_ABRT",
            ignore_var: "_TRAP_IGNORE_SIG_ABRT",
            default_action: SignalDefaultAction::Terminate,
            trappable: true,
        },
        RuntimeSignalSpec {
            name: "FPE",
            number: 8,
            handler_var: "_TRAP_SIG_FPE",
            ignore_var: "_TRAP_IGNORE_SIG_FPE",
            default_action: SignalDefaultAction::Terminate,
            trappable: true,
        },
        RuntimeSignalSpec {
            name: "KILL",
            number: 9,
            handler_var: "_TRAP_SIG_KILL",
            ignore_var: "_TRAP_IGNORE_SIG_KILL",
            default_action: SignalDefaultAction::Terminate,
            trappable: false,
        },
        RuntimeSignalSpec {
            name: "USR1",
            number: 10,
            handler_var: "_TRAP_SIG_USR1",
            ignore_var: "_TRAP_IGNORE_SIG_USR1",
            default_action: SignalDefaultAction::Terminate,
            trappable: true,
        },
        RuntimeSignalSpec {
            name: "SEGV",
            number: 11,
            handler_var: "_TRAP_SIG_SEGV",
            ignore_var: "_TRAP_IGNORE_SIG_SEGV",
            default_action: SignalDefaultAction::Terminate,
            trappable: true,
        },
        RuntimeSignalSpec {
            name: "USR2",
            number: 12,
            handler_var: "_TRAP_SIG_USR2",
            ignore_var: "_TRAP_IGNORE_SIG_USR2",
            default_action: SignalDefaultAction::Terminate,
            trappable: true,
        },
        RuntimeSignalSpec {
            name: "PIPE",
            number: 13,
            handler_var: "_TRAP_SIG_PIPE",
            ignore_var: "_TRAP_IGNORE_SIG_PIPE",
            default_action: SignalDefaultAction::Terminate,
            trappable: true,
        },
        RuntimeSignalSpec {
            name: "ALRM",
            number: 14,
            handler_var: "_TRAP_SIG_ALRM",
            ignore_var: "_TRAP_IGNORE_SIG_ALRM",
            default_action: SignalDefaultAction::Terminate,
            trappable: true,
        },
        RuntimeSignalSpec {
            name: "TERM",
            number: 15,
            handler_var: "_TRAP_SIG_TERM",
            ignore_var: "_TRAP_IGNORE_SIG_TERM",
            default_action: SignalDefaultAction::Terminate,
            trappable: true,
        },
        RuntimeSignalSpec {
            name: "CHLD",
            number: 17,
            handler_var: "_TRAP_SIG_CHLD",
            ignore_var: "_TRAP_IGNORE_SIG_CHLD",
            default_action: SignalDefaultAction::Ignore,
            trappable: true,
        },
        RuntimeSignalSpec {
            name: "CONT",
            number: 18,
            handler_var: "_TRAP_SIG_CONT",
            ignore_var: "_TRAP_IGNORE_SIG_CONT",
            default_action: SignalDefaultAction::ContinueLike,
            trappable: true,
        },
        RuntimeSignalSpec {
            name: "STOP",
            number: 19,
            handler_var: "_TRAP_SIG_STOP",
            ignore_var: "_TRAP_IGNORE_SIG_STOP",
            default_action: SignalDefaultAction::StopLike,
            trappable: false,
        },
        RuntimeSignalSpec {
            name: "TSTP",
            number: 20,
            handler_var: "_TRAP_SIG_TSTP",
            ignore_var: "_TRAP_IGNORE_SIG_TSTP",
            default_action: SignalDefaultAction::StopLike,
            trappable: true,
        },
        RuntimeSignalSpec {
            name: "TTIN",
            number: 21,
            handler_var: "_TRAP_SIG_TTIN",
            ignore_var: "_TRAP_IGNORE_SIG_TTIN",
            default_action: SignalDefaultAction::StopLike,
            trappable: true,
        },
        RuntimeSignalSpec {
            name: "TTOU",
            number: 22,
            handler_var: "_TRAP_SIG_TTOU",
            ignore_var: "_TRAP_IGNORE_SIG_TTOU",
            default_action: SignalDefaultAction::StopLike,
            trappable: true,
        },
        RuntimeSignalSpec {
            name: "WINCH",
            number: 28,
            handler_var: "_TRAP_SIG_WINCH",
            ignore_var: "_TRAP_IGNORE_SIG_WINCH",
            default_action: SignalDefaultAction::Ignore,
            trappable: true,
        },
    ];
    assert(v@ =~= signal_specs());
    v
}

/// A signal's name without a leading `SIG`, in upper case.
pub open spec fn normalized_signal(name: Seq<char>) -> Seq<char> {
    upper_ascii(
        if starts_with(name, "SIG"@) {
            name.skip(3)
        } else {
            name
        },
    )
}

/// Whether a signal is the one that `name` asks for: by its number where `name` is a number,
/// else by its name.
pub open spec fn signal_answers(spec: RuntimeSignalSpec, name: Seq<char>) -> bool {
    match parse_signed(name, i32::MIN as int, i32::MAX as int) {
        Some(n) => spec.number == n,
        None => spec.name@ == normalized_signal(name),
    }
}

/// No two signals have the same number, so a number asks for one signal at most.
pub proof fn law_signal_numbers_distinct(i: int, j: int)
    requires
        0 <= i < j < signal_specs().len(),
    ensures
        signal_specs()[i].number < signal_specs()[j].number,
{
    assert(signal_specs().len() == 20);
}

/// Finds a signal by a decimal number or by a name with or without `SIG` in front.
pub fn find_runtime_signal_spec(name: &str) -> (r: Option<RuntimeSignalSpec>)
    ensures
        match r {
            Some(spec) => exists|i: int|
                0 <= i < signal_specs().len() && #[trigger] signal_specs()[i] == spec
                    && signal_answers(spec, name@) && forall|j: int|
                    0 <= j < i ==> !signal_answers(#[trigger] signal_specs()[j], name@),
            None => forall|i: int|
                0 <= i < signal_specs().len() ==> !signal_answers(
                    #[trigger] signal_specs()[i],
                    name@,
                ),
        },
{
    let specs = runtime_signal_specs();
    let number = parse_i64(name, i32::MIN as i64, i32::MAX as i64);
    proof {
        reveal_strlit("SIG");
    }
    let chars = chars_of(name);
    let base = if str_starts_with(name, "SIG") {
        let tail = vstd::slice::slice_subrange(chars.as_slice(), 3, chars.len());
        assert(tail@ =~= name@.skip(3));
        string_of(tail)
    } else {
        name.to_owned()
    };
    let normalized = to_upper_ascii(base.as_str());
    let mut i: usize = 0;
    while i < specs.len()
        invariant
            i <= specs@.len(),
            specs@ == signal_specs(),
            normalized@ == normalized_signal(name@),
            match number {
                Some(v) => parse_signed(name@, i32::MIN as int, i32::MAX as int) == Some(v as int),
                None => parse_signed(name@, i32::MIN as int, i32::MAX as int) is None,
            },
            forall|j: int| 0 <= j < i ==> !signal_answers(#[trigger] signal_specs()[j], name@),
        decreases specs@.len() - i,
    {
        let spec: RuntimeSignalSpec = specs[i];
        assert(signal_specs()[i as int] == spec);
        let found: bool = match number {
            Some(n) => spec.number as i64 == n,
            None => str_eq(spec.name, normalized.as_str()),
        };
        if found {
            return Some(spec);
        }
        i = i + 1;
    }
    None
}

} // verus!
