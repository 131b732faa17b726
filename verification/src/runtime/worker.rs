//! The runtime as its host sees it: commands come in, answers go out, and what only the outside
//! can do (parse, run a command, reach the files) is asked for step by step.
use crate::fd_table::ExecIo;
use crate::runtime::config::{BrowserConfig, MAX_RECURSION_DEPTH};
use crate::runtime::flow::{
    errexit_applies, line_number_for_offset, prefix_of, should_errexit, undisturbed, AndOrShape,
    ExecState,
};
use crate::runtime::output::{
    resumed, silent, BudgetCategory, Console, ConsoleView, ExhaustionReason, StopReason,
};
use crate::runtime::protocol::{
    append_events, buffer_event, diagnostic, events_of, law_polling_matches_running,
    lemma_events_push, no_yields, notes_of, parse_error_event, parse_error_text, poll_events,
    polled_answer, push_buffer_event, push_diagnostics, run_answer, single, Diagnostic,
    DiagnosticLevel, EventView, ExecutionPoll, HostCommand, WorkerEvent,
};
use crate::runtime::run::{
    advanced, lists_left, run_done, run_ok, spans_ok, ActiveRun, CommandSpan,
};
use crate::runtime::signal::{is_effect, nonempty_var, signal_effect, text_in, SignalEffect};
use crate::signals::{find_runtime_signal_spec, signal_answers, signal_specs, RuntimeSignalSpec};
use crate::state::{
    assign_plain, chain_end, chain_ends, same_but_env, ShellState,
};
use crate::stream::wc::newline_count;
use crate::vars::{assoc_entries, assoc_new, plain_var, EnvView, ValueView, VarView};
use crate::views::strs;
use indexmap::IndexMap;
use vstd::prelude::*;
use vstd::utf8::encode_utf8;

verus! {

/// The runtime.
#[derive(Debug)]
pub struct WorkerRuntime {
    pub config: BrowserConfig,
    pub initialized: bool,
    pub state: ShellState,
    pub console: Console,
    pub flow: ExecState,
    pub aliases: IndexMap<String, String>,
    pub current_exec_io: Option<ExecIo>,
    /// The script that runs.
    pub active_run: Option<ActiveRun>,
    /// Messages that wait for the host.
    pub diagnostics: Vec<Diagnostic>,
    pub cancelled: bool,
    /// What the host is told to be spoken.
    pub protocol_version: String,
}

/// What is asked of the outside to answer a command.
#[derive(Debug)]
pub enum Request {
    /// The answer is known.
    Reply(Vec<WorkerEvent>),
    /// The files and the functions start afresh, then this is the answer.
    Restart(Vec<WorkerEvent>),
    /// The script is to be parsed and taken on; then it runs to its end or is left to be polled.
    Start { input: String, to_end: bool },
    /// The script that runs is to be polled once.
    Poll,
    /// The handler of a signal is to run; what it prints is the answer.
    RunHandler(String),
    /// The shell is to end: the exit trap runs and the status is the answer.
    Finish,
    ReadFile { path: String },
    WriteFile { path: String, data: Vec<u8> },
    ListDir { path: String },
}

/// The variables of a shell that has just started: the options that are on by default.
pub open spec fn initial_env() -> EnvView {
    seq![
        seq![
            ("SHOPT_extglob"@, plain_var(ValueView::Scalar("1"@))),
            ("SHOPT_expand_aliases"@, plain_var(ValueView::Scalar("1"@))),
        ],
    ]
}

/// The script that runs, if any, is at a place of its own.
pub open spec fn worker_ok(w: WorkerRuntime) -> bool {
    w.active_run matches Some(run) ==> run_ok(run)
}

/// A message alone, as an answer.
pub open spec fn note(level: DiagnosticLevel, message: Seq<char>) -> Seq<EventView> {
    seq![EventView::Diagnostic(level, message)]
}

/// Whether a request answers with these events and nothing else.
pub open spec fn replies(r: Request, events: Seq<EventView>) -> bool {
    r matches Request::Reply(v) && events_of(v@) == events
}

/// The message on a signal that would stop a job.
pub open spec fn stop_message(name: Seq<char>) -> Seq<char> {
    "signal "@ + name + ": job-control stop semantics are not supported"@
}

/// The message on a signal that ends a running script.
pub open spec fn terminate_message(name: Seq<char>) -> Seq<char> {
    "signal "@ + name + " received"@
}

/// Whether no signal of this name is known.
pub open spec fn unknown_signal(signal: Seq<char>) -> bool {
    forall|i: int|
        0 <= i < signal_specs().len() ==> !signal_answers(#[trigger] signal_specs()[i], signal)
}

/// Whether a signal is the first of the known ones that has this name.
pub open spec fn names_signal(spec: RuntimeSignalSpec, signal: Seq<char>) -> bool {
    exists|i: int|
        0 <= i < signal_specs().len() && #[trigger] signal_specs()[i] == spec && signal_answers(
            spec,
            signal,
        ) && forall|j: int| 0 <= j < i ==> !signal_answers(#[trigger] signal_specs()[j], signal)
}

/// What a known signal asks for, with the exit that it requests.
pub open spec fn signal_answer(
    w: WorkerRuntime,
    spec: RuntimeSignalSpec,
    r: Request,
    exit: Option<i32>,
) -> bool {
    exists|effect: SignalEffect|
        #![trigger is_effect(w.state.env@, strs(w.state.positional@), spec, effect)]
        is_effect(w.state.env@, strs(w.state.positional@), spec, effect) && match effect {
            SignalEffect::Nothing => replies(r, Seq::empty()) && exit == w.flow.exit_requested,
            SignalEffect::Handler(h) => r == Request::RunHandler(h) && exit
                == w.flow.exit_requested,
            SignalEffect::Stop => replies(
                r,
                note(DiagnosticLevel::Warning, stop_message(spec.name@)),
            ) && exit == w.flow.exit_requested,
            SignalEffect::Terminate(status) => exit == Some(status) && if w.active_run is Some {
                replies(r, note(DiagnosticLevel::Info, terminate_message(spec.name@)))
            } else {
                r is Finish
            },
        }
}

/// Whether a shell has run nothing: no arguments, no status, no line, no calls, and the seed of a
/// new shell.
pub open spec fn is_idle(s: ShellState) -> bool {
    &&& s.positional@.len() == 0
    &&& s.last_status == 0
    &&& s.cwd@ == "/"@
    &&& s.lineno == 0
    &&& s.random_seed == 12345
    &&& s.func_stack@.len() == 0
    &&& s.source_stack@.len() == 0
}

/// The runtime after `init`: everything is new but the limits of the configuration.
pub open spec fn restarted(
    before: WorkerRuntime,
    after: WorkerRuntime,
    step_budget: u64,
    hosts: Seq<Seq<char>>,
) -> bool {
    &&& after.config.step_budget == step_budget
    &&& strs(after.config.allowed_hosts@) == hosts
    &&& after.config == (BrowserConfig {
        step_budget,
        allowed_hosts: after.config.allowed_hosts,
        ..before.config
    })
    &&& after.initialized
    &&& after.state.env@ == initial_env()
    &&& is_idle(after.state)
    &&& after.console@ == silent(before.config.output_byte_limit as nat)
    &&& undisturbed(after.flow)
    &&& after.flow.local_save_stack == before.flow.local_save_stack
    &&& after.flow.recursion_depth == before.flow.recursion_depth
    &&& assoc_entries(after.aliases) == Seq::<(Seq<char>, Seq<char>)>::empty()
    &&& after.current_exec_io is None
    &&& after.active_run is None
    &&& after.diagnostics@.len() == 0
    &&& !after.cancelled
    &&& after.protocol_version == before.protocol_version
}

/// A shell with the options that are on by default.
fn initial_state() -> (r: ShellState)
    ensures
        r.env@ == initial_env(),
        is_idle(r),
{
    let mut state = ShellState::new();
    proof {
        reveal_strlit("SHOPT_");
        reveal_strlit("SHOPT_extglob");
        reveal_strlit("SHOPT_expand_aliases");
        reveal_with_fuel(crate::entries::key_index, 3);
        reveal_with_fuel(crate::vars::scope_of, 3);
        let e = "SHOPT_extglob"@;
        let a = "SHOPT_expand_aliases"@;
        assert(e.len() != a.len());
        assert(crate::text::starts_with(e, "SHOPT_"@)) by {
            assert(e.take(6) =~= "SHOPT_"@);
        }
        assert(crate::text::starts_with(a, "SHOPT_"@)) by {
            assert(a.take(6) =~= "SHOPT_"@);
        }
        assert(crate::state::follow(state.env@, e, 0) == Some(e));
        crate::state::lemma_chain_end(state.env@, e, 0);
    }
    let ghost one = seq![seq![("SHOPT_extglob"@, plain_var(ValueView::Scalar("1"@)))]];
    state.set_var("SHOPT_extglob".to_owned(), "1".to_owned());
    proof {
        let a = "SHOPT_expand_aliases"@;
        assert(state.env@ =~= one);
        assert(one[0].drop_first() =~= Seq::<(Seq<char>, VarView)>::empty());
        assert(!crate::entries::has_key(one[0], a));
        assert(one.drop_last() =~= Seq::<Seq<(Seq<char>, VarView)>>::empty());
        assert(crate::vars::lookup(one, a) is None);
        assert(crate::state::follow(state.env@, a, 0) == Some(a));
        crate::state::lemma_chain_end(state.env@, a, 0);
    }
    state.set_var("SHOPT_expand_aliases".to_owned(), "1".to_owned());
    proof {
        assert(state.env@[0] =~= initial_env()[0]);
        assert(state.env@ =~= initial_env());
    }
    state
}

/// The answers that hand out what has been printed: standard output, then standard error.
pub open spec fn output_events(c: ConsoleView) -> Seq<EventView> {
    buffer_event(c.stdout, true) + buffer_event(c.stderr, false)
}

/// The output after the host was handed what has been printed.
pub open spec fn drained(c: ConsoleView) -> ConsoleView {
    ConsoleView { stdout: Seq::empty(), stderr: Seq::empty(), ..c }
}

/// Why an execution that hit a limit stopped: the reason that is known, else that it was
/// cancelled, else what the budget says, else that there was too much output.
pub open spec fn stop_reason_of(
    c: ConsoleView,
    cancelled: bool,
    budget: Option<StopReason>,
) -> Option<StopReason> {
    if !c.resource_exhausted || c.stop_reason is Some {
        c.stop_reason
    } else if cancelled {
        Some(StopReason::Cancelled)
    } else if budget is Some {
        budget
    } else if c.output_limit > 0 && c.output_bytes > c.output_limit {
        Some(
            StopReason::Exhausted(
                ExhaustionReason {
                    category: BudgetCategory::VisibleOutputBytes,
                    used: c.output_bytes as u64,
                    limit: c.output_limit as u64,
                },
            ),
        )
    } else {
        None
    }
}

/// The status that a run ends with: 130 when it was cancelled, 128 when a limit was hit, else
/// that of `exit`, else that of the last command.
pub open spec fn exit_status_of(c: ConsoleView, exit: Option<i32>, last_status: i32) -> i32 {
    if c.resource_exhausted {
        if c.stop_reason == Some(StopReason::Cancelled) {
            130
        } else {
            128
        }
    } else {
        match exit {
            Some(code) => code,
            None => last_status,
        }
    }
}

/// One poll of a running script.
#[derive(Debug)]
pub struct Poll {
    /// How many lists it may still run.
    pub remaining: usize,
    /// Whether the script has ended.
    pub finished: bool,
}

/// The list that a poll is to run next.
#[derive(Clone, Copy, Debug, PartialEq, Eq, Structural)]
pub struct StepTarget {
    pub item: usize,
    pub list: usize,
}

/// Whether a line number fits.
pub open spec fn line_fits(run: ActiveRun) -> bool {
    newline_count(
        prefix_of(run.input@, run.items@[run.complete_index as int].start as int),
    ) < u32::MAX
}

impl WorkerRuntime {
    /// A runtime that has not been initialised.
    pub fn new(protocol_version: String) -> (r: WorkerRuntime)
        ensures
            !r.initialized,
            r.config.step_budget == 100_000,
            r.config.allowed_hosts@.len() == 0,
            r.config.output_byte_limit == 0,
            r.config.pipe_byte_limit == 0,
            r.config.recursion_limit == MAX_RECURSION_DEPTH,
            r.config.vm_subset_enabled,
            r.state.env@ == seq![Seq::<(Seq<char>, VarView)>::empty()],
            is_idle(r.state),
            r.console@ == silent(0),
            undisturbed(r.flow),
            r.flow.local_save_stack@.len() == 0,
            r.flow.recursion_depth == 0,
            r.active_run is None,
            r.current_exec_io is None,
            assoc_entries(r.aliases) == Seq::<(Seq<char>, Seq<char>)>::empty(),
            r.diagnostics@.len() == 0,
            !r.cancelled,
            r.protocol_version == protocol_version,
            worker_ok(r),
    {
        WorkerRuntime {
            config: BrowserConfig::default(),
            initialized: false,
            state: ShellState::new(),
            console: Console::new(0),
            flow: ExecState::new(),
            aliases: assoc_new(),
            current_exec_io: None,
            active_run: None,
            diagnostics: Vec::new(),
            cancelled: false,
            protocol_version,
        }
    }

    /// Limits the visible output; zero for no limit.
    pub fn set_output_byte_limit(&mut self, limit: u64)
        ensures
            final(self).console@ == (ConsoleView {
                output_limit: limit as nat,
                ..old(self).console@
            }),
            *final(self) == (WorkerRuntime {
                config: BrowserConfig { output_byte_limit: limit, ..old(self).config },
                console: final(self).console,
                ..*old(self)
            }),
    {
        self.config.output_byte_limit = limit;
        self.console.output_limit = limit;
    }

    /// Limits the bytes in pipes; zero for no limit.
    pub fn set_pipe_byte_limit(&mut self, limit: u64)
        ensures
            *final(self) == (WorkerRuntime {
                config: BrowserConfig { pipe_byte_limit: limit, ..old(self).config },
                ..*old(self)
            }),
    {
        self.config.pipe_byte_limit = limit;
    }

    /// Limits the nesting of `eval`, `source` and command substitution.
    pub fn set_recursion_limit(&mut self, limit: u32)
        ensures
            *final(self) == (WorkerRuntime {
                config: BrowserConfig { recursion_limit: limit, ..old(self).config },
                ..*old(self)
            }),
    {
        self.config.recursion_limit = limit;
    }

    /// Lets simple commands take the fast path, or not.
    pub fn set_vm_subset_enabled(&mut self, enabled: bool)
        ensures
            *final(self) == (WorkerRuntime {
                config: BrowserConfig { vm_subset_enabled: enabled, ..old(self).config },
                ..*old(self)
            }),
    {
        self.config.vm_subset_enabled = enabled;
    }

    /// Asks the script that runs to stop.
    pub fn cancel_active_execution(&mut self)
        ensures
            *final(self) == (WorkerRuntime { cancelled: true, ..*old(self) }),
    {
        self.cancelled = true;
    }

    /// Takes a command of the host: answers it, or says what is needed to answer it.
    pub fn handle_command(&mut self, cmd: HostCommand) -> (r: Request)
        requires
            worker_ok(*old(self)),
        ensures
            worker_ok(*final(self)),
            match cmd {
                HostCommand::Init { step_budget, allowed_hosts } => {
                    &&& restarted(*old(self), *final(self), step_budget, strs(allowed_hosts@))
                    &&& r matches Request::Restart(v) && events_of(v@) == seq![
                        EventView::Version(old(self).protocol_version@),
                    ]
                },
                HostCommand::Run { input } => {
                    &&& *final(self) == *old(self)
                    &&& if old(self).initialized {
                        r == (Request::Start { input, to_end: true })
                    } else {
                        replies(r, note(DiagnosticLevel::Error, "runtime not initialized"@))
                    }
                },
                HostCommand::StartRun { input } => {
                    &&& *final(self) == *old(self)
                    &&& if old(self).initialized {
                        r == (Request::Start { input, to_end: false })
                    } else {
                        replies(r, note(DiagnosticLevel::Error, "runtime not initialized"@))
                    }
                },
                HostCommand::PollRun => *final(self) == *old(self) && r is Poll,
                HostCommand::Cancel => {
                    &&& *final(self) == (WorkerRuntime { cancelled: true, ..*old(self) })
                    &&& replies(r, note(DiagnosticLevel::Info, "cancel received"@))
                },
                HostCommand::Signal { signal } => {
                    &&& *final(self) == (WorkerRuntime {
                        flow: ExecState {
                            exit_requested: final(self).flow.exit_requested,
                            ..old(self).flow
                        },
                        ..*old(self)
                    })
                    &&& if !old(self).initialized {
                        replies(r, note(DiagnosticLevel::Error, "runtime not initialized"@))
                            && *final(self) == *old(self)
                    } else if unknown_signal(signal@) {
                        replies(r, note(DiagnosticLevel::Error, "unknown signal: "@ + signal@))
                            && *final(self) == *old(self)
                    } else {
                        exists|spec: RuntimeSignalSpec|
                            #[trigger] names_signal(spec, signal@) && signal_answer(
                                *old(self),
                                spec,
                                r,
                                final(self).flow.exit_requested,
                            )
                    }
                },
                HostCommand::ReadFile { path } => *final(self) == *old(self) && r
                    == (Request::ReadFile { path }),
                HostCommand::WriteFile { path, data } => *final(self) == *old(self) && r
                    == (Request::WriteFile { path, data }),
                HostCommand::ListDir { path } => *final(self) == *old(self) && r
                    == (Request::ListDir { path }),
                HostCommand::Mount { path } => *final(self) == *old(self) && replies(
                    r,
                    note(DiagnosticLevel::Warning, "mount not yet implemented"@),
                ),
                HostCommand::Unknown => *final(self) == *old(self) && replies(
                    r,
                    note(DiagnosticLevel::Warning, "unknown command"@),
                ),
            },
    {
        match cmd {
            HostCommand::Init { step_budget, allowed_hosts } => {
                self.restart(step_budget, allowed_hosts);
                Request::Restart(single(WorkerEvent::Version(self.protocol_version.clone())))
            },
            HostCommand::Run { input } => {
                if !self.initialized {
                    return Request::Reply(
                        diagnostic(DiagnosticLevel::Error, "runtime not initialized"),
                    );
                }
                Request::Start { input, to_end: true }
            },
            HostCommand::StartRun { input } => {
                if !self.initialized {
                    return Request::Reply(
                        diagnostic(DiagnosticLevel::Error, "runtime not initialized"),
                    );
                }
                Request::Start { input, to_end: false }
            },
            HostCommand::PollRun => Request::Poll,
            HostCommand::Cancel => {
                self.cancel_active_execution();
                Request::Reply(diagnostic(DiagnosticLevel::Info, "cancel received"))
            },
            HostCommand::Signal { signal } => self.deliver_signal(signal.as_str()),
            HostCommand::ReadFile { path } => Request::ReadFile { path },
            HostCommand::WriteFile { path, data } => Request::WriteFile { path, data },
            HostCommand::ListDir { path } => Request::ListDir { path },
            HostCommand::Mount { path: _ } => Request::Reply(
                diagnostic(DiagnosticLevel::Warning, "mount not yet implemented"),
            ),
            HostCommand::Unknown => Request::Reply(
                diagnostic(DiagnosticLevel::Warning, "unknown command"),
            ),
        }
    }

    /// Starts afresh.
    fn restart(&mut self, step_budget: u64, allowed_hosts: Vec<String>)
        ensures
            restarted(*old(self), *final(self), step_budget, strs(allowed_hosts@)),
    {
        self.config.step_budget = step_budget;
        self.config.allowed_hosts = allowed_hosts;
        self.state = initial_state();
        self.console = Console::new(self.config.output_byte_limit);
        self.current_exec_io = None;
        self.flow.reset();
        self.aliases = assoc_new();
        self.active_run = None;
        self.diagnostics = Vec::new();
        self.cancelled = false;
        self.initialized = true;
    }

    /// Takes a signal: its handler is to run, the shell is to end, or nothing happens.
    fn deliver_signal(&mut self, signal: &str) -> (r: Request)
        ensures
            *final(self) == (WorkerRuntime {
                flow: ExecState {
                    exit_requested: final(self).flow.exit_requested,
                    ..old(self).flow
                },
                ..*old(self)
            }),
            if !old(self).initialized {
                replies(r, note(DiagnosticLevel::Error, "runtime not initialized"@))
                    && *final(self) == *old(self)
            } else if unknown_signal(signal@) {
                replies(r, note(DiagnosticLevel::Error, "unknown signal: "@ + signal@))
                    && *final(self) == *old(self)
            } else {
                exists|spec: RuntimeSignalSpec|
                    #[trigger] names_signal(spec, signal@) && signal_answer(
                        *old(self),
                        spec,
                        r,
                        final(self).flow.exit_requested,
                    )
            },
    {
        if !self.initialized {
            return Request::Reply(diagnostic(DiagnosticLevel::Error, "runtime not initialized"));
        }
        let spec = match find_runtime_signal_spec(signal) {
            Some(spec) => spec,
            None => {
                let message = "unknown signal: ".to_owned().concat(signal);
                return Request::Reply(diagnostic(DiagnosticLevel::Error, message.as_str()));
            },
        };
        proof {
            let i = choose|i: int|
                0 <= i < signal_specs().len() && #[trigger] signal_specs()[i] == spec
                    && signal_answers(spec, signal@) && forall|j: int|
                    0 <= j < i ==> !signal_answers(#[trigger] signal_specs()[j], signal@);
            crate::runtime::signal::lemma_signal_number(i);
            assert(names_signal(spec, signal@));
        }
        let effect = signal_effect(&self.state, &spec);
        let ghost e = effect;
        let ghost w = *self;
        assert(is_effect(w.state.env@, strs(w.state.positional@), spec, e));
        match effect {
            SignalEffect::Nothing => {
                let events: Vec<WorkerEvent> = Vec::new();
                assert(events_of(events@) =~= Seq::empty());
                Request::Reply(events)
            },
            SignalEffect::Handler(h) => Request::RunHandler(h),
            SignalEffect::Stop => {
                let message = "signal ".to_owned().concat(spec.name).concat(
                    ": job-control stop semantics are not supported",
                );
                Request::Reply(diagnostic(DiagnosticLevel::Warning, message.as_str()))
            },
            SignalEffect::Terminate(status) => {
                self.flow.exit_requested = Some(status);
                if self.active_run.is_some() {
                    let message = "signal ".to_owned().concat(spec.name).concat(" received");
                    Request::Reply(diagnostic(DiagnosticLevel::Info, message.as_str()))
                } else {
                    Request::Finish
                }
            },
        }
    }

    /// Takes a script on, given what it was parsed into, or says why not.
    pub fn start_execution(
        &mut self,
        input: String,
        program: Result<Vec<CommandSpan>, String>,
    ) -> (r: Result<(), Vec<WorkerEvent>>)
        requires
            worker_ok(*old(self)),
            program matches Ok(items) ==> spans_ok(items@),
        ensures
            worker_ok(*final(self)),
            if !old(self).initialized {
                &&& r matches Err(v) && events_of(v@) == note(
                    DiagnosticLevel::Error,
                    "runtime not initialized"@,
                )
                &&& *final(self) == *old(self)
            } else if old(self).active_run is Some {
                &&& r matches Err(v) && events_of(v@) == note(
                    DiagnosticLevel::Error,
                    "execution already active"@,
                )
                &&& *final(self) == *old(self)
            } else {
                match program {
                    Err(e) => {
                        &&& r matches Err(v) && events_of(v@) == seq![
                            EventView::Stderr(encode_utf8(parse_error_text(e@))),
                            EventView::Exit(2),
                        ]
                        &&& *final(self) == (WorkerRuntime {
                            state: ShellState { last_status: 2, ..old(self).state },
                            ..*old(self)
                        })
                    },
                    Ok(items) => {
                        &&& r is Ok
                        &&& final(self).active_run == Some(
                            ActiveRun { input, items, complete_index: 0, and_or_index: 0 },
                        )
                        &&& undisturbed(final(self).flow)
                        &&& final(self).flow.local_save_stack == old(self).flow.local_save_stack
                        &&& final(self).flow.recursion_depth == old(self).flow.recursion_depth
                        &&& final(self).console@ == resumed(old(self).console@)
                        &&& *final(self) == (WorkerRuntime {
                            active_run: final(self).active_run,
                            flow: final(self).flow,
                            console: final(self).console,
                            current_exec_io: None,
                            cancelled: false,
                            ..*old(self)
                        })
                    },
                }
            },
    {
        if !self.initialized {
            return Err(diagnostic(DiagnosticLevel::Error, "runtime not initialized"));
        }
        if self.active_run.is_some() {
            return Err(diagnostic(DiagnosticLevel::Error, "execution already active"));
        }
        match program {
            Err(e) => {
                self.state.last_status = 2;
                let mut events: Vec<WorkerEvent> = Vec::new();
                events.push(parse_error_event(e.as_str()));
                events.push(WorkerEvent::Exit(2));
                proof {
                    assert(events_of(events@) =~= seq![
                        EventView::Stderr(encode_utf8(parse_error_text(e@))),
                        EventView::Exit(2),
                    ]);
                }
                Err(events)
            },
            Ok(items) => {
                self.flow.reset();
                self.console.resume();
                self.current_exec_io = None;
                self.cancelled = false;
                self.active_run = Some(ActiveRun::new(input, items));
                Ok(())
            },
        }
    }

    /// The first answer to a script that was taken on to be polled.
    pub fn started_reply() -> (r: Vec<WorkerEvent>)
        ensures
            events_of(r@) == seq![EventView::Yielded],
    {
        single(WorkerEvent::Yielded)
    }

    /// Notes the outcome of beginning a step; `true` when the execution is to stop.
    pub fn check_resource_limits(&mut self, begun: Result<(), Option<StopReason>>) -> (r: bool)
        ensures
            r == (old(self).console.resource_exhausted || begun is Err),
            final(self).console@ == (if !old(self).console.resource_exhausted && begun is Err {
                ConsoleView {
                    resource_exhausted: true,
                    stop_reason: begun->Err_0,
                    ..old(self).console@
                }
            } else {
                old(self).console@
            }),
            *final(self) == (WorkerRuntime { console: final(self).console, ..*old(self) }),
    {
        if self.console.resource_exhausted {
            return true;
        }
        match begun {
            Ok(()) => false,
            Err(reason) => {
                self.console.resource_exhausted = true;
                self.console.stop_reason = reason;
                true
            },
        }
    }

    /// Begins a poll, where a script runs.
    pub fn poll_active_run(&self) -> (r: Option<Poll>)
        ensures
            match self.active_run {
                Some(run) => r == Some(
                    Poll {
                        remaining: if self.config.step_budget == 0 {
                            usize::MAX
                        } else {
                            self.config.step_budget as usize
                        },
                        finished: run_done(run),
                    },
                ),
                None => r is None,
            },
    {
        match &self.active_run {
            Some(run) => {
                let budget: u64 = self.config.step_budget;
                #[verifier::truncate]
                let steps: usize = budget as usize;
                Some(
                    Poll {
                        remaining: if budget == 0 {
                            usize::MAX
                        } else {
                            steps
                        },
                        finished: run.is_done(),
                    },
                )
            },
            None => None,
        }
    }

    /// Begins one step of a poll: the list to run, or nothing where the script is to end here.
    pub fn begin_step(&mut self, poll: &mut Poll, begun: Result<(), Option<StopReason>>) -> (r:
        Option<StepTarget>)
        requires
            worker_ok(*old(self)),
            old(self).active_run matches Some(run) && !run_done(run) && line_fits(run),
            old(poll).remaining > 0,
        ensures
            worker_ok(*final(self)),
            ({
                let stop = old(self).console.resource_exhausted || begun is Err
                    || old(self).flow.exit_requested is Some;
                let run = old(self).active_run->0;
                &&& final(poll).remaining == old(poll).remaining
                &&& if stop {
                    r is None && final(poll).finished && final(self).state == old(self).state
                } else {
                    &&& r == Some(
                        StepTarget { item: run.complete_index, list: run.and_or_index },
                    )
                    &&& final(poll).finished == old(poll).finished
                    &&& final(self).state == (ShellState {
                        lineno: (newline_count(
                            prefix_of(
                                run.input@,
                                run.items@[run.complete_index as int].start as int,
                            ),
                        ) + 1) as u32,
                        ..old(self).state
                    })
                }
            }),
            final(self).console@ == (if !old(self).console.resource_exhausted && begun is Err {
                ConsoleView {
                    resource_exhausted: true,
                    stop_reason: begun->Err_0,
                    ..old(self).console@
                }
            } else {
                old(self).console@
            }),
            *final(self) == (WorkerRuntime {
                console: final(self).console,
                state: final(self).state,
                ..*old(self)
            }),
    {
        if self.check_resource_limits(begun) || self.flow.exit_requested.is_some() {
            poll.finished = true;
            return None;
        }
        match &self.active_run {
            Some(run) => {
                let start: usize = run.items[run.complete_index].start;
                let line: u32 = line_number_for_offset(run.input.as_str(), start);
                self.state.lineno = line;
                Some(StepTarget { item: run.complete_index, list: run.and_or_index })
            },
            None => None,
        }
    }

    /// Ends one step of a poll, after its list was run: `set -e` may end the script, and the next
    /// list comes up.
    pub fn end_step(&mut self, poll: &mut Poll, shape: AndOrShape)
        requires
            worker_ok(*old(self)),
            old(self).active_run matches Some(run) && !run_done(run),
            old(poll).remaining > 0,
        ensures
            worker_ok(*final(self)),
            final(self).active_run is Some,
            advanced(old(self).active_run->0, final(self).active_run->0),
            lists_left(final(self).active_run->0) == lists_left(old(self).active_run->0) - 1,
            final(self).flow.exit_requested == (if errexit_applies(
                old(self).flow,
                old(self).state.env@,
                strs(old(self).state.positional@),
                old(self).state.last_status,
                shape,
            ) {
                Some(old(self).state.last_status)
            } else {
                old(self).flow.exit_requested
            }),
            *final(self) == (WorkerRuntime {
                active_run: final(self).active_run,
                flow: ExecState {
                    exit_requested: final(self).flow.exit_requested,
                    ..old(self).flow
                },
                ..*old(self)
            }),
            final(poll).remaining == old(poll).remaining - 1,
            final(poll).finished == (run_done(final(self).active_run->0)
                || final(self).flow.exit_requested is Some
                || final(self).console.resource_exhausted),
    {
        if should_errexit(&self.flow, &self.state, shape) {
            self.flow.exit_requested = Some(self.state.last_status);
        }
        let mut done: bool = true;
        match &mut self.active_run {
            Some(run) => {
                run.advance();
                done = run.is_done();
            },
            None => {},
        }
        poll.remaining = poll.remaining - 1;
        poll.finished = done || self.flow.exit_requested.is_some()
            || self.console.resource_exhausted;
    }

    /// The status that the run ends with.
    pub fn current_run_exit_status(&self) -> (r: i32)
        ensures
            r == exit_status_of(
                self.console@,
                self.flow.exit_requested,
                self.state.last_status,
            ),
    {
        if self.console.resource_exhausted {
            match self.console.stop_reason {
                Some(StopReason::Cancelled) => 130,
                _ => 128,
            }
        } else {
            match self.flow.exit_requested {
                Some(code) => code,
                None => self.state.last_status,
            }
        }
    }

    /// Finds out why an execution that hit a limit stopped.
    pub fn ensure_stop_reason(&mut self, budget: Option<StopReason>)
        ensures
            final(self).console@ == (ConsoleView {
                stop_reason: stop_reason_of(old(self).console@, old(self).cancelled, budget),
                ..old(self).console@
            }),
            *final(self) == (WorkerRuntime { console: final(self).console, ..*old(self) }),
    {
        if !self.console.resource_exhausted || self.console.stop_reason.is_some() {
            return;
        }
        if self.cancelled {
            self.console.stop_reason = Some(StopReason::Cancelled);
            return;
        }
        if budget.is_some() {
            self.console.stop_reason = budget;
            return;
        }
        let limit: u64 = self.console.output_limit;
        if limit > 0 && self.console.output_bytes > limit {
            self.console.stop_reason = Some(
                StopReason::Exhausted(
                    ExhaustionReason {
                        category: BudgetCategory::VisibleOutputBytes,
                        used: self.console.output_bytes,
                        limit,
                    },
                ),
            );
        }
    }

    /// Notes that pipes hold more than they may.
    pub fn note_pipe_bytes(&mut self, checked: Result<(), ExhaustionReason>, message: &str)
        ensures
            match checked {
                Err(reason) if !old(self).console.resource_exhausted => {
                    &&& final(self).console@ == (ConsoleView {
                        resource_exhausted: true,
                        stop_reason: Some(StopReason::Exhausted(reason)),
                        ..old(self).console@
                    })
                    &&& notes_of(final(self).diagnostics@) == notes_of(
                        old(self).diagnostics@,
                    ).push(EventView::Diagnostic(DiagnosticLevel::Error, message@))
                },
                _ => final(self).console@ == old(self).console@ && final(self).diagnostics
                    == old(self).diagnostics,
            },
            *final(self) == (WorkerRuntime {
                console: final(self).console,
                diagnostics: final(self).diagnostics,
                ..*old(self)
            }),
    {
        if self.console.resource_exhausted {
            return;
        }
        match checked {
            Ok(()) => {},
            Err(reason) => {
                self.console.resource_exhausted = true;
                self.console.stop_reason = Some(StopReason::Exhausted(reason));
                self.diagnostics.push(
                    Diagnostic { level: DiagnosticLevel::Error, message: message.to_owned() },
                );
                assert(notes_of(self.diagnostics@) =~= notes_of(old(self).diagnostics@).push(
                    EventView::Diagnostic(DiagnosticLevel::Error, message@),
                ));
            },
        }
    }

    /// Begins to end a run: why it stopped is noted, and then the exit trap is taken. Returns the
    /// exit that was asked for with the handler that is to run first, if there is one.
    pub fn leave_run(&mut self, budget: Option<StopReason>) -> (r: Option<(i32, String)>)
        requires
            chain_ends(old(self).state.env@, "_TRAP_EXIT"@),
        ensures
            final(self).console@ == (ConsoleView {
                stop_reason: stop_reason_of(old(self).console@, old(self).cancelled, budget),
                ..old(self).console@
            }),
            ({
                let handler = text_in(
                    old(self).state.env@,
                    strs(old(self).state.positional@),
                    "_TRAP_EXIT"@,
                );
                if old(self).flow.exit_requested is Some && handler is Some {
                    &&& r matches Some(h) && h.1@ == handler->0 && h.0 == old(
                        self,
                    ).flow.exit_requested->0
                    &&& final(self).state.env@ == assign_plain(
                        old(self).state.env@,
                        chain_end(old(self).state.env@, "_TRAP_EXIT"@),
                        Seq::empty(),
                    )
                    &&& same_but_env(final(self).state, old(self).state)
                    &&& final(self).flow == (ExecState {
                        exit_requested: None,
                        ..old(self).flow
                    })
                } else {
                    &&& r is None
                    &&& final(self).state == old(self).state
                    &&& final(self).flow == old(self).flow
                }
            }),
            *final(self) == (WorkerRuntime {
                console: final(self).console,
                state: final(self).state,
                flow: final(self).flow,
                ..*old(self)
            }),
    {
        self.ensure_stop_reason(budget);
        let asked: Option<i32> = self.flow.exit_requested;
        match (asked, self.take_exit_trap()) {
            (Some(code), Some(handler)) => Some((code, handler)),
            _ => None,
        }
    }

    /// Takes the handler of the exit trap, where the script asked to exit and there is one. The
    /// handler is forgotten, so that it runs once; while it runs no exit is asked for.
    pub fn take_exit_trap(&mut self) -> (r: Option<String>)
        requires
            chain_ends(old(self).state.env@, "_TRAP_EXIT"@),
        ensures
            ({
                let handler = text_in(
                    old(self).state.env@,
                    strs(old(self).state.positional@),
                    "_TRAP_EXIT"@,
                );
                if old(self).flow.exit_requested is Some && handler is Some {
                    &&& r matches Some(h) && h@ == handler->0
                    &&& final(self).state.env@ == assign_plain(
                        old(self).state.env@,
                        chain_end(old(self).state.env@, "_TRAP_EXIT"@),
                        Seq::empty(),
                    )
                    &&& same_but_env(final(self).state, old(self).state)
                    &&& final(self).flow == (ExecState {
                        exit_requested: None,
                        ..old(self).flow
                    })
                } else {
                    &&& r is None
                    &&& final(self).state == old(self).state
                    &&& final(self).flow == old(self).flow
                }
            }),
            *final(self) == (WorkerRuntime {
                state: final(self).state,
                flow: final(self).flow,
                ..*old(self)
            }),
    {
        if self.flow.exit_requested.is_none() {
            return None;
        }
        match nonempty_var(&self.state, "_TRAP_EXIT") {
            Some(handler) => {
                let empty = String::new();
                assert(empty@ =~= Seq::empty());
                self.state.set_var("_TRAP_EXIT".to_owned(), empty);
                self.flow.exit_requested = None;
                Some(handler)
            },
            None => None,
        }
    }

    /// Hands out what has been printed and the messages that wait.
    pub fn drain_events(&mut self) -> (r: Vec<WorkerEvent>)
        ensures
            events_of(r@) == output_events(old(self).console@) + notes_of(old(self).diagnostics@),
            no_yields(events_of(r@)),
            final(self).console@ == drained(old(self).console@),
            final(self).diagnostics@.len() == 0,
            *final(self) == (WorkerRuntime {
                console: final(self).console,
                diagnostics: final(self).diagnostics,
                ..*old(self)
            }),
    {
        let mut events = self.drain_io_events();
        let mut notes: Vec<Diagnostic> = Vec::new();
        std::mem::swap(&mut notes, &mut self.diagnostics);
        push_diagnostics(&mut events, notes);
        events
    }

    /// Hands out what has been printed.
    pub fn drain_io_events(&mut self) -> (r: Vec<WorkerEvent>)
        ensures
            events_of(r@) == output_events(old(self).console@),
            no_yields(events_of(r@)),
            final(self).console@ == drained(old(self).console@),
            *final(self) == (WorkerRuntime { console: final(self).console, ..*old(self) }),
    {
        let mut events: Vec<WorkerEvent> = Vec::new();
        let out = self.console.take_visible(true);
        push_buffer_event(&mut events, out, true);
        let err = self.console.take_visible(false);
        push_buffer_event(&mut events, err, false);
        proof {
            assert(events_of(events@) =~= output_events(old(self).console@));
        }
        events
    }

    /// Ends a run: what the exit trap printed, what else was printed, the messages, and the
    /// status. Where a trap ran, the exit that was asked for before it stands again.
    pub fn finish_run(&mut self, trap: Option<(i32, Vec<WorkerEvent>)>) -> (r: Vec<WorkerEvent>)
        requires
            trap matches Some(t) ==> no_yields(events_of(t.1@)),
        ensures
            ({
                let exit = match trap {
                    Some(t) => Some(t.0),
                    None => old(self).flow.exit_requested,
                };
                let first = match trap {
                    Some(t) => events_of(t.1@),
                    None => Seq::empty(),
                };
                &&& events_of(r@) == (first + output_events(old(self).console@) + notes_of(
                    old(self).diagnostics@,
                )).push(
                    EventView::Exit(
                        exit_status_of(old(self).console@, exit, old(self).state.last_status),
                    ),
                )
                &&& no_yields(events_of(r@))
                &&& final(self).console@ == drained(old(self).console@)
                &&& final(self).flow == (ExecState { exit_requested: exit, ..old(self).flow })
            }),
            final(self).diagnostics@.len() == 0,
            final(self).active_run is None,
            *final(self) == (WorkerRuntime {
                console: final(self).console,
                diagnostics: final(self).diagnostics,
                flow: final(self).flow,
                active_run: None,
                ..*old(self)
            }),
    {
        broadcast use lemma_events_push;
        let mut events: Vec<WorkerEvent> = Vec::new();
        assert(events_of(events@) =~= Seq::empty());
        match trap {
            Some((code, printed)) => {
                self.flow.exit_requested = Some(code);
                events = printed;
            },
            None => {},
        }
        let ghost first = events_of(events@);
        let rest = self.drain_events();
        append_events(&mut events, rest);
        proof {
            assert(events_of(events@) =~= first + output_events(old(self).console@) + notes_of(
                old(self).diagnostics@,
            ));
            assert(no_yields(first));
            assert forall|i: int| 0 <= i < events_of(events@).len() implies !(
            #[trigger] events_of(events@)[i] is Yielded) by {
                if i < first.len() {
                    assert(events_of(events@)[i] == first[i]);
                } else {
                    assert(events_of(events@)[i] == events_of(rest@)[i - first.len()]);
                }
            }
        }
        let status: i32 = self.current_run_exit_status();
        events.push(WorkerEvent::Exit(status));
        self.active_run = None;
        events
    }

    /// Whether a poll is to end the run.
    pub fn poll_ends_run(&self, poll: &Poll) -> (r: bool)
        ensures
            r == (poll.finished || self.flow.exit_requested is Some
                || self.console.resource_exhausted),
    {
        poll.finished || self.flow.exit_requested.is_some() || self.console.resource_exhausted
    }

    /// Ends a poll after which the run goes on.
    pub fn yield_run(&mut self) -> (r: ExecutionPoll)
        ensures
            r is Yield,
            poll_events(r) == output_events(old(self).console@) + notes_of(
                old(self).diagnostics@,
            ),
            no_yields(poll_events(r)),
            final(self).console@ == drained(old(self).console@),
            final(self).diagnostics@.len() == 0,
            *final(self) == (WorkerRuntime {
                console: final(self).console,
                diagnostics: final(self).diagnostics,
                ..*old(self)
            }),
    {
        ExecutionPoll::Yield(self.drain_events())
    }

    /// Begins to run a script inside another (`eval`, `source`, a trap, a substitution), given
    /// whether that nests too deeply.
    pub fn enter_inner(&mut self, entered: Result<(), ExhaustionReason>) -> (r: Result<
        (),
        Vec<WorkerEvent>,
    >)
        requires
            old(self).flow.recursion_depth < u32::MAX,
        ensures
            match entered {
                Ok(()) => r is Ok && *final(self) == (WorkerRuntime {
                    flow: ExecState {
                        recursion_depth: (old(self).flow.recursion_depth + 1) as u32,
                        ..old(self).flow
                    },
                    ..*old(self)
                }),
                Err(reason) => {
                    &&& r matches Err(v) && events_of(v@) == seq![
                        EventView::Stderr(
                            encode_utf8("wasmsh: maximum recursion depth exceeded\n"@),
                        ),
                    ]
                    &&& final(self).console@ == (ConsoleView {
                        resource_exhausted: true,
                        stop_reason: Some(StopReason::Exhausted(reason)),
                        ..old(self).console@
                    })
                    &&& *final(self) == (WorkerRuntime {
                        console: final(self).console,
                        ..*old(self)
                    })
                },
            },
    {
        match entered {
            Ok(()) => {
                self.flow.recursion_depth = self.flow.recursion_depth + 1;
                Ok(())
            },
            Err(reason) => {
                self.console.resource_exhausted = true;
                self.console.stop_reason = Some(StopReason::Exhausted(reason));
                let text = "wasmsh: maximum recursion depth exceeded\n";
                Err(single(WorkerEvent::Stderr(vstd::slice::slice_to_vec(text.as_bytes()))))
            },
        }
    }

    /// Reports that a script inside another cannot be parsed.
    pub fn fail_inner(&mut self, error: &str) -> (r: Vec<WorkerEvent>)
        requires
            old(self).flow.recursion_depth > 0,
        ensures
            events_of(r@) == seq![EventView::Stderr(encode_utf8(parse_error_text(error@)))],
            *final(self) == (WorkerRuntime {
                state: ShellState { last_status: 2, ..old(self).state },
                flow: ExecState {
                    recursion_depth: (old(self).flow.recursion_depth - 1) as u32,
                    ..old(self).flow
                },
                ..*old(self)
            }),
    {
        self.state.last_status = 2;
        self.flow.recursion_depth = self.flow.recursion_depth - 1;
        single(parse_error_event(error))
    }

    /// The next list of a script inside another, or nothing at its end and after an exit. The
    /// line number follows each complete command.
    pub fn next_inner(&mut self, run: &ActiveRun) -> (r: Option<StepTarget>)
        requires
            run_ok(*run),
            !run_done(*run) ==> line_fits(*run),
        ensures
            if run_done(*run) || old(self).flow.exit_requested is Some {
                r is None && *final(self) == *old(self)
            } else {
                &&& r == Some(StepTarget { item: run.complete_index, list: run.and_or_index })
                &&& *final(self) == (WorkerRuntime {
                    state: if run.and_or_index == 0 {
                        ShellState {
                            lineno: (newline_count(
                                prefix_of(
                                    run.input@,
                                    run.items@[run.complete_index as int].start as int,
                                ),
                            ) + 1) as u32,
                            ..old(self).state
                        }
                    } else {
                        old(self).state
                    },
                    ..*old(self)
                })
            },
    {
        if run.is_done() || self.flow.exit_requested.is_some() {
            return None;
        }
        if run.and_or_index == 0 {
            let start: usize = run.items[run.complete_index].start;
            let line: u32 = line_number_for_offset(run.input.as_str(), start);
            self.state.lineno = line;
        }
        Some(StepTarget { item: run.complete_index, list: run.and_or_index })
    }

    /// Goes on after a list of a script inside another was run; `set -e` may end it.
    pub fn inner_ran(&mut self, run: &mut ActiveRun, shape: AndOrShape)
        requires
            run_ok(*old(run)),
            !run_done(*old(run)),
        ensures
            run_ok(*final(run)),
            advanced(*old(run), *final(run)),
            lists_left(*final(run)) == lists_left(*old(run)) - 1,
            *final(self) == (WorkerRuntime {
                flow: ExecState {
                    exit_requested: if errexit_applies(
                        old(self).flow,
                        old(self).state.env@,
                        strs(old(self).state.positional@),
                        old(self).state.last_status,
                        shape,
                    ) {
                        Some(old(self).state.last_status)
                    } else {
                        old(self).flow.exit_requested
                    },
                    ..old(self).flow
                },
                ..*old(self)
            }),
    {
        if should_errexit(&self.flow, &self.state, shape) {
            self.flow.exit_requested = Some(self.state.last_status);
        }
        run.advance();
    }

    /// Ends a script inside another: what has been printed is handed out.
    pub fn leave_inner(&mut self) -> (r: Vec<WorkerEvent>)
        requires
            old(self).flow.recursion_depth > 0,
        ensures
            events_of(r@) == output_events(old(self).console@),
            no_yields(events_of(r@)),
            final(self).console@ == drained(old(self).console@),
            *final(self) == (WorkerRuntime {
                console: final(self).console,
                flow: ExecState {
                    recursion_depth: (old(self).flow.recursion_depth - 1) as u32,
                    ..old(self).flow
                },
                ..*old(self)
            }),
    {
        self.flow.recursion_depth = self.flow.recursion_depth - 1;
        self.drain_io_events()
    }
}

/// A run that was cancelled ends with 130, one that hit a limit with 128, whatever its commands
/// returned; any other ends with the status that it asked for or with that of its last command.
pub proof fn law_exit_status(c: ConsoleView, exit: Option<i32>, last_status: i32)
    ensures
        c.resource_exhausted && c.stop_reason == Some(StopReason::Cancelled) ==> exit_status_of(
            c,
            exit,
            last_status,
        ) == 130,
        c.resource_exhausted && c.stop_reason != Some(StopReason::Cancelled) ==> exit_status_of(
            c,
            exit,
            last_status,
        ) == 128,
        !c.resource_exhausted && exit is None ==> exit_status_of(c, exit, last_status)
            == last_status,
        !c.resource_exhausted && exit is Some ==> exit_status_of(c, exit, last_status) == exit->0,
{
}

/// Whatever an execution left behind, the next one that starts is undisturbed by it: it is not
/// cancelled, has no exit pending, hit no limit, and its output is collected by no scope.
pub proof fn law_next_run_recovers(c: ConsoleView)
    ensures
        !resumed(c).resource_exhausted,
        resumed(c).stop_reason is None,
        resumed(c).captures.len() == 0,
        forall|status: i32| #[trigger]
            exit_status_of(resumed(c), None, status) == status,
{
}

/// Whether no event is an exit.
pub open spec fn no_exits(events: Seq<EventView>) -> bool {
    forall|i: int| 0 <= i < events.len() ==> !((#[trigger] events[i]) is Exit)
}

/// What a poll after which the run goes on answers holds no exit; what the poll that ends a run
/// answers holds exactly one, which comes last, where the trap answered none.
pub proof fn law_exits_come_last(
    console: ConsoleView,
    notes: Seq<Diagnostic>,
    trap: Seq<EventView>,
    status: i32,
)
    requires
        no_exits(trap),
    ensures
        no_exits(output_events(console) + notes_of(notes)),
        ({
            let end = (trap + output_events(console) + notes_of(notes)).push(
                EventView::Exit(status),
            );
            &&& end.last() is Exit
            &&& no_exits(end.drop_last())
        }),
{
    let plain = output_events(console) + notes_of(notes);
    assert(no_exits(plain));
    let end = (trap + output_events(console) + notes_of(notes)).push(EventView::Exit(status));
    assert(end.drop_last() =~= trap + plain);
    assert forall|i: int| 0 <= i < end.len() - 1 implies !((#[trigger] end.drop_last()[i])
        is Exit) by {
        if i < trap.len() {
            assert(end.drop_last()[i] == trap[i]);
        } else {
            assert(end.drop_last()[i] == plain[i - trap.len()]);
        }
    }
}

/// What a host is answered in all that runs a script at once, where `polls` says what the polls of a
/// script that was started on a runtime come to.
pub open spec fn answer_to_run(
    w: WorkerRuntime,
    input: String,
    polls: spec_fn(WorkerRuntime, String) -> Seq<ExecutionPoll>,
) -> Seq<EventView> {
    if w.initialized {
        run_answer(polls(w, input))
    } else {
        note(DiagnosticLevel::Error, "runtime not initialized"@)
    }
}

/// What a host is answered in all that starts a script and polls it, without the notes that there is
/// more to do.
pub open spec fn answer_to_polls(
    w: WorkerRuntime,
    input: String,
    polls: spec_fn(WorkerRuntime, String) -> Seq<ExecutionPoll>,
) -> Seq<EventView> {
    if w.initialized {
        polled_answer(polls(w, input))
    } else {
        note(DiagnosticLevel::Error, "runtime not initialized"@)
    }
}

/// Running a script at once and polling it piece by piece answer the same, whatever its polls come
/// to: both start the same script on the same runtime.
pub proof fn law_running_and_polling_answer_alike(
    w: WorkerRuntime,
    input: String,
    polls: spec_fn(WorkerRuntime, String) -> Seq<ExecutionPoll>,
)
    requires
        forall|i: int|
            0 <= i < polls(w, input).len() ==> no_yields(poll_events(#[trigger] polls(w, input)[i])),
    ensures
        answer_to_run(w, input, polls) == answer_to_polls(w, input, polls),
{
    law_polling_matches_running(polls(w, input));
}

} // verus!
