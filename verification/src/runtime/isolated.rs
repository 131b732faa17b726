//! Scripts that run aside: what they change is undone, and only what they print is kept.
use crate::fd_table::{inherited, io_view, ExecIo, FdView, InputTarget, InputView, OutputTarget};
use crate::runtime::flow::{ExecState, SavedLocal};
use crate::runtime::output::{
    captures_view, written_to, BudgetCategory, CaptureView, ConsoleView, ExhaustionReason,
    OutputCapture, StopReason,
};
use crate::runtime::protocol::{
    buffer_event, events_of, lemma_events_push, notes_of, push_buffer_event, push_diagnostics,
    Diagnostic, EventView, WorkerEvent,
};
use crate::runtime::worker::WorkerRuntime;
use crate::state::{same_state, ShellState};
use crate::text::{chars_of, dec, sub_string, u64_to_dec, utf8_lossy};
use crate::vars::{assoc_clone, assoc_entries};
use indexmap::IndexMap;
use vstd::prelude::*;

verus! {

/// The model of the variables that `local` hides.
pub open spec fn locals_of(v: Seq<SavedLocal>) -> Seq<(Seq<char>, Option<Seq<char>>)> {
    v.map_values(
        |s: SavedLocal|
            (
                s.name@,
                match s.value {
                    Some(x) => Some(x@),
                    None => None,
                },
            ),
    )
}

/// Whether two executions are in the same state.
pub open spec fn same_flow(a: ExecState, b: ExecState) -> bool {
    &&& locals_of(a.local_save_stack@) == locals_of(b.local_save_stack@)
    &&& a == (ExecState { local_save_stack: a.local_save_stack, ..b })
}

impl Clone for ExecState {
    fn clone(&self) -> (r: ExecState)
        ensures
            same_flow(r, *self),
    {
        let ghost all = locals_of(self.local_save_stack@);
        let mut saved: Vec<SavedLocal> = Vec::new();
        let mut i: usize = 0;
        assert(locals_of(saved@) =~= all.take(0));
        while i < self.local_save_stack.len()
            invariant
                i <= self.local_save_stack@.len(),
                all == locals_of(self.local_save_stack@),
                locals_of(saved@) == all.take(i as int),
            decreases self.local_save_stack@.len() - i,
        {
            let s = &self.local_save_stack[i];
            let value = match &s.value {
                Some(v) => Some(v.clone()),
                None => None,
            };
            let copy = SavedLocal { name: s.name.clone(), value };
            let ghost before = saved@;
            saved.push(copy);
            proof {
                assert(locals_of(saved@) =~= locals_of(before).push(locals_of(saved@)[i as int]));
                assert(all.take(i + 1) =~= all.take(i as int).push(all[i as int]));
            }
            i = i + 1;
        }
        assert(all.take(all.len() as int) =~= all);
        ExecState {
            break_depth: self.break_depth,
            loop_continue: self.loop_continue,
            exit_requested: self.exit_requested,
            errexit_suppressed: self.errexit_suppressed,
            local_save_stack: saved,
            recursion_depth: self.recursion_depth,
            expansion_failed: self.expansion_failed,
        }
    }
}

fn clone_captures(captures: &Vec<OutputCapture>) -> (r: Vec<OutputCapture>)
    ensures
        captures_view(r@) == captures_view(captures@),
{
    let ghost all = captures_view(captures@);
    let mut out: Vec<OutputCapture> = Vec::new();
    let mut i: usize = 0;
    assert(captures_view(out@) =~= all.take(0));
    while i < captures.len()
        invariant
            i <= captures@.len(),
            all == captures_view(captures@),
            captures_view(out@) == all.take(i as int),
        decreases captures@.len() - i,
    {
        let c = &captures[i];
        let copy = OutputCapture {
            capture_stdout: c.capture_stdout,
            capture_stderr: c.capture_stderr,
            stdout: vstd::slice::slice_to_vec(c.stdout.as_slice()),
            stderr: vstd::slice::slice_to_vec(c.stderr.as_slice()),
        };
        let ghost before = out@;
        out.push(copy);
        proof {
            assert(captures_view(out@) =~= captures_view(before).push(copy@));
            assert(all.take(i + 1) =~= all.take(i as int).push(all[i as int]));
        }
        i = i + 1;
    }
    assert(all.take(all.len() as int) =~= all);
    out
}

/// What is put back after a script ran aside.
#[derive(Debug)]
pub struct SavedRuntime {
    pub state: ShellState,
    pub aliases: IndexMap<String, String>,
    pub flow: ExecState,
    pub io: Option<ExecIo>,
    pub captures: Vec<OutputCapture>,
    pub stdout: Vec<u8>,
    pub stderr: Vec<u8>,
    pub output_bytes: u64,
    pub resource_exhausted: bool,
    pub stop_reason: Option<StopReason>,
    pub diagnostics: Vec<Diagnostic>,
}

/// Whether a record holds what a runtime has.
pub open spec fn saves(s: SavedRuntime, w: WorkerRuntime) -> bool {
    &&& same_state(s.state, w.state)
    &&& assoc_entries(s.aliases) == assoc_entries(w.aliases)
    &&& same_flow(s.flow, w.flow)
    &&& io_view(s.io) == io_view(w.current_exec_io)
    &&& captures_view(s.captures@) == w.console@.captures
    &&& s.stdout@ == w.console@.stdout
    &&& s.stderr@ == w.console@.stderr
    &&& s.output_bytes == w.console.output_bytes
    &&& s.resource_exhausted == w.console.resource_exhausted
    &&& s.stop_reason == w.console.stop_reason
    &&& notes_of(s.diagnostics@) == notes_of(w.diagnostics@)
}

/// Whether a runtime is as a record says, but for a limit that was hit meanwhile.
pub open spec fn restored(s: SavedRuntime, w: WorkerRuntime, exhausted: bool) -> bool {
    saves(SavedRuntime { resource_exhausted: s.resource_exhausted || exhausted, ..s }, w)
}

/// Whether two runtimes differ in nothing that a script can see.
pub open spec fn same_runtime(a: WorkerRuntime, b: WorkerRuntime) -> bool {
    &&& same_state(a.state, b.state)
    &&& assoc_entries(a.aliases) == assoc_entries(b.aliases)
    &&& same_flow(a.flow, b.flow)
    &&& io_view(a.current_exec_io) == io_view(b.current_exec_io)
    &&& a.console@.captures == b.console@.captures
    &&& a.console@.stdout == b.console@.stdout
    &&& a.console@.stderr == b.console@.stderr
    &&& a.console.output_bytes == b.console.output_bytes
    &&& a.console.resource_exhausted == b.console.resource_exhausted
    &&& a.console.stop_reason == b.console.stop_reason
    &&& notes_of(a.diagnostics@) == notes_of(b.diagnostics@)
}

/// A script that runs aside leaves no trace: once the record made before it is put back, the
/// runtime is what it was, unless a limit was hit.
pub proof fn law_isolated_run_leaves_no_trace(
    before: WorkerRuntime,
    s: SavedRuntime,
    after: WorkerRuntime,
)
    requires
        saves(s, before),
        restored(s, after, false),
    ensures
        same_runtime(before, after),
{
}

/// The streams of a script that runs aside: all inherited but for the input it is given.
pub open spec fn isolated_io(input: Option<InputView>) -> Option<FdView> {
    match input {
        Some(t) => Some(FdView { stdin: t, ..inherited() }),
        None => None,
    }
}

/// The output of a script that runs aside: nothing printed yet, and all of it collected.
pub open spec fn isolated_console(c: ConsoleView) -> ConsoleView {
    ConsoleView {
        captures: c.captures.push(
            CaptureView {
                capture_stdout: true,
                capture_stderr: true,
                stdout: Seq::empty(),
                stderr: Seq::empty(),
            },
        ),
        stdout: Seq::empty(),
        stderr: Seq::empty(),
        ..c
    }
}

/// Whether an answer hands out standard output.
pub open spec fn has_stdout(events: Seq<EventView>) -> bool {
    exists|i: int| 0 <= i < events.len() && #[trigger] events[i] is Stdout
}

/// Whether an answer hands out standard error.
pub open spec fn has_stderr(events: Seq<EventView>) -> bool {
    exists|i: int| 0 <= i < events.len() && #[trigger] events[i] is Stderr
}

/// The answers after one of the inner script was considered: its output is left out where some
/// was collected already.
pub open spec fn merged_one(events: Seq<EventView>, e: EventView) -> Seq<EventView> {
    if (e is Stdout && has_stdout(events)) || (e is Stderr && has_stderr(events)) {
        events
    } else {
        events.push(e)
    }
}

/// The answers after those of the inner script were considered.
pub open spec fn merged(events: Seq<EventView>, inner: Seq<EventView>) -> Seq<EventView>
    decreases inner.len(),
{
    if inner.len() == 0 {
        events
    } else {
        merged_one(merged(events, inner.drop_last()), inner.last())
    }
}

/// What a script that ran aside answers: what was collected, what else its inner script answered,
/// and its messages.
pub open spec fn isolated_answer(
    collected: CaptureView,
    inner: Seq<EventView>,
    notes: Seq<EventView>,
) -> Seq<EventView> {
    merged(buffer_event(collected.stdout, true) + buffer_event(collected.stderr, false), inner)
        + notes
}

fn any_stdout(events: &Vec<WorkerEvent>) -> (r: bool)
    ensures
        r == has_stdout(events_of(events@)),
{
    let mut i: usize = 0;
    while i < events.len()
        invariant
            i <= events@.len(),
            forall|j: int| 0 <= j < i ==> !(#[trigger] events_of(events@)[j] is Stdout),
        decreases events@.len() - i,
    {
        assert(events_of(events@)[i as int] == events@[i as int]@);
        if let WorkerEvent::Stdout(_) = &events[i] {
            return true;
        }
        i = i + 1;
    }
    false
}

fn any_stderr(events: &Vec<WorkerEvent>) -> (r: bool)
    ensures
        r == has_stderr(events_of(events@)),
{
    let mut i: usize = 0;
    while i < events.len()
        invariant
            i <= events@.len(),
            forall|j: int| 0 <= j < i ==> !(#[trigger] events_of(events@)[j] is Stderr),
        decreases events@.len() - i,
    {
        assert(events_of(events@)[i as int] == events@[i as int]@);
        if let WorkerEvent::Stderr(_) = &events[i] {
            return true;
        }
        i = i + 1;
    }
    false
}

fn merge_events(events: &mut Vec<WorkerEvent>, inner: Vec<WorkerEvent>)
    ensures
        events_of(final(events)@) == merged(events_of(old(events)@), events_of(inner@)),
    decreases inner@.len(),
{
    broadcast use lemma_events_push;
    let ghost before = events_of(events@);
    let ghost all = events_of(inner@);
    let mut rest = inner;
    match rest.pop() {
        Some(last) => {
            proof {
                assert(events_of(rest@) =~= all.drop_last());
                assert(all.last() == last@);
            }
            merge_events(events, rest);
            let keep: bool = match &last {
                WorkerEvent::Stdout(_) => !any_stdout(events),
                WorkerEvent::Stderr(_) => !any_stderr(events),
                _ => true,
            };
            if keep {
                events.push(last);
            }
        },
        None => {},
    }
}

impl WorkerRuntime {
    /// Sets the runtime aside for a script that is to leave no trace: its output is collected,
    /// its streams are its own.
    pub fn begin_isolated(&mut self, input: Option<InputTarget>) -> (r: SavedRuntime)
        ensures
            saves(r, *old(self)),
            final(self).console@ == isolated_console(old(self).console@),
            io_view(final(self).current_exec_io) == isolated_io(
                match input {
                    Some(t) => Some(t@),
                    None => None,
                },
            ),
            final(self).diagnostics@.len() == 0,
            *final(self) == (WorkerRuntime {
                console: final(self).console,
                current_exec_io: final(self).current_exec_io,
                diagnostics: final(self).diagnostics,
                ..*old(self)
            }),
    {
        let state = self.state.clone();
        let aliases = assoc_clone(&self.aliases);
        let flow = self.flow.clone();
        let mut io: Option<ExecIo> = match input {
            Some(target) => {
                let mut fresh = ExecIo::default();
                fresh.fds_mut().set_input(target);
                Some(fresh)
            },
            None => None,
        };
        std::mem::swap(&mut io, &mut self.current_exec_io);
        let captures = clone_captures(&self.console.captures);
        let stdout = self.console.take_visible(true);
        let stderr = self.console.take_visible(false);
        let mut diagnostics: Vec<Diagnostic> = Vec::new();
        std::mem::swap(&mut diagnostics, &mut self.diagnostics);
        self.console.push_output_capture(true, true);
        SavedRuntime {
            state,
            aliases,
            flow,
            io,
            captures,
            stdout,
            stderr,
            output_bytes: self.console.output_bytes,
            resource_exhausted: self.console.resource_exhausted,
            stop_reason: self.console.stop_reason,
            diagnostics,
        }
    }

    /// Puts everything back after a script ran aside, and returns what it answers, given what its
    /// inner script answered.
    pub fn end_isolated(&mut self, saved: SavedRuntime, inner: Vec<WorkerEvent>) -> (r: Vec<
        WorkerEvent,
    >)
        requires
            old(self).console.captures@.len() > 0,
        ensures
            events_of(r@) == isolated_answer(
                old(self).console@.captures.last(),
                events_of(inner@),
                notes_of(old(self).diagnostics@),
            ),
            restored(saved, *final(self), old(self).console.resource_exhausted),
            *final(self) == (WorkerRuntime {
                state: final(self).state,
                aliases: final(self).aliases,
                flow: final(self).flow,
                console: final(self).console,
                current_exec_io: final(self).current_exec_io,
                diagnostics: final(self).diagnostics,
                ..*old(self)
            }),
            final(self).console.output_limit == old(self).console.output_limit,
    {
        let captured = self.console.pop_output_capture();
        let inner_exhausted: bool = self.console.resource_exhausted;
        let mut notes: Vec<Diagnostic> = saved.diagnostics;
        std::mem::swap(&mut notes, &mut self.diagnostics);
        self.state = saved.state;
        self.aliases = saved.aliases;
        self.flow = saved.flow;
        self.current_exec_io = saved.io;
        self.console.captures = saved.captures;
        self.console.stdout = saved.stdout;
        self.console.stderr = saved.stderr;
        self.console.output_bytes = saved.output_bytes;
        self.console.resource_exhausted = saved.resource_exhausted || inner_exhausted;
        self.console.stop_reason = saved.stop_reason;
        let mut events: Vec<WorkerEvent> = Vec::new();
        assert(events_of(events@) =~= Seq::empty());
        push_buffer_event(&mut events, captured.stdout, true);
        push_buffer_event(&mut events, captured.stderr, false);
        proof {
            let c = old(self).console@.captures.last();
            assert(events_of(events@) =~= buffer_event(c.stdout, true) + buffer_event(
                c.stderr,
                false,
            ));
        }
        merge_events(&mut events, inner);
        push_diagnostics(&mut events, notes);
        events
    }

    /// Gives the next command its input.
    pub fn set_pending_input(&mut self, target: InputTarget)
        ensures
            io_view(final(self).current_exec_io) == Some(
                FdView {
                    stdin: target@,
                    ..(match io_view(old(self).current_exec_io) {
                        Some(t) => t,
                        None => inherited(),
                    })
                },
            ),
            *final(self) == (WorkerRuntime {
                current_exec_io: final(self).current_exec_io,
                ..*old(self)
            }),
    {
        let mut current: Option<ExecIo> = None;
        std::mem::swap(&mut current, &mut self.current_exec_io);
        let mut io = match current {
            Some(x) => x,
            None => ExecIo::default(),
        };
        io.fds_mut().set_input(target);
        self.current_exec_io = Some(io);
    }

    /// Takes the input of the next command; nothing where it is inherited or closed.
    pub fn take_pending_input(&mut self) -> (r: Option<InputTarget>)
        ensures
            match io_view(old(self).current_exec_io) {
                None => r is None && io_view(final(self).current_exec_io) is None,
                Some(t) => {
                    &&& io_view(final(self).current_exec_io) == Some(
                        FdView { stdin: InputView::Inherit, ..t },
                    )
                    &&& if t.stdin is Inherit || t.stdin is Closed {
                        r is None
                    } else {
                        r matches Some(x) && x@ == t.stdin
                    }
                },
            },
            *final(self) == (WorkerRuntime {
                current_exec_io: final(self).current_exec_io,
                ..*old(self)
            }),
    {
        match &mut self.current_exec_io {
            Some(io) => {
                let target = io.take_stdin();
                match target {
                    InputTarget::Inherit => None,
                    InputTarget::Closed => None,
                    other => Some(other),
                }
            },
            None => None,
        }
    }

    /// Drops the input of the next command; returns the path of a file that was only for it.
    pub fn clear_pending_input(&mut self) -> (r: Option<String>)
        ensures
            match io_view(old(self).current_exec_io) {
                Some(t) => match t.stdin {
                    InputView::File { path, remove_after_read: true } => r matches Some(p) && p@
                        == path,
                    _ => r is None,
                },
                None => r is None,
            },
            io_view(final(self).current_exec_io) == (match io_view(old(self).current_exec_io) {
                Some(t) => Some(FdView { stdin: InputView::Inherit, ..t }),
                None => None,
            }),
            *final(self) == (WorkerRuntime {
                current_exec_io: final(self).current_exec_io,
                ..*old(self)
            }),
    {
        match &mut self.current_exec_io {
            Some(io) => {
                let target = io.take_stdin();
                match target {
                    InputTarget::File { path, remove_after_read } => if remove_after_read {
                        Some(path)
                    } else {
                        None
                    },
                    _ => None,
                }
            },
            None => None,
        }
    }

    /// Takes over an answer of a script that ran aside: its output is written, its messages wait
    /// for the host, anything else is dropped. Returns where its output goes instead, and the
    /// output, where a redirection takes it elsewhere.
    pub fn absorb_event(&mut self, event: WorkerEvent) -> (r: Option<(OutputTarget, Vec<u8>)>)
        requires
            event matches WorkerEvent::Stdout(d) ==> old(self).console.output_bytes + d@.len()
                <= u64::MAX,
            event matches WorkerEvent::Stderr(d) ==> old(self).console.output_bytes + d@.len()
                <= u64::MAX,
        ensures
            match event@ {
                EventView::Stdout(d) => {
                    &&& final(self).console@ == written_to(
                        old(self).console@,
                        io_view(old(self).current_exec_io),
                        d,
                        true,
                    )
                    &&& final(self).diagnostics == old(self).diagnostics
                    &&& goes_elsewhere(io_view(old(self).current_exec_io), d, true, r)
                },
                EventView::Stderr(d) => {
                    &&& final(self).console@ == written_to(
                        old(self).console@,
                        io_view(old(self).current_exec_io),
                        d,
                        false,
                    )
                    &&& final(self).diagnostics == old(self).diagnostics
                    &&& goes_elsewhere(io_view(old(self).current_exec_io), d, false, r)
                },
                EventView::Diagnostic(level, message) => {
                    &&& r is None
                    &&& final(self).console == old(self).console
                    &&& notes_of(final(self).diagnostics@) == notes_of(
                        old(self).diagnostics@,
                    ).push(EventView::Diagnostic(level, message))
                },
                _ => r is None && *final(self) == *old(self),
            },
            *final(self) == (WorkerRuntime {
                console: final(self).console,
                diagnostics: final(self).diagnostics,
                ..*old(self)
            }),
    {
        match event {
            WorkerEvent::Stdout(data) => match self.console.write_output(
                &self.current_exec_io,
                data.as_slice(),
                true,
            ) {
                Some(target) => Some((target, data)),
                None => None,
            },
            WorkerEvent::Stderr(data) => match self.console.write_output(
                &self.current_exec_io,
                data.as_slice(),
                false,
            ) {
                Some(target) => Some((target, data)),
                None => None,
            },
            WorkerEvent::Diagnostic(level, message) => {
                let note = Diagnostic { level, message };
                self.diagnostics.push(note);
                assert(notes_of(self.diagnostics@) =~= notes_of(old(self).diagnostics@).push(
                    EventView::Diagnostic(note.level, note.message@),
                ));
                None
            },
            _ => None,
        }
    }
}

/// Whether output that a redirection takes elsewhere is handed back with its target, and no
/// other is.
pub open spec fn goes_elsewhere(
    io: Option<FdView>,
    data: Seq<u8>,
    stdout: bool,
    r: Option<(OutputTarget, Vec<u8>)>,
) -> bool {
    match crate::runtime::output::routed(io, stdout) {
        Ok(_) => r is None,
        Err(t) => r matches Some(x) && x.0@ == t && x.1@ == data,
    }
}

/// A text without the newlines at its end.
pub open spec fn without_newlines(s: Seq<char>) -> Seq<char>
    decreases s.len(),
{
    if s.len() > 0 && s.last() == '\n' {
        without_newlines(s.drop_last())
    } else {
        s
    }
}

/// What a command substitution stands for: the output as text, without the newlines at its end.
pub fn substituted(stdout: &[u8]) -> (r: String)
    ensures
        r@ == without_newlines(utf8_lossy(stdout@)),
{
    let text = crate::text::from_utf8_lossy(stdout);
    let chars = chars_of(text.as_str());
    let ghost all = text@;
    let mut n: usize = chars.len();
    assert(all.take(n as int) =~= all);
    while n > 0 && chars[n - 1] == '\n'
        invariant
            n <= chars@.len(),
            chars@ == all,
            without_newlines(all) == without_newlines(all.take(n as int)),
        decreases n,
    {
        assert(all.take(n as int).drop_last() =~= all.take(n - 1));
        n = n - 1;
    }
    let r = sub_string(&chars, 0, n);
    assert(all.subrange(0, n as int) =~= all.take(n as int));
    r
}

/// What a command substitution stands for never ends in a newline.
pub proof fn law_substitution_has_no_final_newline(s: Seq<char>)
    ensures
        without_newlines(s).len() > 0 ==> without_newlines(s).last() != '\n',
        without_newlines(s).len() <= s.len(),
        without_newlines(s) == s.take(without_newlines(s).len() as int),
        forall|i: int| without_newlines(s).len() <= i < s.len() ==> s[i] == '\n',
    decreases s.len(),
{
    if s.len() > 0 && s.last() == '\n' {
        let t = s.drop_last();
        law_substitution_has_no_final_newline(t);
        let n = without_newlines(t).len() as int;
        assert(t.take(n) =~= s.take(n));
        assert forall|i: int| n <= i < s.len() implies s[i] == '\n' by {
            if i < t.len() {
                assert(t[i] == '\n');
            }
        }
    } else {
        assert(s.take(s.len() as int) =~= s);
    }
}

/// The path that stands for a process substitution.
pub fn proc_subst_path(id: u64) -> (r: String)
    ensures
        r@ == "/tmp/_proc_subst_"@ + dec(id as nat),
{
    let number = u64_to_dec(id);
    "/tmp/_proc_subst_".to_owned().concat(number.as_str())
}

/// The steps of a script that runs aside, counted to its parent.
#[derive(Clone, Copy, Debug, PartialEq, Eq, Structural)]
pub struct StepSync {
    /// The steps of the parent.
    pub steps: u64,
    /// How many of the script's steps are among them.
    pub synced: u64,
    /// What ran out by that.
    pub exhausted: Option<ExhaustionReason>,
}

/// The sum, or the largest number where it is too large.
pub open spec fn saturating_sum(a: u64, b: u64) -> u64 {
    if a + b > u64::MAX {
        u64::MAX
    } else {
        (a + b) as u64
    }
}

/// The steps after those that the script took since the last time were counted to its parent.
pub open spec fn synced_steps(parent: u64, current: u64, synced: u64, limit: u64) -> StepSync {
    if current > synced {
        let steps = saturating_sum(parent, (current - synced) as u64);
        StepSync {
            steps,
            synced: current,
            exhausted: if limit > 0 && steps > limit {
                Some(ExhaustionReason { category: BudgetCategory::Steps, used: steps, limit })
            } else {
                None
            },
        }
    } else {
        StepSync { steps: parent, synced, exhausted: None }
    }
}

/// Counts the steps of a script that runs aside to its parent.
pub fn sync_steps(parent: u64, current: u64, synced: u64, limit: u64) -> (r: StepSync)
    ensures
        r == synced_steps(parent, current, synced, limit),
{
    if current <= synced {
        return StepSync { steps: parent, synced, exhausted: None };
    }
    let delta: u64 = current - synced;
    let steps: u64 = if parent > u64::MAX - delta {
        u64::MAX
    } else {
        parent + delta
    };
    let exhausted = if limit > 0 && steps > limit {
        Some(ExhaustionReason { category: BudgetCategory::Steps, used: steps, limit })
    } else {
        None
    };
    StepSync { steps, synced: current, exhausted }
}

/// However often the steps of a script are counted to its parent, each is counted once: counting
/// twice on the way comes to the same as counting once at the end.
pub proof fn law_steps_are_counted_once(parent: u64, mid: u64, end: u64, synced: u64, limit: u64)
    requires
        synced <= mid <= end,
    ensures
        ({
            let first = synced_steps(parent, mid, synced, limit);
            let second = synced_steps(first.steps, end, first.synced, limit);
            &&& second.steps == synced_steps(parent, end, synced, limit).steps
            &&& second.synced == end
        }),
{
}

/// What is written to a process substitution that waits for its command: it is kept until the
/// enclosing command is done, or goes to a pipeline that runs already.
#[derive(Debug)]
pub enum PendingSubst {
    Buffered(Vec<u8>),
    /// The number of the pipeline.
    Live(usize),
}

impl PendingSubst {
    /// Forgets what was kept.
    pub fn clear(&mut self)
        ensures
            match *old(self) {
                PendingSubst::Buffered(_) => *final(self) matches PendingSubst::Buffered(d)
                    && d@.len() == 0,
                PendingSubst::Live(_) => *final(self) == *old(self),
            },
    {
        match self {
            PendingSubst::Buffered(data) => {
                *data = Vec::new();
            },
            PendingSubst::Live(_) => {},
        }
    }

    /// Takes data; returns the pipeline that it is to be fed to instead, if any.
    pub fn write(&mut self, data: &[u8]) -> (r: Option<usize>)
        ensures
            match *old(self) {
                PendingSubst::Buffered(b) => r is None && (*final(self) matches
                    PendingSubst::Buffered(d) && d@ == b@ + data@),
                PendingSubst::Live(n) => r == Some(n) && *final(self) == *old(self),
            },
    {
        match self {
            PendingSubst::Buffered(kept) => {
                let ghost before = kept@;
                kept.extend_from_slice(data);
                assert(kept@ =~= before + data@);
                None
            },
            PendingSubst::Live(n) => Some(*n),
        }
    }
}

} // verus!
