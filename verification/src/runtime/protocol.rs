//! What a host asks of the runtime and what it is answered.
use crate::text::join;
use crate::text::joined;
use crate::views::strs;
use vstd::prelude::*;
use vstd::utf8::encode_utf8;

verus! {

/// How grave a message is.
#[derive(Clone, Copy, Debug, PartialEq, Eq, Structural)]
pub enum DiagnosticLevel {
    Trace,
    Info,
    Warning,
    Error,
}

/// What a host asks for.
#[derive(Debug)]
pub enum HostCommand {
    /// Start afresh.
    Init { step_budget: u64, allowed_hosts: Vec<String> },
    /// Run a script to its end.
    Run { input: String },
    /// Take a script on, to be polled.
    StartRun { input: String },
    /// Run the script that was taken on a little further.
    PollRun,
    /// Stop the script that runs.
    Cancel,
    /// Deliver a signal, by its name or number.
    Signal { signal: String },
    ReadFile { path: String },
    WriteFile { path: String, data: Vec<u8> },
    ListDir { path: String },
    Mount { path: String },
    /// A command of a later protocol.
    Unknown,
}

/// What the runtime answers.
#[derive(Debug, PartialEq, Eq)]
pub enum WorkerEvent {
    Version(String),
    Stdout(Vec<u8>),
    Stderr(Vec<u8>),
    Exit(i32),
    Diagnostic(DiagnosticLevel, String),
    FsChanged(String),
    Yielded,
}

/// An answer as mathematical data.
pub enum EventView {
    Version(Seq<char>),
    Stdout(Seq<u8>),
    Stderr(Seq<u8>),
    Exit(i32),
    Diagnostic(DiagnosticLevel, Seq<char>),
    FsChanged(Seq<char>),
    Yielded,
}

impl View for WorkerEvent {
    type V = EventView;

    open spec fn view(&self) -> EventView {
        match self {
            WorkerEvent::Version(s) => EventView::Version(s@),
            WorkerEvent::Stdout(d) => EventView::Stdout(d@),
            WorkerEvent::Stderr(d) => EventView::Stderr(d@),
            WorkerEvent::Exit(n) => EventView::Exit(*n),
            WorkerEvent::Diagnostic(l, s) => EventView::Diagnostic(*l, s@),
            WorkerEvent::FsChanged(s) => EventView::FsChanged(s@),
            WorkerEvent::Yielded => EventView::Yielded,
        }
    }
}

/// The model of a list of answers.
pub open spec fn events_of(v: Seq<WorkerEvent>) -> Seq<EventView> {
    v.map_values(|e: WorkerEvent| e@)
}

pub broadcast proof fn lemma_events_push(v: Seq<WorkerEvent>, x: WorkerEvent)
    ensures
        #[trigger] events_of(v.push(x)) == events_of(v).push(x@),
{
    assert(events_of(v.push(x)) =~= events_of(v).push(x@));
}

/// One answer alone.
pub fn single(event: WorkerEvent) -> (r: Vec<WorkerEvent>)
    ensures
        events_of(r@) == seq![event@],
{
    let mut events: Vec<WorkerEvent> = Vec::new();
    events.push(event);
    assert(events_of(events@) =~= seq![event@]);
    events
}

/// A message alone.
pub fn diagnostic(level: DiagnosticLevel, message: &str) -> (r: Vec<WorkerEvent>)
    ensures
        events_of(r@) == seq![EventView::Diagnostic(level, message@)],
{
    single(WorkerEvent::Diagnostic(level, message.to_owned()))
}

/// The answers of `a`, then those of `b`.
pub fn append_events(a: &mut Vec<WorkerEvent>, b: Vec<WorkerEvent>)
    ensures
        events_of(final(a)@) == events_of(old(a)@) + events_of(b@),
{
    let ghost bs = b@;
    let mut rest = b;
    a.append(&mut rest);
    assert(events_of(a@) =~= events_of(old(a)@) + events_of(bs));
}

/// What one poll of a running script gives.
#[derive(Debug)]
pub enum ExecutionPoll {
    /// The script has more to do.
    Yield(Vec<WorkerEvent>),
    /// The script has ended.
    Done(Vec<WorkerEvent>),
}

/// What happened in a poll, whichever way it ended.
pub open spec fn poll_events(p: ExecutionPoll) -> Seq<EventView> {
    match p {
        ExecutionPoll::Yield(e) => events_of(e@),
        ExecutionPoll::Done(e) => events_of(e@),
    }
}

/// What a host that polls is answered: after a poll that did not end the script it is told so.
pub open spec fn poll_answer(p: Option<ExecutionPoll>) -> Seq<EventView> {
    match p {
        Some(ExecutionPoll::Yield(e)) => events_of(e@).push(EventView::Yielded),
        Some(ExecutionPoll::Done(e)) => events_of(e@),
        None => seq![EventView::Diagnostic(DiagnosticLevel::Error, "no active run"@)],
    }
}

/// The answer to a poll.
pub fn poll_reply(poll: Option<ExecutionPoll>) -> (r: Vec<WorkerEvent>)
    ensures
        events_of(r@) == poll_answer(poll),
{
    broadcast use lemma_events_push;
    match poll {
        Some(ExecutionPoll::Yield(events)) => {
            let mut all = events;
            all.push(WorkerEvent::Yielded);
            all
        },
        Some(ExecutionPoll::Done(events)) => events,
        None => diagnostic(DiagnosticLevel::Error, "no active run"),
    }
}

/// What a run to the end is answered: what happened in each poll, one after the other.
pub open spec fn run_answer(polls: Seq<ExecutionPoll>) -> Seq<EventView>
    decreases polls.len(),
{
    if polls.len() == 0 {
        Seq::empty()
    } else {
        run_answer(polls.drop_last()) + poll_events(polls.last())
    }
}

/// All answers to the polls of a script, without the notes that it has more to do.
pub open spec fn polled_answer(polls: Seq<ExecutionPoll>) -> Seq<EventView>
    decreases polls.len(),
{
    if polls.len() == 0 {
        Seq::empty()
    } else {
        polled_answer(polls.drop_last()) + without_yields(poll_answer(Some(polls.last())))
    }
}

/// The answers without the notes that a script has more to do.
pub open spec fn without_yields(events: Seq<EventView>) -> Seq<EventView>
    decreases events.len(),
{
    if events.len() == 0 {
        Seq::empty()
    } else if events.last() is Yielded {
        without_yields(events.drop_last())
    } else {
        without_yields(events.drop_last()).push(events.last())
    }
}

/// Whether no answer is a note that a script has more to do.
pub open spec fn no_yields(events: Seq<EventView>) -> bool {
    forall|i: int| 0 <= i < events.len() ==> !(#[trigger] events[i] is Yielded)
}

proof fn lemma_without_yields_id(events: Seq<EventView>)
    requires
        no_yields(events),
    ensures
        without_yields(events) == events,
    decreases events.len(),
{
    if events.len() > 0 {
        lemma_without_yields_id(events.drop_last());
        assert(events.drop_last().push(events.last()) =~= events);
    } else {
        assert(events =~= Seq::empty());
    }
}

/// A script that is polled piece by piece answers the same as one that is run at once: the notes
/// that there is more to do are all that differs.
pub proof fn law_polling_matches_running(polls: Seq<ExecutionPoll>)
    requires
        forall|i: int| 0 <= i < polls.len() ==> no_yields(poll_events(#[trigger] polls[i])),
    ensures
        polled_answer(polls) == run_answer(polls),
    decreases polls.len(),
{
    if polls.len() > 0 {
        law_polling_matches_running(polls.drop_last());
        let last = polls.last();
        let e = poll_events(last);
        lemma_without_yields_id(e);
        match last {
            ExecutionPoll::Yield(_) => {
                assert(e.push(EventView::Yielded).drop_last() =~= e);
            },
            ExecutionPoll::Done(_) => {},
        }
    }
}

/// Adds what happened in one more poll to the answer of a run; `true` when it was the last.
pub fn collect_poll(events: &mut Vec<WorkerEvent>, poll: ExecutionPoll) -> (r: bool)
    ensures
        events_of(final(events)@) == events_of(old(events)@) + poll_events(poll),
        r == (poll is Done),
        forall|polls: Seq<ExecutionPoll>|
            events_of(old(events)@) == run_answer(polls) ==> events_of(final(events)@)
                == #[trigger] run_answer(polls.push(poll)),
{
    proof {
        assert forall|polls: Seq<ExecutionPoll>|
            events_of(old(events)@) == run_answer(polls) implies events_of(old(events)@)
            + poll_events(poll) == #[trigger] run_answer(polls.push(poll)) by {
            assert(polls.push(poll).drop_last() =~= polls);
        }
    }
    match poll {
        ExecutionPoll::Yield(batch) => {
            append_events(events, batch);
            false
        },
        ExecutionPoll::Done(batch) => {
            append_events(events, batch);
            true
        },
    }
}

/// Why a file could not be read.
#[derive(Debug)]
pub enum ReadFailure {
    /// It could not be opened.
    Open(String),
    /// It was opened and reading failed.
    Read(String),
}

/// What the host is told of a file that it asked for.
pub open spec fn read_answer(path: Seq<char>, content: Result<Vec<u8>, ReadFailure>) -> EventView {
    match content {
        Ok(d) => EventView::Stdout(d@),
        Err(ReadFailure::Read(e)) => EventView::Diagnostic(
            DiagnosticLevel::Error,
            "read error: "@ + path + ": "@ + e@,
        ),
        Err(ReadFailure::Open(e)) => EventView::Diagnostic(
            DiagnosticLevel::Error,
            "read error: "@ + e@,
        ),
    }
}

/// The answer to a request to read a file.
pub fn read_file_reply(path: &str, content: Result<Vec<u8>, ReadFailure>) -> (r: Vec<WorkerEvent>)
    ensures
        events_of(r@) == seq![read_answer(path@, content)],
{
    match content {
        Ok(data) => single(WorkerEvent::Stdout(data)),
        Err(ReadFailure::Read(e)) => {
            let message = "read error: ".to_owned().concat(path).concat(": ").concat(e.as_str());
            diagnostic(DiagnosticLevel::Error, message.as_str())
        },
        Err(ReadFailure::Open(e)) => {
            let message = "read error: ".to_owned().concat(e.as_str());
            diagnostic(DiagnosticLevel::Error, message.as_str())
        },
    }
}

/// What the host is told of a file that it wrote.
pub open spec fn write_answer(path: Seq<char>, opened: Result<(), String>) -> EventView {
    match opened {
        Ok(()) => EventView::FsChanged(path),
        Err(e) => EventView::Diagnostic(DiagnosticLevel::Error, "write error: "@ + e@),
    }
}

/// The answer to a request to write a file, given whether it could be opened. That writing failed
/// is not answered but reported on standard error.
pub fn write_file_reply(path: String, opened: Result<(), String>) -> (r: Vec<WorkerEvent>)
    ensures
        events_of(r@) == seq![write_answer(path@, opened)],
{
    match opened {
        Ok(()) => single(WorkerEvent::FsChanged(path)),
        Err(e) => {
            let message = "write error: ".to_owned().concat(e.as_str());
            diagnostic(DiagnosticLevel::Error, message.as_str())
        },
    }
}

/// The report that writing a file failed.
pub fn write_failure_message(error: &str) -> (r: String)
    ensures
        r@ == "wasmsh: write error: "@ + error@ + "\n"@,
{
    "wasmsh: write error: ".to_owned().concat(error).concat("\n")
}

/// What the host is told of the names in a directory.
pub open spec fn list_answer(names: Result<Vec<String>, String>) -> EventView {
    match names {
        Ok(n) => EventView::Stdout(encode_utf8(joined(strs(n@), "\n"@))),
        Err(e) => EventView::Diagnostic(DiagnosticLevel::Error, "readdir error: "@ + e@),
    }
}

/// The answer to a request to list a directory: the names, one per line.
pub fn list_dir_reply(names: Result<Vec<String>, String>) -> (r: Vec<WorkerEvent>)
    ensures
        events_of(r@) == seq![list_answer(names)],
{
    match names {
        Ok(n) => {
            let text = join(&n, "\n");
            let data = vstd::slice::slice_to_vec(text.as_str().as_bytes());
            single(WorkerEvent::Stdout(data))
        },
        Err(e) => {
            let message = "readdir error: ".to_owned().concat(e.as_str());
            diagnostic(DiagnosticLevel::Error, message.as_str())
        },
    }
}

/// The report on a script that cannot be parsed.
pub open spec fn parse_error_text(error: Seq<char>) -> Seq<char> {
    "wasmsh: parse error: "@ + error + "\n"@
}

/// The report on a script that cannot be parsed, as an answer.
pub fn parse_error_event(error: &str) -> (r: WorkerEvent)
    ensures
        r@ == EventView::Stderr(encode_utf8(parse_error_text(error@))),
{
    let text = "wasmsh: parse error: ".to_owned().concat(error).concat("\n");
    WorkerEvent::Stderr(vstd::slice::slice_to_vec(text.as_str().as_bytes()))
}

/// The answers that hand out a buffer: none for an empty one.
pub open spec fn buffer_event(data: Seq<u8>, stdout: bool) -> Seq<EventView> {
    if data.len() == 0 {
        Seq::empty()
    } else if stdout {
        seq![EventView::Stdout(data)]
    } else {
        seq![EventView::Stderr(data)]
    }
}

/// Adds the answer that hands out a buffer.
pub fn push_buffer_event(events: &mut Vec<WorkerEvent>, data: Vec<u8>, stdout: bool)
    ensures
        events_of(final(events)@) == events_of(old(events)@) + buffer_event(data@, stdout),
{
    broadcast use lemma_events_push;
    if data.len() == 0 {
        assert(events_of(events@) + buffer_event(data@, stdout) =~= events_of(events@));
        return;
    }
    let event = if stdout {
        WorkerEvent::Stdout(data)
    } else {
        WorkerEvent::Stderr(data)
    };
    events.push(event);
    assert(events_of(events@) =~= events_of(old(events)@) + buffer_event(data@, stdout));
}

/// A message that waits for the host.
#[derive(Debug)]
pub struct Diagnostic {
    pub level: DiagnosticLevel,
    pub message: String,
}

/// The model of messages that wait.
pub open spec fn notes_of(v: Seq<Diagnostic>) -> Seq<EventView> {
    v.map_values(|d: Diagnostic| EventView::Diagnostic(d.level, d.message@))
}

/// Adds the messages to the answers.
pub fn push_diagnostics(events: &mut Vec<WorkerEvent>, diagnostics: Vec<Diagnostic>)
    ensures
        events_of(final(events)@) == events_of(old(events)@) + notes_of(diagnostics@),
{
    broadcast use lemma_events_push;
    let ghost before = events_of(events@);
    let ghost all = notes_of(diagnostics@);
    let mut i: usize = 0;
    assert(before + all.take(0) =~= before);
    while i < diagnostics.len()
        invariant
            i <= diagnostics@.len(),
            all == notes_of(diagnostics@),
            events_of(events@) == before + all.take(i as int),
        decreases diagnostics@.len() - i,
    {
        let d = &diagnostics[i];
        events.push(WorkerEvent::Diagnostic(d.level, d.message.clone()));
        proof {
            assert(all.take(i + 1) =~= all.take(i as int).push(all[i as int]));
            assert(before + all.take(i + 1) =~= (before + all.take(i as int)).push(all[i as int]));
        }
        i = i + 1;
    }
    assert(all.take(all.len() as int) =~= all);
}

} // verus!
