//! Where the output of commands ends up: captured, visible to the host, or elsewhere.
use crate::fd_table::{io_view, ExecIo, FdView, OutputTarget, OutputView};
use vstd::prelude::*;

verus! {

/// What can run out.
#[derive(Clone, Copy, Debug, PartialEq, Eq, Structural)]
pub enum BudgetCategory {
    Steps,
    VisibleOutputBytes,
    PipeBytes,
    RecursionDepth,
}

/// What ran out: how much was used of how much.
#[derive(Clone, Copy, Debug, PartialEq, Eq, Structural)]
pub struct ExhaustionReason {
    pub category: BudgetCategory,
    pub used: u64,
    pub limit: u64,
}

/// Why an execution stops early.
#[derive(Clone, Copy, Debug, PartialEq, Eq, Structural)]
pub enum StopReason {
    Exhausted(ExhaustionReason),
    Cancelled,
}

/// A scope in which output is collected instead of shown.
#[derive(Debug)]
pub struct OutputCapture {
    pub capture_stdout: bool,
    pub capture_stderr: bool,
    pub stdout: Vec<u8>,
    pub stderr: Vec<u8>,
}

/// What a scope collected.
#[derive(Debug)]
pub struct CapturedOutput {
    pub stdout: Vec<u8>,
    pub stderr: Vec<u8>,
}

/// A capture as mathematical data.
pub struct CaptureView {
    pub capture_stdout: bool,
    pub capture_stderr: bool,
    pub stdout: Seq<u8>,
    pub stderr: Seq<u8>,
}

impl View for OutputCapture {
    type V = CaptureView;

    open spec fn view(&self) -> CaptureView {
        CaptureView {
            capture_stdout: self.capture_stdout,
            capture_stderr: self.capture_stderr,
            stdout: self.stdout@,
            stderr: self.stderr@,
        }
    }
}

/// The output of a shell: the scopes that collect it, what the host has not taken yet, and how
/// much of it there was.
#[derive(Debug)]
pub struct Console {
    pub captures: Vec<OutputCapture>,
    pub stdout: Vec<u8>,
    pub stderr: Vec<u8>,
    pub output_bytes: u64,
    /// The most visible output that is allowed; zero for no limit.
    pub output_limit: u64,
    pub resource_exhausted: bool,
    pub stop_reason: Option<StopReason>,
}

/// The output of a shell as mathematical data.
pub struct ConsoleView {
    pub captures: Seq<CaptureView>,
    pub stdout: Seq<u8>,
    pub stderr: Seq<u8>,
    pub output_bytes: nat,
    pub output_limit: nat,
    pub resource_exhausted: bool,
    pub stop_reason: Option<StopReason>,
}

/// The model of a stack of captures.
pub open spec fn captures_view(v: Seq<OutputCapture>) -> Seq<CaptureView> {
    v.map_values(|c: OutputCapture| c@)
}

impl View for Console {
    type V = ConsoleView;

    open spec fn view(&self) -> ConsoleView {
        ConsoleView {
            captures: captures_view(self.captures@),
            stdout: self.stdout@,
            stderr: self.stderr@,
            output_bytes: self.output_bytes as nat,
            output_limit: self.output_limit as nat,
            resource_exhausted: self.resource_exhausted,
            stop_reason: self.stop_reason,
        }
    }
}

/// Whether a capture collects the stream.
pub open spec fn collects(c: CaptureView, stdout: bool) -> bool {
    if stdout {
        c.capture_stdout
    } else {
        c.capture_stderr
    }
}

/// The innermost capture that collects the stream, or `-1`.
pub open spec fn collector(captures: Seq<CaptureView>, stdout: bool) -> int
    decreases captures.len(),
{
    if captures.len() == 0 {
        -1
    } else if collects(captures.last(), stdout) {
        captures.len() - 1
    } else {
        collector(captures.drop_last(), stdout)
    }
}

/// A capture with more in it.
pub open spec fn with_data(c: CaptureView, data: Seq<u8>, stdout: bool) -> CaptureView {
    if stdout {
        CaptureView { stdout: c.stdout + data, ..c }
    } else {
        CaptureView { stderr: c.stderr + data, ..c }
    }
}

/// The stream that output of a stream belongs to, by the redirections; or where else it goes.
pub open spec fn routed(io: Option<FdView>, stdout: bool) -> Result<bool, OutputView> {
    match io {
        None => Ok(stdout),
        Some(t) => {
            let target = if stdout {
                t.stdout
            } else {
                t.stderr
            };
            match target {
                OutputView::InheritStdout => Ok(true),
                OutputView::InheritStderr => Ok(false),
                _ => Err(target),
            }
        },
    }
}

/// The output after data was added to a stream: to the innermost capture that collects it, or
/// to what the host sees.
pub open spec fn stored(c: ConsoleView, data: Seq<u8>, stdout: bool) -> ConsoleView {
    let i = collector(c.captures, stdout);
    if i >= 0 {
        ConsoleView {
            captures: c.captures.update(i, with_data(c.captures[i], data, stdout)),
            ..c
        }
    } else if stdout {
        ConsoleView { stdout: c.stdout + data, ..c }
    } else {
        ConsoleView { stderr: c.stderr + data, ..c }
    }
}

/// The output after so many visible bytes were accounted for: beyond the limit the execution
/// is to stop.
pub open spec fn accounted(c: ConsoleView, n: nat) -> ConsoleView {
    let used = c.output_bytes + n;
    let over = !c.resource_exhausted && c.output_limit > 0 && used > c.output_limit;
    ConsoleView {
        output_bytes: used,
        resource_exhausted: c.resource_exhausted || over,
        ..c
    }
}

/// The output after a command wrote data to a stream. Only what the host sees is accounted for.
pub open spec fn written_to(
    c: ConsoleView,
    io: Option<FdView>,
    data: Seq<u8>,
    stdout: bool,
) -> ConsoleView {
    match routed(io, stdout) {
        Ok(s) => if collector(c.captures, s) >= 0 {
            stored(c, data, s)
        } else {
            accounted(stored(c, data, s), data.len())
        },
        Err(_) => c,
    }
}

/// The output after visible bytes of a builtin were accounted for: the reason to stop is noted
/// at once.
pub open spec fn builtin_accounted(c: ConsoleView, n: nat) -> ConsoleView {
    let used = c.output_bytes + n;
    ConsoleView {
        stop_reason: if over_limit(c, n) {
            Some(StopReason::Exhausted(too_much_output(used, c.output_limit)))
        } else {
            None
        },
        ..accounted(c, n)
    }
}

/// Whether so many more visible bytes are the first to exceed the limit.
pub open spec fn over_limit(c: ConsoleView, n: nat) -> bool {
    !c.resource_exhausted && c.output_limit > 0 && c.output_bytes + n > c.output_limit
}

/// That there was too much output.
pub open spec fn too_much_output(used: nat, limit: nat) -> ExhaustionReason {
    ExhaustionReason {
        category: BudgetCategory::VisibleOutputBytes,
        used: used as u64,
        limit: limit as u64,
    }
}

/// The output after a builtin wrote data to a stream.
pub open spec fn builtin_written_to(
    c: ConsoleView,
    io: Option<FdView>,
    data: Seq<u8>,
    stdout: bool,
) -> ConsoleView {
    match routed(io, stdout) {
        Ok(s) => if collector(c.captures, s) >= 0 {
            stored(c, data, s)
        } else {
            builtin_accounted(stored(c, data, s), data.len())
        },
        Err(_) => c,
    }
}

/// The output after data was routed to a stream, without accounting for it.
pub open spec fn passed_to(
    c: ConsoleView,
    io: Option<FdView>,
    data: Seq<u8>,
    stdout: bool,
) -> ConsoleView {
    match routed(io, stdout) {
        Ok(s) => stored(c, data, s),
        Err(_) => c,
    }
}

/// How many bytes of data the host sees.
pub open spec fn visible_bytes(
    c: ConsoleView,
    io: Option<FdView>,
    data: Seq<u8>,
    stdout: bool,
) -> nat {
    match routed(io, stdout) {
        Ok(s) => if collector(c.captures, s) >= 0 {
            0
        } else {
            data.len()
        },
        Err(_) => 0,
    }
}

/// The output after a command wrote both streams, which are accounted for together.
pub open spec fn streams_written(
    c: ConsoleView,
    io: Option<FdView>,
    out: Seq<u8>,
    err: Seq<u8>,
) -> ConsoleView {
    let one = passed_to(c, io, out, true);
    let both = passed_to(one, io, err, false);
    let n = visible_bytes(c, io, out, true) + visible_bytes(one, io, err, false);
    if n > 0 {
        accounted(both, n)
    } else {
        both
    }
}

/// Whether a target is handed back exactly where a redirection takes a stream elsewhere.
pub open spec fn handed_back(io: Option<FdView>, stdout: bool, r: Option<OutputTarget>) -> bool {
    match routed(io, stdout) {
        Ok(_) => r is None,
        Err(t) => r matches Some(x) && x@ == t,
    }
}

/// What is written while a scope captures both streams is collected in order and nothing of it
/// becomes visible or is accounted for; closing the scope leaves the output as it was.
pub proof fn law_capture_keeps_output_private(c: ConsoleView, a: Seq<u8>, b: Seq<u8>)
    ensures
        ({
            let open = ConsoleView {
                captures: c.captures.push(
                    CaptureView {
                        capture_stdout: true,
                        capture_stderr: true,
                        stdout: Seq::empty(),
                        stderr: Seq::empty(),
                    },
                ),
                ..c
            };
            let after = written_to(written_to(open, None, a, true), None, b, false);
            &&& after.captures.last().stdout == a
            &&& after.captures.last().stderr == b
            &&& ConsoleView { captures: after.captures.drop_last(), ..after } == c
        }),
{
    let open = ConsoleView {
        captures: c.captures.push(
            CaptureView {
                capture_stdout: true,
                capture_stderr: true,
                stdout: Seq::empty(),
                stderr: Seq::empty(),
            },
        ),
        ..c
    };
    let one = written_to(open, None, a, true);
    let after = written_to(one, None, b, false);
    let n = c.captures.len() as int;
    assert(collector(open.captures, true) == n);
    assert(Seq::<u8>::empty() + a =~= a);
    assert(one.captures.last().stdout == a);
    assert(collector(one.captures, false) == n);
    assert(Seq::<u8>::empty() + b =~= b);
    assert(after.captures.drop_last() =~= c.captures);
}

/// Visible output beyond the limit stops the execution, and output up to it does not.
pub proof fn law_output_limit(c: ConsoleView, n: nat)
    requires
        !c.resource_exhausted,
        c.output_limit > 0,
    ensures
        accounted(c, n).resource_exhausted <==> c.output_bytes + n > c.output_limit,
{
}

/// The output of a shell that has printed nothing.
pub open spec fn silent(limit: nat) -> ConsoleView {
    ConsoleView {
        captures: Seq::empty(),
        stdout: Seq::empty(),
        stderr: Seq::empty(),
        output_bytes: 0,
        output_limit: limit,
        resource_exhausted: false,
        stop_reason: None,
    }
}

/// The output after the scopes and the reason to stop were forgotten.
pub open spec fn resumed(c: ConsoleView) -> ConsoleView {
    ConsoleView { captures: Seq::empty(), resource_exhausted: false, stop_reason: None, ..c }
}

impl Console {
    /// The output of a shell that has printed nothing.
    pub fn new(limit: u64) -> (r: Console)
        ensures
            r@ == silent(limit as nat),
    {
        let r = Console {
            captures: Vec::new(),
            stdout: Vec::new(),
            stderr: Vec::new(),
            output_bytes: 0,
            output_limit: limit,
            resource_exhausted: false,
            stop_reason: None,
        };
        proof {
            assert(captures_view(r.captures@) =~= Seq::empty());
            assert(r.stdout@ =~= Seq::empty());
            assert(r.stderr@ =~= Seq::empty());
        }
        r
    }

    /// Forgets the scopes that collect output and why the last execution stopped.
    pub fn resume(&mut self)
        ensures
            final(self)@ == resumed(old(self)@),
    {
        self.captures = Vec::new();
        self.resource_exhausted = false;
        self.stop_reason = None;
        assert(captures_view(self.captures@) =~= Seq::empty());
    }

    /// Takes what the host has not been handed of a stream.
    pub fn take_visible(&mut self, stdout: bool) -> (r: Vec<u8>)
        ensures
            r@ == (if stdout {
                old(self)@.stdout
            } else {
                old(self)@.stderr
            }),
            final(self)@ == (if stdout {
                ConsoleView { stdout: Seq::empty(), ..old(self)@ }
            } else {
                ConsoleView { stderr: Seq::empty(), ..old(self)@ }
            }),
    {
        let mut data: Vec<u8> = Vec::new();
        if stdout {
            std::mem::swap(&mut data, &mut self.stdout);
            assert(self.stdout@ =~= Seq::empty());
        } else {
            std::mem::swap(&mut data, &mut self.stderr);
            assert(self.stderr@ =~= Seq::empty());
        }
        data
    }

    /// The innermost capture that collects a stream.
    fn find_collector(&self, stdout: bool) -> (r: Option<usize>)
        ensures
            match r {
                Some(i) => collector(self@.captures, stdout) == i && i < self.captures@.len(),
                None => collector(self@.captures, stdout) == -1,
            },
    {
        let ghost all = self@.captures;
        let mut i: usize = self.captures.len();
        assert(all.take(i as int) =~= all);
        while i > 0
            invariant
                i <= self.captures@.len(),
                all == captures_view(self.captures@),
                collector(all, stdout) == collector(all.take(i as int), stdout),
            decreases i,
        {
            let c = &self.captures[i - 1];
            assert(all.take(i as int).last() == c@);
            let hit: bool = if stdout {
                c.capture_stdout
            } else {
                c.capture_stderr
            };
            if hit {
                return Some(i - 1);
            }
            assert(all.take(i as int).drop_last() =~= all.take(i - 1));
            i = i - 1;
        }
        None
    }

    /// Adds data to a stream, and says whether the host sees it.
    fn store(&mut self, data: &[u8], stdout: bool) -> (r: bool)
        ensures
            final(self)@ == stored(old(self)@, data@, stdout),
            r == (collector(old(self)@.captures, stdout) < 0),
    {
        match self.find_collector(stdout) {
            Some(i) => {
                let ghost before = self.captures@;
                if stdout {
                    self.captures[i].stdout.extend_from_slice(data);
                } else {
                    self.captures[i].stderr.extend_from_slice(data);
                }
                proof {
                    let d = with_data(before[i as int]@, data@, stdout);
                    assert(self.captures@[i as int]@.stdout =~= d.stdout);
                    assert(self.captures@[i as int]@.stderr =~= d.stderr);
                    assert(captures_view(self.captures@) =~= captures_view(before).update(
                        i as int,
                        d,
                    ));
                }
                false
            },
            None => {
                if stdout {
                    self.stdout.extend_from_slice(data);
                    assert(self.stdout@ =~= old(self).stdout@ + data@);
                } else {
                    self.stderr.extend_from_slice(data);
                    assert(self.stderr@ =~= old(self).stderr@ + data@);
                }
                true
            },
        }
    }

    /// Accounts for visible bytes.
    pub fn account_output(&mut self, bytes: usize)
        requires
            old(self).output_bytes + bytes <= u64::MAX,
        ensures
            final(self)@ == accounted(old(self)@, bytes as nat),
    {
        self.output_bytes = self.output_bytes + bytes as u64;
        if self.resource_exhausted {
            return;
        }
        if self.output_limit > 0 && self.output_bytes > self.output_limit {
            self.resource_exhausted = true;
        }
    }

    /// Writes data that a command printed. Where the redirections take it elsewhere, nothing is
    /// stored, and the target is returned.
    pub fn write_output(&mut self, io: &Option<ExecIo>, data: &[u8], stdout: bool) -> (r: Option<
        OutputTarget,
    >)
        requires
            old(self).output_bytes + data@.len() <= u64::MAX,
        ensures
            final(self)@ == written_to(old(self)@, io_view(*io), data@, stdout),
            match routed(io_view(*io), stdout) {
                Ok(_) => r is None,
                Err(t) => r matches Some(x) && x@ == t,
            },
    {
        match Console::route(io, stdout) {
            Ok(s) => {
                if self.store(data, s) {
                    self.account_output(data.len());
                }
                None
            },
            Err(target) => Some(target),
        }
    }

    /// Passes data to a stream; returns how many bytes of it the host sees, and the target where a
    /// redirection takes it elsewhere.
    fn pass(&mut self, io: &Option<ExecIo>, data: &[u8], stdout: bool) -> (r: (
        usize,
        Option<OutputTarget>,
    ))
        ensures
            final(self)@ == passed_to(old(self)@, io_view(*io), data@, stdout),
            r.0 == visible_bytes(old(self)@, io_view(*io), data@, stdout),
            handed_back(io_view(*io), stdout, r.1),
    {
        match Console::route(io, stdout) {
            Ok(s) => if self.store(data, s) {
                (data.len(), None)
            } else {
                (0, None)
            },
            Err(target) => (0, Some(target)),
        }
    }

    /// Writes what a command printed to both streams; returns the targets where redirections take
    /// them elsewhere.
    pub fn write_streams(&mut self, io: &Option<ExecIo>, out: &[u8], err: &[u8]) -> (r: (
        Option<OutputTarget>,
        Option<OutputTarget>,
    ))
        requires
            out@.len() + err@.len() <= usize::MAX,
            old(self).output_bytes + out@.len() + err@.len() <= u64::MAX,
        ensures
            final(self)@ == streams_written(old(self)@, io_view(*io), out@, err@),
            handed_back(io_view(*io), true, r.0),
            handed_back(io_view(*io), false, r.1),
    {
        let (seen_out, out_target) = self.pass(io, out, true);
        let (seen_err, err_target) = self.pass(io, err, false);
        assert(seen_out <= out@.len() && seen_err <= err@.len());
        if seen_out + seen_err > 0 {
            self.account_output(seen_out + seen_err);
        }
        (out_target, err_target)
    }

    /// Accounts for visible bytes of a builtin; returns what ran out by them.
    pub fn account_builtin_output(&mut self, bytes: usize) -> (r: Option<ExhaustionReason>)
        requires
            old(self).output_bytes + bytes <= u64::MAX,
        ensures
            final(self)@ == builtin_accounted(old(self)@, bytes as nat),
            r == (if over_limit(old(self)@, bytes as nat) {
                Some(
                    too_much_output(
                        (old(self).output_bytes + bytes) as nat,
                        old(self).output_limit as nat,
                    ),
                )
            } else {
                None
            }),
    {
        let before: bool = self.resource_exhausted;
        self.account_output(bytes);
        let reason = if !before && self.resource_exhausted {
            Some(
                ExhaustionReason {
                    category: BudgetCategory::VisibleOutputBytes,
                    used: self.output_bytes,
                    limit: self.output_limit,
                },
            )
        } else {
            None
        };
        self.stop_reason = match reason {
            Some(x) => Some(StopReason::Exhausted(x)),
            None => None,
        };
        reason
    }

    /// Where the redirections take a stream: one of the two that the shell shows, or elsewhere.
    fn route(io: &Option<ExecIo>, stdout: bool) -> (r: Result<bool, OutputTarget>)
        ensures
            match routed(io_view(*io), stdout) {
                Ok(s) => r == Ok::<bool, OutputTarget>(s),
                Err(t) => r matches Err(x) && x@ == t,
            },
    {
        match io {
            Some(x) => {
                let target = x.output_target(stdout);
                match target {
                    OutputTarget::InheritStdout => Ok(true),
                    OutputTarget::InheritStderr => Ok(false),
                    other => Err(other),
                }
            },
            None => Ok(stdout),
        }
    }

    /// Writes data that a builtin printed. Where the redirections take it elsewhere, nothing is
    /// stored and the target is returned; else what ran out by it, if anything.
    pub fn write_builtin_output(
        &mut self,
        io: &Option<ExecIo>,
        data: &[u8],
        stdout: bool,
    ) -> (r: Result<Option<ExhaustionReason>, OutputTarget>)
        requires
            old(self).output_bytes + data@.len() <= u64::MAX,
        ensures
            final(self)@ == builtin_written_to(old(self)@, io_view(*io), data@, stdout),
            match routed(io_view(*io), stdout) {
                Ok(s) => r matches Ok(x) && x == (if collector(old(self)@.captures, s) < 0
                    && over_limit(old(self)@, data@.len()) {
                    Some(
                        too_much_output(
                            (old(self).output_bytes + data@.len()) as nat,
                            old(self).output_limit as nat,
                        ),
                    )
                } else {
                    None
                }),
                Err(t) => r matches Err(x) && x@ == t,
            },
    {
        match Console::route(io, stdout) {
            Ok(s) => {
                if self.store(data, s) {
                    Ok(self.account_builtin_output(data.len()))
                } else {
                    Ok(None)
                }
            },
            Err(target) => Err(target),
        }
    }

    /// Opens a scope that collects output.
    pub fn push_output_capture(&mut self, capture_stdout: bool, capture_stderr: bool)
        ensures
            final(self)@ == (ConsoleView {
                captures: old(self)@.captures.push(
                    CaptureView {
                        capture_stdout,
                        capture_stderr,
                        stdout: Seq::empty(),
                        stderr: Seq::empty(),
                    },
                ),
                ..old(self)@
            }),
    {
        let c = OutputCapture {
            capture_stdout,
            capture_stderr,
            stdout: Vec::new(),
            stderr: Vec::new(),
        };
        proof {
            assert(c.stdout@ =~= Seq::empty());
            assert(c.stderr@ =~= Seq::empty());
        }
        self.captures.push(c);
        assert(captures_view(self.captures@) =~= captures_view(old(self).captures@).push(c@));
    }

    /// Closes the innermost scope and hands out what it collected.
    pub fn pop_output_capture(&mut self) -> (r: CapturedOutput)
        requires
            old(self).captures@.len() > 0,
        ensures
            r.stdout@ == old(self)@.captures.last().stdout,
            r.stderr@ == old(self)@.captures.last().stderr,
            final(self)@ == (ConsoleView {
                captures: old(self)@.captures.drop_last(),
                ..old(self)@
            }),
    {
        match self.captures.pop() {
            Some(c) => {
                assert(captures_view(self.captures@) =~= captures_view(
                    old(self).captures@,
                ).drop_last());
                CapturedOutput { stdout: c.stdout, stderr: c.stderr }
            },
            None => CapturedOutput { stdout: Vec::new(), stderr: Vec::new() },
        }
    }

    /// How much standard output is in the buffer that takes it now.
    pub fn current_stdout_len(&self) -> (r: usize)
        ensures
            r == active_stdout(self@).len(),
    {
        match self.find_collector(true) {
            Some(i) => self.captures[i].stdout.len(),
            None => self.stdout.len(),
        }
    }

    /// Takes the standard output from a position on out of the buffer that takes it now.
    pub fn capture_stdout(&mut self, from: usize) -> (r: Vec<u8>)
        requires
            from <= active_stdout(old(self)@).len(),
        ensures
            r@ == active_stdout(old(self)@).skip(from as int),
            final(self)@ == cut_stdout(old(self)@, from as int),
    {
        match self.find_collector(true) {
            Some(i) => {
                let ghost before = self.captures@;
                let all = self.captures[i].stdout.as_slice();
                let data = vstd::slice::slice_to_vec(
                    vstd::slice::slice_subrange(all, from, all.len()),
                );
                self.captures[i].stdout.truncate(from);
                proof {
                    let c = before[i as int]@;
                    assert(data@ =~= c.stdout.skip(from as int));
                    assert(self.captures@[i as int]@.stdout =~= c.stdout.take(from as int));
                    assert(captures_view(self.captures@) =~= captures_view(before).update(
                        i as int,
                        CaptureView { stdout: c.stdout.take(from as int), ..c },
                    ));
                }
                data
            },
            None => {
                let all = self.stdout.as_slice();
                let data = vstd::slice::slice_to_vec(
                    vstd::slice::slice_subrange(all, from, all.len()),
                );
                self.stdout.truncate(from);
                assert(data@ =~= old(self).stdout@.skip(from as int));
                assert(self.stdout@ =~= old(self).stdout@.take(from as int));
                data
            },
        }
    }

    /// Takes all standard error out of the buffer that takes it now.
    pub fn take_stderr(&mut self) -> (r: Vec<u8>)
        ensures
            r@ == active_stderr(old(self)@),
            final(self)@ == no_stderr(old(self)@),
    {
        let mut data: Vec<u8> = Vec::new();
        match self.find_collector(false) {
            Some(i) => {
                let ghost before = self.captures@;
                std::mem::swap(&mut data, &mut self.captures[i].stderr);
                proof {
                    let c = before[i as int]@;
                    assert(self.captures@[i as int]@.stderr =~= Seq::empty());
                    assert(captures_view(self.captures@) =~= captures_view(before).update(
                        i as int,
                        CaptureView { stderr: Seq::empty(), ..c },
                    ));
                }
            },
            None => {
                std::mem::swap(&mut data, &mut self.stderr);
                assert(self.stderr@ =~= Seq::empty());
            },
        }
        data
    }
}

/// The standard output of the buffer that takes it now.
pub open spec fn active_stdout(c: ConsoleView) -> Seq<u8> {
    let i = collector(c.captures, true);
    if i >= 0 {
        c.captures[i].stdout
    } else {
        c.stdout
    }
}

/// The standard error of the buffer that takes it now.
pub open spec fn active_stderr(c: ConsoleView) -> Seq<u8> {
    let i = collector(c.captures, false);
    if i >= 0 {
        c.captures[i].stderr
    } else {
        c.stderr
    }
}

/// The output after the active standard output was cut at a position.
pub open spec fn cut_stdout(c: ConsoleView, from: int) -> ConsoleView {
    let i = collector(c.captures, true);
    if i >= 0 {
        ConsoleView {
            captures: c.captures.update(
                i,
                CaptureView { stdout: c.captures[i].stdout.take(from), ..c.captures[i] },
            ),
            ..c
        }
    } else {
        ConsoleView { stdout: c.stdout.take(from), ..c }
    }
}

/// The output after the active standard error was taken.
pub open spec fn no_stderr(c: ConsoleView) -> ConsoleView {
    let i = collector(c.captures, false);
    if i >= 0 {
        ConsoleView {
            captures: c.captures.update(
                i,
                CaptureView { stderr: Seq::empty(), ..c.captures[i] },
            ),
            ..c
        }
    } else {
        ConsoleView { stderr: Seq::empty(), ..c }
    }
}

} // verus!
