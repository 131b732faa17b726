//! The processes of a streaming pipeline. A process says what it wants done next, and is told
//! what came of it.
use crate::ascii::NEWLINE;
use crate::stream::ends::StreamingHeadMode;
use vstd::prelude::*;
use vstd::utf8::encode_utf8;

verus! {

/// What came of writing to a pipe.
#[derive(Clone, Copy, Debug, PartialEq, Eq, Structural)]
pub enum WriteResult {
    /// All bytes were taken.
    Written(usize),
    /// So many bytes were taken before the pipe was full.
    WouldBlock(usize),
    /// Nobody reads the pipe any more.
    BrokenPipe,
}

/// What came of reading.
#[derive(Debug)]
pub enum ReadOutcome {
    Read(Vec<u8>),
    WouldBlock,
    Eof,
    /// Reading failed, with the reason.
    Failed(String),
}

/// What a poll of a process came to.
#[derive(Clone, Copy, Debug, PartialEq, Eq, Structural)]
pub enum PipeProcessPoll {
    Ready,
    PendingRead,
    PendingWrite,
    Exited,
}

/// What a process wants done next.
pub enum Want {
    /// These bytes written to its output; what comes of it goes to `wrote`.
    Write(Vec<u8>),
    /// These bytes of its standard error written to its output; what comes of it goes to
    /// `wrote_stderr`.
    WriteStderr(Vec<u8>),
    /// Up to so many bytes read from its input; what comes of it goes to `took`.
    Read(usize),
    /// Its output closed: the process is over.
    Finish,
}

/// How many bytes a write took.
pub open spec fn taken_by(w: WriteResult) -> int {
    match w {
        WriteResult::Written(n) => n as int,
        WriteResult::WouldBlock(n) => n as int,
        WriteResult::BrokenPipe => 0,
    }
}

/// Whether a write can have come to this for so many bytes.
pub open spec fn write_fits(w: WriteResult, n: int) -> bool {
    0 <= taken_by(w) <= n
}

/// What a poll comes to after a write: a full pipe blocks, a broken one ends the process.
pub open spec fn poll_after_write(w: WriteResult) -> PipeProcessPoll {
    match w {
        WriteResult::Written(_) => PipeProcessPoll::Ready,
        WriteResult::WouldBlock(n) => if n == 0 {
            PipeProcessPoll::PendingWrite
        } else {
            PipeProcessPoll::Ready
        },
        WriteResult::BrokenPipe => PipeProcessPoll::Exited,
    }
}

/// Bytes on their way to the output.
pub struct Outbox {
    pending: Vec<u8>,
    /// All that was put in.
    taken: Ghost<Seq<u8>>,
    /// All that was sent.
    sent: Ghost<Seq<u8>>,
}

impl Outbox {
    /// Every byte that was put in was sent or waits, in order and once.
    #[verifier::type_invariant]
    spec fn keeps_bytes(self) -> bool {
        self.sent@ + self.pending@ == self.taken@
    }

    /// The bytes that wait.
    pub closed spec fn waiting(self) -> Seq<u8> {
        self.pending@
    }

    /// All that was put in.
    pub closed spec fn taken(self) -> Seq<u8> {
        self.taken@
    }

    /// All that was sent.
    pub closed spec fn sent(self) -> Seq<u8> {
        self.sent@
    }

    /// Nothing on its way.
    pub fn new() -> (r: Outbox)
        ensures
            r.waiting() == Seq::<u8>::empty(),
            r.taken() == Seq::<u8>::empty(),
            r.sent() == Seq::<u8>::empty(),
    {
        let pending: Vec<u8> = Vec::new();
        assert(pending@ =~= Seq::<u8>::empty());
        assert(Seq::<u8>::empty() + pending@ =~= Seq::<u8>::empty());
        Outbox { pending, taken: Ghost(Seq::empty()), sent: Ghost(Seq::empty()) }
    }

    /// Whether nothing waits.
    pub fn is_empty(&self) -> (r: bool)
        ensures
            r == (self.waiting().len() == 0),
    {
        self.pending.len() == 0
    }

    /// A copy of the bytes that wait. Whatever order bytes were put in and sent in, what was
    /// sent and what waits are together what was put in: no byte is lost, repeated or moved.
    pub fn bytes(&self) -> (r: Vec<u8>)
        ensures
            r@ == self.waiting(),
            self.sent() + self.waiting() == self.taken(),
    {
        proof {
            use_type_invariant(self);
        }
        vstd::slice::slice_to_vec(self.pending.as_slice())
    }

    /// Puts bytes behind those that wait.
    pub fn put(&mut self, data: &[u8])
        ensures
            final(self).waiting() == old(self).waiting() + data@,
            final(self).taken() == old(self).taken() + data@,
            final(self).sent() == old(self).sent(),
    {
        proof {
            use_type_invariant(&*self);
        }
        let ghost waiting = self.waiting();
        let mut pending = self.bytes();
        pending.extend_from_slice(data);
        let ghost taken = self.taken@ + data@;
        let ghost sent = self.sent@;
        assert(pending@ =~= waiting + data@);
        assert(sent + pending@ =~= taken);
        *self = Outbox { pending, taken: Ghost(taken), sent: Ghost(sent) };
    }

    /// Takes note that so many bytes were sent, and returns them.
    pub fn advance(&mut self, n: usize) -> (r: Vec<u8>)
        requires
            n <= old(self).waiting().len(),
        ensures
            r@ == old(self).waiting().take(n as int),
            final(self).waiting() == old(self).waiting().skip(n as int),
            final(self).taken() == old(self).taken(),
            final(self).sent() == old(self).sent() + old(self).waiting().take(n as int),
    {
        proof {
            use_type_invariant(&*self);
        }
        let ghost waiting = self.waiting();
        let all = self.pending.as_slice();
        let chunk = vstd::slice::slice_to_vec(vstd::slice::slice_subrange(all, 0, n));
        let pending = vstd::slice::slice_to_vec(vstd::slice::slice_subrange(all, n, all.len()));
        let ghost taken = self.taken@;
        let ghost sent = self.sent@ + waiting.take(n as int);
        proof {
            assert(chunk@ =~= waiting.take(n as int));
            assert(pending@ =~= waiting.skip(n as int));
            assert(waiting.take(n as int) + waiting.skip(n as int) =~= waiting);
            assert(sent + pending@ =~= taken);
        }
        *self = Outbox { pending, taken: Ghost(taken), sent: Ghost(sent) };
        chunk
    }
}

/// `head` as a process: it reads byte by byte so as not to take more than it keeps.
pub struct HeadProcess {
    pub out: Outbox,
    pub mode: StreamingHeadMode,
    pub lines_seen: usize,
    /// Whether all that is kept has been read.
    pub complete: bool,
    pub finished: bool,
}

impl HeadProcess {
    /// Whether the count of lines can go on.
    pub open spec fn wf(&self) -> bool {
        !self.complete ==> (self.mode matches StreamingHeadMode::Lines(limit) ==> self.lines_seen
            == 0 || self.lines_seen < limit)
    }

    /// A process that has read nothing.
    pub fn new(mode: StreamingHeadMode) -> (r: HeadProcess)
        ensures
            r.wf(),
            r.out.waiting() == Seq::<u8>::empty(),
            r.out.taken() == Seq::<u8>::empty(),
            r.out.sent() == Seq::<u8>::empty(),
            r.mode == mode,
            r.lines_seen == 0,
            !r.complete,
            !r.finished,
    {
        HeadProcess { out: Outbox::new(), mode, lines_seen: 0, complete: false, finished: false }
    }

    /// What the process wants: waiting bytes written, then one byte read until all that is
    /// kept has come.
    pub fn next(&self) -> (r: Want)
        ensures
            match r {
                Want::Write(data) => !self.finished && self.out.waiting().len() > 0 && data@
                    == self.out.waiting(),
                Want::WriteStderr(_) => false,
                Want::Read(n) => !self.finished && self.out.waiting().len() == 0 && !self.complete
                    && n == 1,
                Want::Finish => self.finished || (self.out.waiting().len() == 0 && self.complete),
            },
    {
        if self.finished {
            Want::Finish
        } else if !self.out.is_empty() {
            Want::Write(self.out.bytes())
        } else if self.complete {
            Want::Finish
        } else {
            Want::Read(1)
        }
    }

    /// Takes note of a write. The process is over once all that it keeps is written, or where
    /// nobody reads it.
    pub fn wrote(&mut self, w: WriteResult) -> (r: PipeProcessPoll)
        requires
            old(self).wf(),
            !old(self).finished,
            write_fits(w, old(self).out.waiting().len() as int),
        ensures
            final(self).wf(),
            final(self).mode == old(self).mode,
            final(self).lines_seen == old(self).lines_seen,
            final(self).complete == old(self).complete,
            final(self).out.taken() == old(self).out.taken(),
            final(self).out.waiting() == old(self).out.waiting().skip(taken_by(w)),
            final(self).out.sent() == old(self).out.sent() + old(self).out.waiting().take(
                taken_by(w),
            ),
            ({
                let all_written = w is Written && final(self).out.waiting().len() == 0;
                &&& final(self).finished == (w is BrokenPipe || (all_written && old(self).complete))
                &&& r == if final(self).finished {
                    PipeProcessPoll::Exited
                } else {
                    poll_after_write(w)
                }
            }),
    {
        match w {
            WriteResult::Written(n) => {
                let _ = self.out.advance(n);
                if self.out.is_empty() && self.complete {
                    self.finished = true;
                    return PipeProcessPoll::Exited;
                }
                PipeProcessPoll::Ready
            },
            WriteResult::WouldBlock(n) => {
                let _ = self.out.advance(n);
                if n == 0 {
                    PipeProcessPoll::PendingWrite
                } else {
                    PipeProcessPoll::Ready
                }
            },
            WriteResult::BrokenPipe => {
                assert(self.out.waiting().skip(0) =~= self.out.waiting());
                assert(self.out.sent() + self.out.waiting().take(0) =~= self.out.sent());
                self.finished = true;
                PipeProcessPoll::Exited
            },
        }
    }

    /// Takes note of a read of one byte. Where the poll is not over, nothing is returned.
    pub fn took(&mut self, outcome: ReadOutcome) -> (r: Option<PipeProcessPoll>)
        requires
            old(self).wf(),
            !old(self).finished,
            !old(self).complete,
            old(self).out.waiting().len() == 0,
            outcome matches ReadOutcome::Read(data) ==> data@.len() == 1,
        ensures
            final(self).wf(),
            !final(self).finished,
            match outcome {
                ReadOutcome::Read(data) => {
                    &&& r is None
                    &&& final(self).out.waiting() == data@
                    &&& final(self).out.taken() == old(self).out.taken() + data@
                    &&& final(self).out.sent() == old(self).out.sent()
                    &&& match old(self).mode {
                        StreamingHeadMode::Bytes(n) => {
                            let left: int = if n > 0 {
                                n - 1
                            } else {
                                0
                            };
                            &&& final(self).mode == StreamingHeadMode::Bytes(left as usize)
                            &&& final(self).complete == (left == 0)
                            &&& final(self).lines_seen == old(self).lines_seen
                        },
                        StreamingHeadMode::Lines(limit) => {
                            &&& final(self).mode == old(self).mode
                            &&& final(self).lines_seen == old(self).lines_seen + (if data@[0]
                                == NEWLINE {
                                1int
                            } else {
                                0
                            })
                            &&& final(self).complete == (data@[0] == NEWLINE
                                && final(self).lines_seen >= limit)
                        },
                    }
                },
                ReadOutcome::WouldBlock => r == Some(PipeProcessPoll::PendingRead)
                    && *final(self) == *old(self),
                ReadOutcome::Eof => r is None && *final(self) == (HeadProcess {
                    complete: true,
                    ..*old(self)
                }),
                ReadOutcome::Failed(_) => r is None && *final(self) == (HeadProcess {
                    complete: true,
                    ..*old(self)
                }),
            },
    {
        match outcome {
            ReadOutcome::Read(data) => {
                self.out.put(data.as_slice());
                assert(Seq::<u8>::empty() + data@ =~= data@);
                assert(old(self).out.waiting() =~= Seq::<u8>::empty());
                match self.mode {
                    StreamingHeadMode::Bytes(n) => {
                        let left: usize = if n > 0 {
                            n - 1
                        } else {
                            0
                        };
                        self.mode = StreamingHeadMode::Bytes(left);
                        self.complete = left == 0;
                    },
                    StreamingHeadMode::Lines(limit) => {
                        if data[0] == NEWLINE {
                            self.lines_seen = self.lines_seen + 1;
                            self.complete = self.lines_seen >= limit;
                        }
                    },
                }
                None
            },
            ReadOutcome::WouldBlock => Some(PipeProcessPoll::PendingRead),
            ReadOutcome::Eof => {
                self.complete = true;
                None
            },
            ReadOutcome::Failed(_) => {
                self.complete = true;
                None
            },
        }
    }
}

/// A process that hands on what it reads: a stage of a pipeline, or `tee`, which also hands
/// it to files.
pub struct RelayProcess {
    pub out: Outbox,
    pub stderr: Vec<u8>,
    pub stderr_offset: usize,
    pub status: i32,
    pub label: String,
    /// Whether the standard error goes to the output too.
    pub pipe_stderr: bool,
    pub reader_done: bool,
    pub finished: bool,
}

/// The message for a failed read.
pub open spec fn read_error_message(label: Seq<char>, err: Seq<char>) -> Seq<char> {
    "wasmsh: "@ + label + ": streaming pipeline read error: "@ + err + "\n"@
}

/// The message for a file that `tee` cannot write.
pub open spec fn tee_error_message(path: Seq<char>, err: Seq<char>) -> Seq<char> {
    "tee: "@ + path + ": "@ + err + "\n"@
}

impl RelayProcess {
    /// Whether no more of the standard error was sent than there is.
    pub open spec fn wf(&self) -> bool {
        self.stderr_offset <= self.stderr@.len()
    }

    /// The standard error that is still to be sent to the output.
    pub open spec fn stderr_left(&self) -> Seq<u8> {
        if self.pipe_stderr {
            self.stderr@.skip(self.stderr_offset as int)
        } else {
            Seq::empty()
        }
    }

    /// All that waits to be sent, in order.
    pub open spec fn waiting(&self) -> Seq<u8> {
        self.out.waiting() + self.stderr_left()
    }

    /// Whether standard error waits to be sent.
    pub open spec fn stderr_waits(&self) -> bool {
        self.pipe_stderr && self.stderr_offset < self.stderr@.len()
    }

    /// A process that has read nothing.
    pub fn new(label: String, status: i32, pipe_stderr: bool) -> (r: RelayProcess)
        ensures
            r.wf(),
            r.out.waiting() == Seq::<u8>::empty(),
            r.out.taken() == Seq::<u8>::empty(),
            r.out.sent() == Seq::<u8>::empty(),
            r.stderr@.len() == 0,
            r.stderr_offset == 0,
            r.status == status,
            r.label == label,
            r.pipe_stderr == pipe_stderr,
            !r.reader_done,
            !r.finished,
    {
        RelayProcess {
            out: Outbox::new(),
            stderr: Vec::new(),
            stderr_offset: 0,
            status,
            label,
            pipe_stderr,
            reader_done: false,
            finished: false,
        }
    }

    /// What the process wants: waiting bytes written, then standard error where that goes to
    /// the output, then more read until the input is done.
    pub fn next(&self) -> (r: Want)
        requires
            self.wf(),
        ensures
            match r {
                Want::Write(data) => !self.finished && self.out.waiting().len() > 0 && data@
                    == self.out.waiting(),
                Want::WriteStderr(data) => !self.finished && self.out.waiting().len() == 0
                    && self.stderr_waits() && data@ == self.stderr@.skip(self.stderr_offset as int),
                Want::Read(n) => !self.finished && self.out.waiting().len() == 0
                    && !self.stderr_waits() && !self.reader_done && n == 4096,
                Want::Finish => self.finished || (self.out.waiting().len() == 0
                    && !self.stderr_waits() && self.reader_done),
            },
    {
        if self.finished {
            Want::Finish
        } else if !self.out.is_empty() {
            Want::Write(self.out.bytes())
        } else if self.pipe_stderr && self.stderr_offset < self.stderr.len() {
            let data = vstd::slice::slice_to_vec(
                vstd::slice::slice_subrange(
                    self.stderr.as_slice(),
                    self.stderr_offset,
                    self.stderr.len(),
                ),
            );
            assert(data@ =~= self.stderr@.skip(self.stderr_offset as int));
            Want::WriteStderr(data)
        } else if self.reader_done {
            Want::Finish
        } else {
            Want::Read(4096)
        }
    }

    /// Takes note of a write, and returns the bytes that it took: those are what `tee` hands to
    /// its files.
    pub fn wrote(&mut self, w: WriteResult) -> (r: (PipeProcessPoll, Vec<u8>))
        requires
            old(self).wf(),
            !old(self).finished,
            write_fits(w, old(self).out.waiting().len() as int),
        ensures
            final(self).wf(),
            r.0 == poll_after_write(w),
            r.1@ == old(self).out.waiting().take(taken_by(w)),
            final(self).finished == (w is BrokenPipe),
            final(self).out.taken() == old(self).out.taken(),
            final(self).out.waiting() == old(self).out.waiting().skip(taken_by(w)),
            final(self).out.sent() == old(self).out.sent() + old(self).out.waiting().take(
                taken_by(w),
            ),
            final(self).stderr == old(self).stderr,
            final(self).stderr_offset == old(self).stderr_offset,
            final(self).status == old(self).status,
            final(self).label == old(self).label,
            final(self).pipe_stderr == old(self).pipe_stderr,
            final(self).reader_done == old(self).reader_done,
    {
        match w {
            WriteResult::Written(n) => {
                let chunk = self.out.advance(n);
                (PipeProcessPoll::Ready, chunk)
            },
            WriteResult::WouldBlock(n) => {
                let chunk = self.out.advance(n);
                if n == 0 {
                    (PipeProcessPoll::PendingWrite, chunk)
                } else {
                    (PipeProcessPoll::Ready, chunk)
                }
            },
            WriteResult::BrokenPipe => {
                let none: Vec<u8> = Vec::new();
                assert(self.out.waiting().skip(0) =~= self.out.waiting());
                assert(self.out.sent() + self.out.waiting().take(0) =~= self.out.sent());
                assert(none@ =~= self.out.waiting().take(0));
                self.finished = true;
                (PipeProcessPoll::Exited, none)
            },
        }
    }

    /// Takes note of a write of standard error.
    pub fn wrote_stderr(&mut self, w: WriteResult) -> (r: PipeProcessPoll)
        requires
            old(self).wf(),
            !old(self).finished,
            write_fits(w, old(self).stderr@.len() - old(self).stderr_offset),
        ensures
            final(self).wf(),
            r == if w is BrokenPipe {
                PipeProcessPoll::Exited
            } else if taken_by(w) > 0 {
                PipeProcessPoll::Ready
            } else {
                PipeProcessPoll::PendingWrite
            },
            *final(self) == (RelayProcess {
                stderr_offset: (old(self).stderr_offset + taken_by(w)) as usize,
                finished: w is BrokenPipe,
                ..*old(self)
            }),
    {
        let n: usize = match w {
            WriteResult::Written(n) => n,
            WriteResult::WouldBlock(n) => n,
            WriteResult::BrokenPipe => {
                self.finished = true;
                return PipeProcessPoll::Exited;
            },
        };
        assert(self.stderr_offset + n <= self.stderr.len());
        self.stderr_offset = self.stderr_offset + n;
        if n > 0 {
            PipeProcessPoll::Ready
        } else {
            PipeProcessPoll::PendingWrite
        }
    }

    /// Adds a message to the standard error and sets the status to one.
    fn fail(&mut self, message: &str)
        requires
            old(self).wf(),
        ensures
            final(self).wf(),
            final(self).stderr@ == old(self).stderr@ + encode_utf8(message@),
            final(self).status == 1,
            final(self).out == old(self).out,
            final(self).stderr_offset == old(self).stderr_offset,
            final(self).label == old(self).label,
            final(self).pipe_stderr == old(self).pipe_stderr,
            final(self).reader_done == old(self).reader_done,
            final(self).finished == old(self).finished,
    {
        crate::stream::lines::emit_str(&mut self.stderr, message);
        self.status = 1;
    }

    /// Takes note of a read. Where the poll is not over, nothing is returned. A failed read
    /// counts as the end of the input, with a message and the status one.
    pub fn took(&mut self, outcome: ReadOutcome) -> (r: Option<PipeProcessPoll>)
        requires
            old(self).wf(),
            !old(self).finished,
            !old(self).reader_done,
            old(self).out.waiting().len() == 0,
        ensures
            final(self).wf(),
            !final(self).finished,
            final(self).label == old(self).label,
            final(self).pipe_stderr == old(self).pipe_stderr,
            final(self).stderr_offset == old(self).stderr_offset,
            final(self).out.sent() == old(self).out.sent(),
            match outcome {
                ReadOutcome::Read(data) => {
                    &&& r is None
                    &&& final(self).out.waiting() == data@
                    &&& final(self).out.taken() == old(self).out.taken() + data@
                    &&& final(self).reader_done == (data@.len() == 0)
                    &&& final(self).stderr == old(self).stderr
                    &&& final(self).status == old(self).status
                },
                ReadOutcome::WouldBlock => r == Some(PipeProcessPoll::PendingRead)
                    && *final(self) == *old(self),
                ReadOutcome::Eof => r is None && *final(self) == (RelayProcess {
                    reader_done: true,
                    ..*old(self)
                }),
                ReadOutcome::Failed(err) => {
                    &&& r is None
                    &&& final(self).reader_done
                    &&& final(self).status == 1
                    &&& final(self).out == old(self).out
                    &&& final(self).stderr@ == old(self).stderr@ + encode_utf8(
                        read_error_message(old(self).label@, err@),
                    )
                },
            },
    {
        match outcome {
            ReadOutcome::Read(data) => {
                self.out.put(data.as_slice());
                assert(old(self).out.waiting() =~= Seq::<u8>::empty());
                assert(Seq::<u8>::empty() + data@ =~= data@);
                if data.len() == 0 {
                    self.reader_done = true;
                }
                None
            },
            ReadOutcome::WouldBlock => Some(PipeProcessPoll::PendingRead),
            ReadOutcome::Eof => {
                self.reader_done = true;
                None
            },
            ReadOutcome::Failed(err) => {
                let mut message = "wasmsh: ".to_owned();
                message.append(self.label.as_str());
                message.append(": streaming pipeline read error: ");
                message.append(err.as_str());
                message.append("\n");
                self.fail(message.as_str());
                self.reader_done = true;
                None
            },
        }
    }

    /// Takes note that a file of `tee` could not be opened or written.
    pub fn target_failed(&mut self, path: &str, err: &str)
        requires
            old(self).wf(),
        ensures
            final(self).wf(),
            final(self).stderr@ == old(self).stderr@ + encode_utf8(tee_error_message(path@, err@)),
            final(self).status == 1,
            final(self).out == old(self).out,
            final(self).stderr_offset == old(self).stderr_offset,
            final(self).label == old(self).label,
            final(self).pipe_stderr == old(self).pipe_stderr,
            final(self).reader_done == old(self).reader_done,
            final(self).finished == old(self).finished,
    {
        let mut message = "tee: ".to_owned();
        message.append(path);
        message.append(": ");
        message.append(err);
        message.append("\n");
        self.fail(message.as_str());
    }
}

/// What a process that runs a whole command wants done next.
pub enum BufferedWant {
    /// These bytes written to its output.
    Write(Vec<u8>),
    /// Up to so many bytes read from its input.
    Read(usize),
    /// Its command run on the input that was staged.
    Run,
    /// Its output closed: the process is over.
    Finish,
}

/// What is to be done about what a read came to.
pub enum Staged {
    /// These bytes are to be added to the staged input.
    Add(Vec<u8>),
    /// Nothing is there to read yet.
    Wait,
    /// The input is complete: it is closed, and the command runs.
    Complete,
}

/// A process that collects its input, then runs a command on it, then sends what that printed.
pub struct BufferedProcess {
    pub out: Outbox,
    pub stderr: Vec<u8>,
    pub status: i32,
    pub has_input: bool,
    /// Whether the standard error goes to the output too.
    pub pipe_stderr: bool,
    pub command_ran: bool,
    pub finished: bool,
}

/// The message for input that cannot be staged.
pub open spec fn staging_error_message(label: Seq<char>, err: Seq<char>) -> Seq<char> {
    "wasmsh: "@ + label + ": failed to stage pipeline input for streaming: "@ + err + "\n"@
}

impl BufferedProcess {
    /// A process that has read nothing.
    pub fn new(has_input: bool, status: i32, pipe_stderr: bool) -> (r: BufferedProcess)
        ensures
            r.out.waiting() == Seq::<u8>::empty(),
            r.out.taken() == Seq::<u8>::empty(),
            r.out.sent() == Seq::<u8>::empty(),
            r.stderr@.len() == 0,
            r.status == status,
            r.has_input == has_input,
            r.pipe_stderr == pipe_stderr,
            !r.command_ran,
            !r.finished,
    {
        BufferedProcess {
            out: Outbox::new(),
            stderr: Vec::new(),
            status,
            has_input,
            pipe_stderr,
            command_ran: false,
            finished: false,
        }
    }

    /// What the process wants.
    pub fn next(&self) -> (r: BufferedWant)
        ensures
            match r {
                BufferedWant::Write(data) => !self.finished && self.out.waiting().len() > 0 && data@
                    == self.out.waiting(),
                BufferedWant::Finish => self.finished || (self.out.waiting().len() == 0
                    && self.command_ran),
                BufferedWant::Run => !self.finished && self.out.waiting().len() == 0
                    && !self.command_ran && !self.has_input,
                BufferedWant::Read(n) => !self.finished && self.out.waiting().len() == 0
                    && !self.command_ran && self.has_input && n == 4096,
            },
    {
        if self.finished {
            BufferedWant::Finish
        } else if !self.out.is_empty() {
            BufferedWant::Write(self.out.bytes())
        } else if self.command_ran {
            BufferedWant::Finish
        } else if !self.has_input {
            BufferedWant::Run
        } else {
            BufferedWant::Read(4096)
        }
    }

    /// Takes note of a write. The process is over once all that the command printed is
    /// written, or where nobody reads it.
    pub fn wrote(&mut self, w: WriteResult) -> (r: PipeProcessPoll)
        requires
            !old(self).finished,
            write_fits(w, old(self).out.waiting().len() as int),
        ensures
            final(self).out.taken() == old(self).out.taken(),
            final(self).out.waiting() == old(self).out.waiting().skip(taken_by(w)),
            final(self).out.sent() == old(self).out.sent() + old(self).out.waiting().take(
                taken_by(w),
            ),
            final(self).stderr == old(self).stderr,
            final(self).status == old(self).status,
            final(self).has_input == old(self).has_input,
            final(self).pipe_stderr == old(self).pipe_stderr,
            final(self).command_ran == old(self).command_ran,
            ({
                let all_written = w is Written && final(self).out.waiting().len() == 0;
                &&& final(self).finished == (w is BrokenPipe || (all_written
                    && old(self).command_ran))
                &&& r == if final(self).finished {
                    PipeProcessPoll::Exited
                } else {
                    poll_after_write(w)
                }
            }),
    {
        match w {
            WriteResult::Written(n) => {
                let _ = self.out.advance(n);
                if self.out.is_empty() && self.command_ran {
                    self.finished = true;
                    return PipeProcessPoll::Exited;
                }
                PipeProcessPoll::Ready
            },
            WriteResult::WouldBlock(n) => {
                let _ = self.out.advance(n);
                if n == 0 {
                    PipeProcessPoll::PendingWrite
                } else {
                    PipeProcessPoll::Ready
                }
            },
            WriteResult::BrokenPipe => {
                assert(self.out.waiting().skip(0) =~= self.out.waiting());
                assert(self.out.sent() + self.out.waiting().take(0) =~= self.out.sent());
                self.finished = true;
                PipeProcessPoll::Exited
            },
        }
    }

    /// What is to be done about what a read came to. Only the end of the input makes the
    /// command run.
    pub fn took(outcome: ReadOutcome) -> (r: Staged)
        ensures
            match outcome {
                ReadOutcome::Read(data) => r == Staged::Add(data),
                ReadOutcome::WouldBlock => r is Wait,
                ReadOutcome::Eof => r is Complete,
                ReadOutcome::Failed(_) => r is Complete,
            },
    {
        match outcome {
            ReadOutcome::Read(data) => Staged::Add(data),
            ReadOutcome::WouldBlock => Staged::Wait,
            ReadOutcome::Eof => Staged::Complete,
            ReadOutcome::Failed(_) => Staged::Complete,
        }
    }

    /// Takes note that input could not be staged: the process is over.
    pub fn staging_failed(&mut self, label: &str, err: &str) -> (r: PipeProcessPoll)
        ensures
            r == PipeProcessPoll::Exited,
            final(self).finished,
            final(self).status == 1,
            final(self).stderr@ == old(self).stderr@ + encode_utf8(
                staging_error_message(label@, err@),
            ),
            final(self).out == old(self).out,
            final(self).has_input == old(self).has_input,
            final(self).pipe_stderr == old(self).pipe_stderr,
            final(self).command_ran == old(self).command_ran,
    {
        let mut message = "wasmsh: ".to_owned();
        message.append(label);
        message.append(": failed to stage pipeline input for streaming: ");
        message.append(err);
        message.append("\n");
        crate::stream::lines::emit_str(&mut self.stderr, message.as_str());
        self.status = 1;
        self.finished = true;
        PipeProcessPoll::Exited
    }

    /// Takes note of what the command printed and of its status. A command that printed nothing
    /// leaves nothing to do.
    pub fn ran(&mut self, stdout: &[u8], stderr: &[u8], status: i32) -> (r: PipeProcessPoll)
        requires
            !old(self).finished,
            old(self).out.waiting().len() == 0,
        ensures
            final(self).status == status,
            final(self).command_ran,
            final(self).has_input == old(self).has_input,
            final(self).pipe_stderr == old(self).pipe_stderr,
            ({
                let data = if old(self).pipe_stderr {
                    stdout@ + stderr@
                } else {
                    stdout@
                };
                &&& final(self).out.waiting() == data
                &&& final(self).out.taken() == old(self).out.taken() + data
                &&& final(self).out.sent() == old(self).out.sent()
                &&& final(self).stderr@ == if old(self).pipe_stderr {
                    old(self).stderr@
                } else {
                    old(self).stderr@ + stderr@
                }
                &&& final(self).finished == (data.len() == 0)
                &&& r == if data.len() == 0 {
                    PipeProcessPoll::Exited
                } else {
                    PipeProcessPoll::Ready
                }
            }),
    {
        let ghost before = self.out.taken();
        assert(self.out.waiting() =~= Seq::<u8>::empty());
        self.status = status;
        self.command_ran = true;
        self.out.put(stdout);
        assert(Seq::<u8>::empty() + stdout@ =~= stdout@);
        if self.pipe_stderr {
            self.out.put(stderr);
            assert(before + stdout@ + stderr@ =~= before + (stdout@ + stderr@));
        } else {
            self.stderr.extend_from_slice(stderr);
            assert(self.stderr@ =~= old(self).stderr@ + stderr@);
        }
        if self.out.is_empty() {
            self.finished = true;
            PipeProcessPoll::Exited
        } else {
            PipeProcessPoll::Ready
        }
    }
}

} // verus!
