//! One stage of a streaming pipeline between its two pipes.
use crate::pipeline::pipe::Pipe;
use crate::pipeline::process::{
    taken_by, tee_error_message, HeadProcess, PipeProcessPoll, ReadOutcome, RelayProcess, Want,
    WriteResult,
};
use crate::pipeline::reader::StageReader;
use crate::stream::ends::{HeadStream, StreamingHeadMode};
use crate::stream::machine::{run, ByteStage, Pull};
use vstd::prelude::*;
use vstd::utf8::encode_utf8;

verus! {

/// How much is read at a time.
pub const CHUNK: usize = 4096;

/// What a stage does.
pub enum LinkBody {
    /// It relays a filter that reads its input.
    Relay { relay: RelayProcess, reader: StageReader },
    /// It is `head`, which reads by itself.
    Head(HeadProcess),
}

/// A stage of a pipeline.
pub struct StageLink {
    pub body: LinkBody,
    pub exited: bool,
    /// Whether what is passed on is copied, as by `tee`.
    pub tee: bool,
    /// The copy.
    pub copied: Vec<u8>,
    /// The filter before it read anything.
    pub begun: Ghost<Option<StageReader>>,
}

/// How much `head` still keeps as a process of its own. Even where nothing is asked for it keeps
/// the first byte or line.
pub open spec fn head_left(h: HeadProcess) -> StreamingHeadMode {
    match h.mode {
        StreamingHeadMode::Bytes(n) => StreamingHeadMode::Bytes(
            if n == 0 {
                1
            } else {
                n
            },
        ),
        StreamingHeadMode::Lines(n) => StreamingHeadMode::Lines(
            ((if n == 0 {
                1
            } else {
                n as int
            }) - h.lines_seen) as usize,
        ),
    }
}

/// What `head` keeps as a process of its own.
pub open spec fn at_least_one(mode: StreamingHeadMode) -> StreamingHeadMode {
    match mode {
        StreamingHeadMode::Bytes(n) => StreamingHeadMode::Bytes(
            if n == 0 {
                1
            } else {
                n
            },
        ),
        StreamingHeadMode::Lines(n) => StreamingHeadMode::Lines(
            if n == 0 {
                1
            } else {
                n
            },
        ),
    }
}

/// What a poll of a stage came to.
#[derive(Clone, Copy, Debug, PartialEq, Eq, Structural)]
pub enum LinkPoll {
    /// Output was written.
    Ready,
    /// The stage waits for input or for room.
    Pending,
    /// The stage is over.
    Exited,
    /// The stage cannot take its input.
    Stuck,
}

/// What came of reading a stage.
enum StageRead {
    Data(Vec<u8>),
    Blocked,
    Over,
    Stuck,
}

impl LinkBody {
    /// Whether the parts fit together, in a stage that is over or not.
    pub open spec fn wf(&self, exited: bool) -> bool {
        match self {
            LinkBody::Relay { relay, reader } => {
                &&& relay.wf()
                &&& relay.pipe_stderr || relay.stderr_offset == 0
                &&& relay.out.sent() + relay.out.waiting() == relay.out.taken()
                &&& relay.finished ==> exited
                &&& relay.reader_done ==> reader.ended() && reader.pending().len() == 0
                &&& reader.wf()
            },
            LinkBody::Head(h) => h.wf() && (h.finished ==> exited),
        }
    }

    /// What is to be written before more is read: what was read, and standard error that goes to
    /// the output too.
    pub open spec fn waiting(&self) -> Seq<u8> {
        match self {
            LinkBody::Relay { relay, reader } => relay.waiting(),
            LinkBody::Head(h) => h.out.waiting(),
        }
    }

    /// Whether all input that counts was read.
    pub open spec fn done(&self) -> bool {
        match self {
            LinkBody::Relay { relay, reader } => relay.reader_done,
            LinkBody::Head(h) => h.complete,
        }
    }

    /// What is still to be read from the stage when this is what is left of its input.
    pub open spec fn unread(&self, input: Seq<u8>) -> Seq<u8> {
        if self.done() {
            Seq::empty()
        } else {
            match self {
                LinkBody::Relay { relay, reader } => reader.future(input),
                LinkBody::Head(h) => run::<HeadStream>(head_left(*h), input),
            }
        }
    }

    /// The exit status so far: that of the filter, unless something else went wrong.
    pub open spec fn status_now(&self) -> i32 {
        match self {
            LinkBody::Relay { relay, reader } => if relay.status != 0 {
                relay.status
            } else {
                reader.status_now()
            },
            LinkBody::Head(_) => 0,
        }
    }

    /// Whether something else than the filter went wrong.
    pub open spec fn failed(&self) -> bool {
        match self {
            LinkBody::Relay { relay, reader } => relay.status != 0,
            LinkBody::Head(_) => false,
        }
    }

    /// Whether the standard error goes to the output too.
    pub open spec fn pipes_stderr(&self) -> bool {
        match self {
            LinkBody::Relay { relay, reader } => relay.pipe_stderr,
            LinkBody::Head(_) => false,
        }
    }

    /// Whether the filter has read just what was taken from the pipe, where `begun` is the filter
    /// before it read anything.
    pub open spec fn has_read(&self, begun: Option<StageReader>, input: Pipe) -> bool {
        match self {
            LinkBody::Relay { relay, reader } => begun matches Some(first) && read_upto(
                first,
                *reader,
                relay.out.taken(),
                input,
            ),
            LinkBody::Head(_) => true,
        }
    }

    /// What was read and written to the output.
    pub open spec fn sent(&self) -> Seq<u8> {
        match self {
            LinkBody::Relay { relay, reader } => relay.out.sent(),
            LinkBody::Head(h) => h.out.sent(),
        }
    }

    /// Whether some of the standard error was written to the output.
    pub open spec fn stderr_begun(&self) -> bool {
        match self {
            LinkBody::Relay { relay, reader } => relay.stderr_offset > 0,
            LinkBody::Head(_) => false,
        }
    }

    /// What was written to the standard error.
    pub open spec fn stderr(&self) -> Seq<u8> {
        match self {
            LinkBody::Relay { relay, reader } => relay.stderr@,
            LinkBody::Head(_) => Seq::empty(),
        }
    }

    /// The exit status in the end when this is what is left of the input.
    pub open spec fn result(&self, input: Seq<u8>) -> i32 {
        if self.done() {
            self.status_now()
        } else {
            match self {
                LinkBody::Relay { relay, reader } => if relay.status != 0 {
                    relay.status
                } else {
                    reader.result(input)
                },
                LinkBody::Head(_) => 0,
            }
        }
    }

    /// Whether the stage can take this as what is left of its input.
    pub open spec fn takes(&self, input: Seq<u8>) -> bool {
        self.done() || match self {
            LinkBody::Relay { relay, reader } => reader.takes(input),
            LinkBody::Head(_) => true,
        }
    }
}

impl StageLink {
    /// Whether the parts of the link fit together.
    pub open spec fn wf(&self) -> bool {
        self.body.wf(self.exited)
    }

    /// What the stage still writes when this is what is left of its input.
    pub open spec fn future(&self, input: Seq<u8>) -> Seq<u8> {
        if self.exited {
            Seq::empty()
        } else {
            self.body.waiting() + self.body.unread(input)
        }
    }

    /// Whether the stage can take this as what is left of its input.
    pub open spec fn takes(&self, input: Seq<u8>) -> bool {
        self.exited || self.body.takes(input)
    }

    /// The exit status in the end when this is what is left of the input.
    pub open spec fn result(&self, input: Seq<u8>) -> i32 {
        if self.exited {
            self.body.status_now()
        } else {
            self.body.result(input)
        }
    }

    /// The exit status so far.
    pub fn status(&self) -> (r: i32)
        ensures
            r == self.body.status_now(),
            self.ignores() ==> forall|input: Seq<u8>| r == #[trigger] self.result(input),
    {
        match &self.body {
            LinkBody::Relay { relay, reader } => if relay.status != 0 {
                relay.status
            } else {
                reader.status()
            },
            LinkBody::Head(_) => 0,
        }
    }

    /// Whether the rest of the input does not matter any more.
    pub open spec fn ignores(&self) -> bool {
        self.exited || self.body.done()
    }

    /// What was written to the standard error, unless that goes to the output.
    pub open spec fn complaints(&self) -> Seq<u8> {
        if self.body.pipes_stderr() {
            Seq::empty()
        } else {
            self.body.stderr()
        }
    }

    /// Adds what was written to the standard error.
    pub fn add_complaints(&self, out: &mut Vec<u8>)
        ensures
            final(out)@ == old(out)@ + self.complaints(),
    {
        match &self.body {
            LinkBody::Relay { relay, reader: _ } => {
                if !relay.pipe_stderr {
                    out.extend_from_slice(relay.stderr.as_slice());
                }
            },
            LinkBody::Head(_) => {},
        }
        assert(out@ =~= old(out)@ + self.complaints());
    }

    /// Takes note that a file of `tee` could not be written: the stage complains, and its status is
    /// one. Where its standard error goes to the output, the complaint waits behind what waits
    /// already.
    pub fn target_failed(&mut self, path: &str, err: &str)
        requires
            old(self).wf(),
            old(self).body is Relay,
        ensures
            final(self).wf(),
            final(self).body is Relay,
            final(self).exited == old(self).exited,
            final(self).tee == old(self).tee,
            final(self).copied == old(self).copied,
            final(self).begun == old(self).begun,
            final(self).body.sent() == old(self).body.sent(),
            final(self).body.stderr_begun() == old(self).body.stderr_begun(),
            final(self).body.pipes_stderr() == old(self).body.pipes_stderr(),
            forall|input: Pipe| #[trigger]
                final(self).body.has_read(final(self).begun@, input) == old(self).body.has_read(
                    old(self).begun@,
                    input,
                ),
            final(self).body.done() == old(self).body.done(),
            final(self).body.waiting() == if old(self).body.pipes_stderr() {
                old(self).body.waiting() + encode_utf8(tee_error_message(path@, err@))
            } else {
                old(self).body.waiting()
            },
            final(self).body.stderr() == old(self).body.stderr() + encode_utf8(
                tee_error_message(path@, err@),
            ),
            final(self).body.status_now() == 1,
            final(self).ignores() == old(self).ignores(),
            forall|input: Seq<u8>| #[trigger] final(self).result(input) == 1,
            forall|input: Seq<u8>| #[trigger]
                final(self).body.unread(input) == old(self).body.unread(input),
            !old(self).body.pipes_stderr() ==> forall|input: Seq<u8>| #[trigger]
                final(self).future(input) == old(self).future(input),
            forall|input: Seq<u8>| #[trigger] final(self).takes(input) == old(self).takes(input),
    {
        match &mut self.body {
            LinkBody::Relay { relay, reader: _ } => {
                relay.target_failed(path, err);
            },
            LinkBody::Head(_) => {},
        }
        proof {
            let message = encode_utf8(tee_error_message(path@, err@));
            let r0 = old(self).body->relay;
            let r1 = self.body->relay;
            assert(r1.stderr@.skip(r1.stderr_offset as int) =~= r0.stderr@.skip(
                r0.stderr_offset as int,
            ) + message);
            if r0.pipe_stderr {
                assert(r1.waiting() =~= r0.waiting() + message);
            } else {
                assert(r1.waiting() =~= r0.waiting());
            }
        }
    }

    /// A stage that relays a filter and has read nothing.
    pub fn relay(reader: StageReader, label: String, tee: bool, pipe_stderr: bool) -> (r: StageLink)
        requires
            reader.wf(),
        ensures
            r.wf(),
            !r.exited,
            r.tee == tee,
            r.copied@.len() == 0,
            r.body is Relay,
            r.body.stderr() == Seq::<u8>::empty(),
            r.body.pipes_stderr() == pipe_stderr,
            r.body.sent() == Seq::<u8>::empty(),
            !r.body.stderr_begun(),
            r.begun@ == Some(reader),
            !r.body.failed(),
            forall|input: Pipe| input.taken().len() == 0 ==> #[trigger] r.body.has_read(
                r.begun@,
                input,
            ),
            forall|input: Seq<u8>| #[trigger] r.future(input) == reader.future(input),
            forall|input: Seq<u8>| #[trigger] r.takes(input) == reader.takes(input),
            forall|input: Seq<u8>| #[trigger] r.result(input) == reader.result(input),
    {
        let relay = RelayProcess::new(label, 0, pipe_stderr);
        let r = StageLink {
            body: LinkBody::Relay { relay, reader },
            exited: false,
            tee,
            copied: Vec::new(),
            begun: Ghost(Some(reader)),
        };
        proof {
            assert(relay.stderr@ =~= Seq::<u8>::empty());
            assert(relay.waiting() =~= Seq::<u8>::empty());
            assert(Seq::<u8>::empty() + Seq::<u8>::empty() =~= Seq::<u8>::empty());
            assert forall|input: Pipe| input.taken().len() == 0 implies #[trigger] r.body.has_read(
                r.begun@,
                input,
            ) by {
                reveal(read_upto);
                let none = Seq::<u8>::empty();
                assert forall|rest: Seq<u8>| #[trigger]
                    (none + reader.future(rest)) == reader.future(input.taken() + rest) by {
                    assert(input.taken() + rest =~= rest);
                    assert(none + reader.future(rest) =~= reader.future(rest));
                }
                assert forall|rest: Seq<u8>| #[trigger]
                    reader.so_far(rest) == reader.so_far(input.taken() + rest) by {
                    assert(input.taken() + rest =~= rest);
                }
                assert forall|rest: Seq<u8>| #[trigger]
                    reader.result(rest) == reader.result(input.taken() + rest) by {
                    assert(input.taken() + rest =~= rest);
                }
            }
            assert forall|input: Seq<u8>| #[trigger] r.future(input) == reader.future(input) by {
                assert(Seq::<u8>::empty() + reader.future(input) =~= reader.future(input));
            }
        }
        r
    }

    /// `head` as a process of its own that has read nothing.
    pub fn head(mode: StreamingHeadMode) -> (r: StageLink)
        ensures
            r.wf(),
            !r.exited,
            !r.tee,
            r.copied@.len() == 0,
            r.body is Head,
            r.body.stderr() == Seq::<u8>::empty(),
            r.begun@ is None,
            forall|input: Pipe, output: Pipe|
                input.taken().len() == 0 && output.written().len() == 0 ==> #[trigger] logged(
                    r,
                    input,
                    output,
                ),
            forall|input: Seq<u8>| #[trigger]
                r.future(input) == run::<HeadStream>(at_least_one(mode), input),
            forall|input: Seq<u8>| #[trigger] r.takes(input),
            forall|input: Seq<u8>| #[trigger] r.result(input) == 0,
    {
        let h = HeadProcess::new(mode);
        let r = StageLink {
            body: LinkBody::Head(h),
            exited: false,
            tee: false,
            copied: Vec::new(),
            begun: Ghost(None),
        };
        proof {
            assert(head_left(h) == at_least_one(mode));
            assert forall|input: Pipe, output: Pipe|
                input.taken().len() == 0 && output.written().len()
                    == 0 implies #[trigger] logged(r, input, output) by {
                assert(h.out.taken() =~= input.taken());
                assert(h.out.sent() =~= output.written());
                assert(h.out.taken() =~= h.out.sent() + h.out.waiting());
            }
            assert forall|input: Seq<u8>| #[trigger]
                r.future(input) == run::<HeadStream>(at_least_one(mode), input) by {
                let f = run::<HeadStream>(at_least_one(mode), input);
                assert(Seq::<u8>::empty() + f =~= f);
            }
        }
        r
    }
}

/// Feeds bytes to a stage, until it has ended; `false` where it cannot take them.
fn feed_all(reader: &mut StageReader, chunk: &Vec<u8>) -> (r: bool)
    requires
        old(reader).wf(),
    ensures
        final(reader).wf(),
        r ==> forall|rest: Seq<u8>| #[trigger]
            final(reader).future(rest) == old(reader).future(chunk@ + rest),
        r ==> forall|rest: Seq<u8>| #[trigger]
            old(reader).takes(chunk@ + rest) ==> final(reader).takes(rest),
        r ==> forall|rest: Seq<u8>| #[trigger]
            final(reader).result(rest) == old(reader).result(chunk@ + rest),
        r ==> forall|rest: Seq<u8>| #[trigger]
            final(reader).so_far(rest) == old(reader).so_far(chunk@ + rest),
        !r ==> forall|rest: Seq<u8>| !#[trigger] old(reader).takes(chunk@ + rest),
{
    let mut i: usize = 0;
    proof {
        assert forall|rest: Seq<u8>| #[trigger]
            reader.future(rest) == old(reader).future(chunk@.take(0) + rest) by {
            assert(chunk@.take(0) + rest =~= rest);
        }
        assert forall|rest: Seq<u8>| #[trigger]
            old(reader).takes(chunk@.take(0) + rest) implies reader.takes(rest) by {
            assert(chunk@.take(0) + rest =~= rest);
        }
        assert forall|rest: Seq<u8>| #[trigger]
            reader.result(rest) == old(reader).result(chunk@.take(0) + rest) by {
            assert(chunk@.take(0) + rest =~= rest);
        }
        assert forall|rest: Seq<u8>| #[trigger]
            reader.so_far(rest) == old(reader).so_far(chunk@.take(0) + rest) by {
            assert(chunk@.take(0) + rest =~= rest);
        }
    }
    while i < chunk.len()
        invariant
            i <= chunk@.len(),
            reader.wf(),
            forall|rest: Seq<u8>| #[trigger]
                reader.future(rest) == old(reader).future(chunk@.take(i as int) + rest),
            forall|rest: Seq<u8>| #[trigger]
                old(reader).takes(chunk@.take(i as int) + rest) ==> reader.takes(rest),
            forall|rest: Seq<u8>| #[trigger]
                reader.result(rest) == old(reader).result(chunk@.take(i as int) + rest),
            forall|rest: Seq<u8>| #[trigger]
                reader.so_far(rest) == old(reader).so_far(chunk@.take(i as int) + rest),
        decreases chunk@.len() - i,
    {
        let b: u8 = chunk[i];
        if reader.is_ended() {
            proof {
                let t = chunk@.skip(i as int);
                assert forall|rest: Seq<u8>| #[trigger]
                    reader.future(rest) == old(reader).future(chunk@ + rest) by {
                    lemma_ended_future(*reader, rest);
                    lemma_ended_future(*reader, t + rest);
                    assert(chunk@.take(i as int) + (t + rest) =~= chunk@ + rest);
                    assert(reader.future(t + rest) == old(reader).future(
                        chunk@.take(i as int) + (t + rest),
                    ));
                }
                assert forall|rest: Seq<u8>| #[trigger]
                    old(reader).takes(chunk@ + rest) implies reader.takes(rest) by {}
                assert forall|rest: Seq<u8>| #[trigger]
                    reader.result(rest) == old(reader).result(chunk@ + rest) by {
                    assert(chunk@.take(i as int) + (t + rest) =~= chunk@ + rest);
                    assert(reader.result(t + rest) == old(reader).result(
                        chunk@.take(i as int) + (t + rest),
                    ));
                }
                assert forall|rest: Seq<u8>| #[trigger]
                    reader.so_far(rest) == old(reader).so_far(chunk@ + rest) by {
                    assert(chunk@.take(i as int) + (t + rest) =~= chunk@ + rest);
                    assert(reader.so_far(t + rest) == old(reader).so_far(
                        chunk@.take(i as int) + (t + rest),
                    ));
                }
            }
            return true;
        }
        if !reader.can_take(b) || !reader.has_room(1) {
            proof {
                assert forall|rest: Seq<u8>| !#[trigger] old(reader).takes(chunk@ + rest) by {
                    let more = chunk@.skip(i + 1) + rest;
                    assert(chunk@.take(i as int) + (seq![b] + more) =~= chunk@ + rest);
                    if old(reader).takes(chunk@ + rest) {
                        assert(old(reader).takes(chunk@.take(i as int) + (seq![b] + more)));
                        assert(reader.takes(seq![b] + more));
                        assert((seq![b] + more).len() >= 1);
                    }
                }
            }
            return false;
        }
        let ghost before = *reader;
        reader.feed(b);
        proof {
            assert forall|rest: Seq<u8>| #[trigger]
                reader.future(rest) == old(reader).future(chunk@.take(i + 1) + rest) by {
                assert(before.future(seq![b] + rest) == old(reader).future(
                    chunk@.take(i as int) + (seq![b] + rest),
                ));
                assert(chunk@.take(i as int) + (seq![b] + rest) =~= chunk@.take(i + 1) + rest);
            }
            assert forall|rest: Seq<u8>| #[trigger]
                reader.result(rest) == old(reader).result(chunk@.take(i + 1) + rest) by {
                assert(before.result(seq![b] + rest) == old(reader).result(
                    chunk@.take(i as int) + (seq![b] + rest),
                ));
                assert(chunk@.take(i as int) + (seq![b] + rest) =~= chunk@.take(i + 1) + rest);
            }
            assert forall|rest: Seq<u8>| #[trigger]
                reader.so_far(rest) == old(reader).so_far(chunk@.take(i + 1) + rest) by {
                assert(before.so_far(seq![b] + rest) == old(reader).so_far(
                    chunk@.take(i as int) + (seq![b] + rest),
                ));
                assert(chunk@.take(i as int) + (seq![b] + rest) =~= chunk@.take(i + 1) + rest);
            }
            assert forall|rest: Seq<u8>| #[trigger]
                old(reader).takes(chunk@.take(i + 1) + rest) implies reader.takes(rest) by {
                assert(chunk@.take(i as int) + (seq![b] + rest) =~= chunk@.take(i + 1) + rest);
                assert(old(reader).takes(chunk@.take(i as int) + (seq![b] + rest)));
                assert(before.takes(seq![b] + rest));
            }
        }
        i = i + 1;
    }
    assert(chunk@.take(i as int) =~= chunk@);
    true
}

/// So many zeros.
pub fn zeros(n: usize) -> (r: Vec<u8>)
    ensures
        r@.len() == n,
{
    let mut v: Vec<u8> = Vec::new();
    let mut i: usize = 0;
    while i < n
        invariant
            i <= n,
            v@.len() == i,
        decreases n - i,
    {
        v.push(0);
        i = i + 1;
    }
    v
}

/// What a stage reads when `coming` is still to be written into its input pipe.
pub open spec fn left(input: Pipe, coming: Seq<u8>) -> Seq<u8> {
    input.contents() + coming
}

/// Whether nothing comes any more into a pipe that nobody writes.
pub open spec fn can_come(input: Pipe, coming: Seq<u8>) -> bool {
    input.write_closed() ==> coming.len() == 0
}

/// Whether the flags of a pipe are the same.
pub open spec fn same_ends(a: Pipe, b: Pipe) -> bool {
    a.capacity() == b.capacity() && a.read_closed() == b.read_closed() && a.write_closed()
        == b.write_closed()
}

/// What was read from a stage.
spec fn data_of(r: StageRead) -> Seq<u8> {
    match r {
        StageRead::Data(data) => data@,
        _ => Seq::empty(),
    }
}

/// Reads output of a stage, feeding it from its input pipe as long as it needs input.
fn read_stage(reader: &mut StageReader, input: &mut Pipe) -> (r: StageRead)
    requires
        old(reader).wf(),
    ensures
        final(reader).wf(),
        same_ends(*final(input), *old(input)),
        final(input).written() == old(input).written(),
        final(input).contents().len() <= old(input).contents().len(),
        !(r is Stuck) ==> forall|first: StageReader, passed: Seq<u8>| #[trigger]
            read_upto(first, *old(reader), passed, *old(input)) ==> read_upto(
                first,
                *final(reader),
                passed + data_of(r),
                *final(input),
            ),
        !(r is Stuck) ==> forall|coming: Seq<u8>|
            can_come(*old(input), coming) && old(reader).takes(left(*old(input), coming))
                ==> final(reader).takes(#[trigger] left(*final(input), coming)),
        !(r is Stuck) ==> forall|coming: Seq<u8>|
            can_come(*old(input), coming) ==> final(reader).result(
                #[trigger] left(*final(input), coming),
            ) == old(reader).result(left(*old(input), coming)),
        match r {
            StageRead::Data(data) => {
                &&& data@.len() > 0
                &&& forall|coming: Seq<u8>|
                    can_come(*old(input), coming) ==> data@ + final(reader).future(
                        #[trigger] left(*final(input), coming),
                    ) == old(reader).future(left(*old(input), coming))
            },
            StageRead::Blocked => {
                &&& final(input).contents().len() == 0
                &&& !final(input).write_closed()
                &&& forall|coming: Seq<u8>|
                    final(reader).future(#[trigger] left(*final(input), coming)) == old(
                        reader,
                    ).future(left(*old(input), coming))
            },
            StageRead::Over => {
                &&& final(reader).ended()
                &&& final(reader).pending().len() == 0
                &&& forall|coming: Seq<u8>|
                    can_come(*old(input), coming) ==> (#[trigger] old(reader).future(
                        left(*old(input), coming),
                    )).len() == 0
            },
            StageRead::Stuck => forall|coming: Seq<u8>|
                can_come(*old(input), coming) ==> !(#[trigger] old(reader).takes(
                    left(*old(input), coming),
                )),
        },
{
    let ghost reader0 = *reader;
    let ghost input0 = *input;
    let mut buf = zeros(CHUNK);
    let mut closed: bool = false;
    loop
        invariant
            reader.wf(),
            buf@.len() == CHUNK,
            same_ends(*input, input0),
            input.written() == input0.written(),
            input.contents().len() <= input0.contents().len(),
            forall|coming: Seq<u8>|
                can_come(input0, coming) ==> reader.future(#[trigger] left(*input, coming))
                    == reader0.future(left(input0, coming)),
            forall|coming: Seq<u8>|
                can_come(input0, coming) && reader0.takes(left(input0, coming))
                    ==> reader.takes(#[trigger] left(*input, coming)),
            forall|coming: Seq<u8>|
                can_come(input0, coming) ==> reader.result(#[trigger] left(*input, coming))
                    == reader0.result(left(input0, coming)),
            closed ==> reader.ended(),
            forall|first: StageReader, passed: Seq<u8>|
                read_upto(first, reader0, passed, input0) ==> #[trigger] read_upto(
                    first,
                    *reader,
                    passed,
                    *input,
                ),
            reader0 == *old(reader),
            input0 == *old(input),
        decreases
                input.contents().len() + (if closed {
                    0int
                } else {
                    1
                }),
    {
        let ghost before = *reader;
        let pulled = reader.pull(buf.as_mut_slice());
        let ghost none = Seq::<u8>::empty();
        match pulled {
            Pull::Bytes(n) => {
                let data = vstd::slice::slice_to_vec(
                    vstd::slice::slice_subrange(buf.as_slice(), 0, n),
                );
                proof {
                    assert(data@ =~= buf@.take(n as int));
                    assert forall|first: StageReader, passed: Seq<u8>| #[trigger]
                        read_upto(first, reader0, passed, input0) implies read_upto(
                        first,
                        *reader,
                        passed + data@,
                        *input,
                    ) by {
                        assert(read_upto(first, before, passed, *input));
                        lemma_pulled(first, before, *reader, passed, data@, *input);
                    }
                    assert forall|coming: Seq<u8>| can_come(input0, coming) implies data@
                        + reader.future(#[trigger] left(*input, coming)) == reader0.future(
                        left(input0, coming),
                    ) by {
                        assert(buf@.take(n as int) + reader.future(left(*input, coming))
                            == before.future(left(*input, coming)));
                    }
                }
                return StageRead::Data(data);
            },
            Pull::End => {
                proof {
                    assert forall|first: StageReader, passed: Seq<u8>| #[trigger]
                        read_upto(first, reader0, passed, input0) implies read_upto(
                        first,
                        *reader,
                        passed + none,
                        *input,
                    ) by {
                        assert(read_upto(first, *reader, passed, *input));
                        assert(passed + none =~= passed);
                    }
                    assert forall|coming: Seq<u8>| can_come(input0, coming) implies (
                    #[trigger] reader0.future(left(input0, coming))).len() == 0 by {
                        lemma_ended_future(*reader, left(*input, coming));
                        assert(reader.future(left(*input, coming)) == reader0.future(
                            left(input0, coming),
                        ));
                    }
                }
                return StageRead::Over;
            },
            Pull::NeedInput => {
                let ghost input1 = *input;
                let chunk = input.read(CHUNK);
                if chunk.len() > 0 {
                    if !feed_all(reader, &chunk) {
                        proof {
                            assert forall|coming: Seq<u8>| can_come(input0, coming) implies !(
                            #[trigger] reader0.takes(left(input0, coming))) by {
                                let l = left(*input, coming);
                                assert(chunk@ + l =~= left(input1, coming));
                                assert(!before.takes(chunk@ + l));
                            }
                        }
                        return StageRead::Stuck;
                    }
                    proof {
                        assert forall|first: StageReader, passed: Seq<u8>|
                            read_upto(first, reader0, passed, input0) implies #[trigger] read_upto(
                            first,
                            *reader,
                            passed,
                            *input,
                        ) by {
                            assert(read_upto(first, before, passed, input1));
                            lemma_read_on(first, before, passed, input1, *reader, *input, chunk@);
                        }
                        assert forall|coming: Seq<u8>| can_come(input0, coming) && reader0.takes(
                            left(input0, coming),
                        ) implies reader.takes(#[trigger] left(*input, coming)) by {
                            let l = left(*input, coming);
                            assert(chunk@ + l =~= left(input1, coming));
                            assert(before.takes(left(input1, coming)));
                            assert(before.takes(chunk@ + l));
                        }
                        assert forall|coming: Seq<u8>| can_come(input0, coming) implies
                            reader.result(#[trigger] left(*input, coming)) == reader0.result(
                            left(input0, coming),
                        ) by {
                            let l = left(*input, coming);
                            assert(reader.result(l) == before.result(chunk@ + l));
                            assert(chunk@ + l =~= left(input1, coming));
                            assert(before.result(left(input1, coming)) == reader0.result(
                                left(input0, coming),
                            ));
                        }
                        assert forall|coming: Seq<u8>| can_come(input0, coming) implies
                            reader.future(#[trigger] left(*input, coming)) == reader0.future(
                            left(input0, coming),
                        ) by {
                            let l = left(*input, coming);
                            assert(reader.future(l) == before.future(chunk@ + l));
                            assert(chunk@ + l =~= left(input1, coming));
                            assert(before.future(left(input1, coming)) == reader0.future(
                                left(input0, coming),
                            ));
                        }
                    }
                } else if input.is_write_closed() {
                    if !reader.can_close() {
                        proof {
                            assert forall|coming: Seq<u8>| can_come(input0, coming) implies !(
                            #[trigger] reader0.takes(left(input0, coming))) by {
                                assert(chunk@ =~= Seq::<u8>::empty());
                                assert(left(input1, coming) =~= Seq::<u8>::empty());
                                assert(!before.takes(left(input1, coming)));
                            }
                        }
                        return StageRead::Stuck;
                    }
                    reader.close();
                    closed = true;
                    proof {
                        assert forall|first: StageReader, passed: Seq<u8>|
                            read_upto(first, reader0, passed, input0) implies #[trigger] read_upto(
                            first,
                            *reader,
                            passed,
                            *input,
                        ) by {
                            reveal(read_upto);
                            assert(read_upto(first, before, passed, input1));
                            lemma_ended_future(*reader, none);
                            assert(reader.future(none) == before.future(none));
                            assert(passed + before.future(none) == first.future(
                                input1.taken() + none,
                            ));
                            assert(chunk@ =~= none);
                            assert(input1.taken() + none =~= input1.taken());
                            assert(input.taken() =~= input1.taken());
                            assert(before.result(none) == first.result(input1.taken() + none));
                        }
                        assert forall|coming: Seq<u8>| can_come(input0, coming) implies
                            reader.result(#[trigger] left(*input, coming)) == reader0.result(
                            left(input0, coming),
                        ) by {
                            let l = left(*input, coming);
                            assert(coming =~= Seq::<u8>::empty());
                            assert(chunk@ =~= Seq::<u8>::empty());
                            assert(left(input1, coming) =~= Seq::<u8>::empty());
                            assert(reader.result(l) == before.result(Seq::empty()));
                            assert(before.result(left(input1, coming)) == reader0.result(
                                left(input0, coming),
                            ));
                        }
                        assert forall|coming: Seq<u8>| can_come(input0, coming) implies
                            reader.future(#[trigger] left(*input, coming)) == reader0.future(
                            left(input0, coming),
                        ) by {
                            let l = left(*input, coming);
                            assert(coming =~= Seq::<u8>::empty());
                            assert(chunk@ =~= Seq::<u8>::empty());
                            assert(l =~= Seq::<u8>::empty());
                            assert(left(input1, coming) =~= Seq::<u8>::empty());
                            assert(reader.future(l) == before.future(Seq::empty()));
                        }
                    }
                } else {
                    proof {
                        assert(chunk@ =~= Seq::<u8>::empty());
                        assert(input.contents().len() == 0);
                        assert forall|first: StageReader, passed: Seq<u8>| #[trigger]
                            read_upto(first, reader0, passed, input0) implies read_upto(
                            first,
                            *reader,
                            passed + none,
                            *input,
                        ) by {
                            assert(read_upto(first, before, passed, input1));
                            assert(input.taken() =~= input1.taken());
                            assert(input.contents() =~= input1.contents());
                            lemma_read_upto_kept(first, before, passed, input1, *input);
                            assert(passed + none =~= passed);
                        }
                        assert forall|coming: Seq<u8>|
                            reader.future(#[trigger] left(*input, coming)) == reader0.future(
                                left(input0, coming),
                            ) by {
                            assert(left(*input, coming) =~= left(input1, coming));
                            assert(can_come(input0, coming));
                        }
                        assert forall|coming: Seq<u8>| can_come(input0, coming) && reader0.takes(
                            left(input0, coming),
                        ) implies reader.takes(#[trigger] left(*input, coming)) by {
                            assert(left(*input, coming) =~= left(input1, coming));
                            assert(before.takes(left(input1, coming)));
                        }
                        assert forall|coming: Seq<u8>| can_come(input0, coming) implies
                            reader.result(#[trigger] left(*input, coming)) == reader0.result(
                            left(input0, coming),
                        ) by {
                            assert(left(*input, coming) =~= left(input1, coming));
                            assert(before.result(left(input1, coming)) == reader0.result(
                                left(input0, coming),
                            ));
                        }
                    }
                    return StageRead::Blocked;
                }
            },
        }
    }
}

/// Output is read from a filter.
proof fn lemma_pulled(
    first: StageReader,
    before: StageReader,
    after: StageReader,
    passed: Seq<u8>,
    data: Seq<u8>,
    input: Pipe,
)
    requires
        read_upto(first, before, passed, input),
        after.ended() == before.ended(),
        after.status_now() == before.status_now(),
        forall|rest: Seq<u8>| #[trigger] after.so_far(rest) == before.so_far(rest),
        forall|rest: Seq<u8>| #[trigger] after.result(rest) == before.result(rest),
        forall|rest: Seq<u8>| data + (#[trigger] after.future(rest)) == before.future(rest),
    ensures
        read_upto(first, after, passed + data, input),
{
    reveal(read_upto);
    assert forall|rest: Seq<u8>|
        (passed + data) + (#[trigger] after.future(rest)) == passed + before.future(rest) by {
        assert((passed + data) + after.future(rest) =~= passed + (data + after.future(rest)));
    }
    if before.ended() {
        let none = Seq::<u8>::empty();
        lemma_ended_future(before, none);
        lemma_ended_future(after, none);
        assert((passed + data) + after.future(none) == passed + before.future(none));
    }
}

/// A filter that is not over reads on.
proof fn lemma_read_on(
    first: StageReader,
    before: StageReader,
    passed: Seq<u8>,
    input: Pipe,
    after: StageReader,
    input_after: Pipe,
    chunk: Seq<u8>,
)
    requires
        read_upto(first, before, passed, input),
        !before.ended(),
        input_after.taken() == input.taken() + chunk,
        forall|rest: Seq<u8>| #[trigger] after.so_far(rest) == before.so_far(chunk + rest),
        forall|rest: Seq<u8>| #[trigger] after.result(rest) == before.result(chunk + rest),
        forall|rest: Seq<u8>| #[trigger] after.future(rest) == before.future(chunk + rest),
    ensures
        read_upto(first, after, passed, input_after),
{
    reveal(read_upto);
    assert forall|rest: Seq<u8>|
        passed + (#[trigger] after.future(rest)) == first.future(input_after.taken() + rest) by {
        assert(input.taken() + (chunk + rest) =~= input_after.taken() + rest);
        assert(passed + before.future(chunk + rest) == first.future(
            input.taken() + (chunk + rest),
        ));
    }
    assert forall|rest: Seq<u8>| #[trigger]
        after.so_far(rest) == first.so_far(input_after.taken() + rest) by {
        assert(input.taken() + (chunk + rest) =~= input_after.taken() + rest);
        assert(before.so_far(chunk + rest) == first.so_far(input.taken() + (chunk + rest)));
    }
    assert forall|rest: Seq<u8>| #[trigger]
        after.result(rest) == first.result(input_after.taken() + rest) by {
        assert(input.taken() + (chunk + rest) =~= input_after.taken() + rest);
        assert(before.result(chunk + rest) == first.result(input.taken() + (chunk + rest)));
    }
}

proof fn lemma_ended_future(reader: StageReader, rest: Seq<u8>)
    requires
        reader.ended(),
    ensures
        reader.future(rest) == reader.pending(),
{
}

/// What the stage has written and still writes, together, when `coming` is still to be written
/// into its input pipe.
pub open spec fn total(link: StageLink, input: Pipe, output: Pipe, coming: Seq<u8>) -> Seq<u8> {
    output.contents() + link.future(left(input, coming))
}

/// Whether `head` has passed on just what it has read, and has left nothing in a pipe of one byte
/// once it keeps no more.
pub open spec fn head_logged(body: LinkBody, input: Pipe, written: Seq<u8>) -> bool {
    body matches LinkBody::Head(h) ==> {
        &&& h.out.taken() == input.taken()
        &&& h.out.sent() == written
        &&& h.out.taken() == h.out.sent() + h.out.waiting()
        &&& h.complete && input.capacity() == 1 ==> input.contents().len() == 0
    }
}

/// Whether `reader` is what becomes of `first` once it has read what was taken from its input pipe
/// and `passed` was read from it: it may have read the end of the input too.
#[verifier::opaque]
pub open spec fn read_upto(
    first: StageReader,
    reader: StageReader,
    passed: Seq<u8>,
    input: Pipe,
) -> bool {
    ||| {
        &&& forall|rest: Seq<u8>| #[trigger]
            reader.so_far(rest) == first.so_far(input.taken() + rest)
        &&& forall|rest: Seq<u8>| #[trigger]
            reader.result(rest) == first.result(input.taken() + rest)
        &&& forall|rest: Seq<u8>|
            passed + (#[trigger] reader.future(rest)) == first.future(input.taken() + rest)
    }
    ||| {
        &&& reader.ended()
        &&& input.write_closed()
        &&& input.contents().len() == 0
        &&& reader.status_now() == first.result(input.taken())
        &&& passed + reader.pending() == first.future(input.taken())
    }
}

/// The exit status is that of what was read.
pub proof fn lemma_status_upto(
    first: StageReader,
    reader: StageReader,
    passed: Seq<u8>,
    input: Pipe,
)
    requires
        reader.wf(),
        read_upto(first, reader, passed, input),
    ensures
        reader.status_now() == first.so_far(input.taken()) || (input.write_closed()
            && input.contents().len() == 0 && reader.status_now() == first.result(input.taken())),
{
    reveal(read_upto);
    reader.lemma_so_far();
    assert(input.taken() + Seq::<u8>::empty() =~= input.taken());
}

/// What was read from a filter is the beginning of what it makes of what it has read.
pub proof fn lemma_passed_upto(
    first: StageReader,
    reader: StageReader,
    passed: Seq<u8>,
    input: Pipe,
)
    requires
        read_upto(first, reader, passed, input),
    ensures
        passed.len() <= first.future(input.taken()).len(),
        passed == first.future(input.taken()).take(passed.len() as int),
{
    reveal(read_upto);
    let none = Seq::<u8>::empty();
    assert(input.taken() + none =~= input.taken());
    let all = first.future(input.taken());
    let more = if reader.ended() {
        reader.pending()
    } else {
        reader.future(none)
    };
    if reader.ended() {
        lemma_ended_future(reader, none);
    }
    assert(passed + more == all || passed + reader.future(none) == all);
    assert(passed =~= all.take(passed.len() as int));
}

/// Once a filter that never ends by itself is over, the input was read to its end, and what was
/// read from the filter is what it makes of that.
pub proof fn lemma_all_passed(
    first: StageReader,
    reader: StageReader,
    passed: Seq<u8>,
    input: Pipe,
    more: Seq<u8>,
)
    requires
        read_upto(first, reader, passed, input),
        reader.ended(),
        reader.pending().len() == 0,
        first.future(input.taken() + more) != first.future(input.taken()),
    ensures
        input.write_closed(),
        input.contents().len() == 0,
        passed == first.future(input.taken()),
{
    reveal(read_upto);
    let none = Seq::<u8>::empty();
    assert(input.taken() + none =~= input.taken());
    lemma_ended_future(reader, none);
    lemma_ended_future(reader, more);
    assert(reader.pending() =~= none);
    assert(passed + none =~= passed);
    assert(passed + reader.future(none) == passed + reader.future(more));
}

/// Writing into the pipe does not change what was read from it.
proof fn lemma_read_upto_kept(
    first: StageReader,
    reader: StageReader,
    passed: Seq<u8>,
    input: Pipe,
    after: Pipe,
)
    requires
        read_upto(first, reader, passed, input),
        after.taken() == input.taken(),
        input.write_closed() ==> after.write_closed() && after.contents() == input.contents(),
    ensures
        read_upto(first, reader, passed, after),
{
    reveal(read_upto);
}

/// Writing into the pipe does not change what the stage has read from it.
pub proof fn lemma_has_read_kept(
    body: LinkBody,
    begun: Option<StageReader>,
    input: Pipe,
    after: Pipe,
)
    requires
        body.has_read(begun, input),
        after.taken() == input.taken(),
        input.write_closed() ==> after.write_closed() && after.contents() == input.contents(),
    ensures
        body.has_read(begun, after),
{
    if let LinkBody::Relay { relay, reader } = body {
        lemma_read_upto_kept(begun->Some_0, reader, relay.out.taken(), input, after);
    }
}

/// Whether a stage has copied just what it has passed on where it copies, has written just that
/// unless some of its standard error went to the output too, `head` has passed on just what it has
/// read and reads no more once it keeps no more, and a stage that is over though its output is read
/// has nothing left to write.
pub open spec fn logged(link: StageLink, input: Pipe, output: Pipe) -> bool {
    &&& link.tee ==> link.copied@ == link.body.sent()
    &&& !link.body.stderr_begun() ==> link.body.sent() == output.written()
    &&& head_logged(link.body, input, output.written())
    &&& link.body.has_read(link.begun@, input)
    &&& link.body matches LinkBody::Head(h) ==> h.complete ==> input.read_closed()
    &&& link.exited && !output.read_closed() ==> link.body.done() && link.body.waiting().len() == 0
}

/// What a stage reads into what waits: the rest of its input keeps its meaning.
pub open spec fn reads_on(
    before: LinkBody,
    input: Pipe,
    after: LinkBody,
    input_after: Pipe,
) -> bool {
    &&& forall|coming: Seq<u8>|
        can_come(input, coming) ==> after.waiting() + (#[trigger] after.unread(
            left(input_after, coming),
        )) == before.waiting() + before.unread(left(input, coming))
    &&& forall|coming: Seq<u8>|
        can_come(input, coming) && before.takes(left(input, coming)) ==> after.takes(
            #[trigger] left(input_after, coming),
        )
    &&& forall|coming: Seq<u8>|
        can_come(input, coming) ==> after.result(#[trigger] left(input_after, coming))
            == before.result(left(input, coming))
}

/// What came of filling what waits.
#[derive(Clone, Copy, Debug, PartialEq, Eq, Structural)]
enum Fill {
    /// Something waits, or nothing more is to be read.
    Filled,
    /// Input may still come.
    Starved,
    Stuck,
}

impl LinkBody {
    /// Reads until something waits.
    fn fill(&mut self, input: &mut Pipe) -> (r: Fill)
        requires
            old(self).wf(false),
            old(self).waiting().len() == 0,
            !old(self).done(),
        ensures
            final(self).wf(false),
            same_ends(*final(input), *old(input)),
            final(input).written() == old(input).written(),
            final(input).contents().len() <= old(input).contents().len(),
            forall|w: Seq<u8>|
                old(input).contents().len() <= old(input).capacity() && head_logged(
                    *old(self),
                    *old(input),
                    w,
                ) ==> #[trigger] head_logged(*final(self), *final(input), w),
            !(r is Stuck) ==> forall|begun: Option<StageReader>|
                old(self).has_read(begun, *old(input)) ==> #[trigger] final(self).has_read(
                    begun,
                    *final(input),
                ),
            final(self).failed() == old(self).failed(),
            final(self).sent() == old(self).sent(),
            final(self).stderr_begun() == old(self).stderr_begun(),
            final(self).pipes_stderr() == old(self).pipes_stderr(),
            (*final(self)) is Head == (*old(self)) is Head,
            final(self).stderr() == old(self).stderr(),
            match r {
                Fill::Filled => {
                    &&& final(self).waiting().len() > 0 || final(self).done()
                    &&& reads_on(*old(self), *old(input), *final(self), *final(input))
                },
                Fill::Starved => {
                    &&& final(input).contents().len() == 0
                    &&& !final(input).write_closed()
                    &&& final(self).waiting().len() == 0
                    &&& !final(self).done()
                    &&& reads_on(*old(self), *old(input), *final(self), *final(input))
                },
                Fill::Stuck => forall|coming: Seq<u8>|
                    can_come(*old(input), coming) ==> !(#[trigger] old(self).takes(
                        left(*old(input), coming),
                    )),
            },
    {
        let ghost before = *self;
        let ghost input0 = *input;
        match self {
            LinkBody::Relay { relay, reader } => {
                let ghost reader0 = *reader;
                let ghost passed = relay.out.taken();
                let ghost none = Seq::<u8>::empty();
                proof {
                    assert(relay.out.waiting().len() == 0);
                    assert(relay.stderr_left().len() == 0);
                    assert(relay.stderr_left() =~= none);
                    assert(passed + none =~= passed);
                    assert(relay.out.waiting() =~= none);
                    assert(relay.out.sent() + none =~= relay.out.sent());
                }
                match read_stage(reader, input) {
                    StageRead::Data(data) => {
                        let ghost d = data@;
                        let _ = relay.took(ReadOutcome::Read(data));
                        proof {
                            let after = LinkBody::Relay { relay: *relay, reader: *reader };
                            assert(relay.stderr_left() =~= none);
                            assert(relay.out.sent() + none =~= relay.out.sent());
                            assert(d + none =~= d);
                            assert(after.waiting() == d);
                            assert forall|coming: Seq<u8>| can_come(input0, coming) implies
                                after.waiting() + (#[trigger] after.unread(left(*input, coming)))
                                    == before.waiting() + before.unread(left(input0, coming)) by {
                                assert(d + reader.future(left(*input, coming))
                                    == reader0.future(left(input0, coming)));
                                assert(before.waiting() =~= Seq::<u8>::empty());
                                assert(before.waiting() + reader0.future(left(input0, coming))
                                    =~= reader0.future(left(input0, coming)));
                            }
                        }
                        Fill::Filled
                    },
                    StageRead::Blocked => {
                        proof {
                            let after = LinkBody::Relay { relay: *relay, reader: *reader };
                            assert forall|coming: Seq<u8>| can_come(input0, coming) implies
                                after.waiting() + (#[trigger] after.unread(left(*input, coming)))
                                    == before.waiting() + before.unread(left(input0, coming)) by {
                                assert(reader.future(left(*input, coming)) == reader0.future(
                                    left(input0, coming),
                                ));
                            }
                        }
                        Fill::Starved
                    },
                    StageRead::Over => {
                        let _ = relay.took(ReadOutcome::Eof);
                        proof {
                            let after = LinkBody::Relay { relay: *relay, reader: *reader };
                            assert forall|coming: Seq<u8>| can_come(input0, coming) implies
                                after.waiting() + (#[trigger] after.unread(left(*input, coming)))
                                    == before.waiting() + before.unread(left(input0, coming)) by {
                                assert(reader0.future(left(input0, coming)).len() == 0);
                                assert(reader0.future(left(input0, coming)) =~= Seq::<
                                    u8,
                                >::empty());
                            }
                        }
                        Fill::Filled
                    },
                    StageRead::Stuck => Fill::Stuck,
                }
            },
            LinkBody::Head(h) => {
                let ghost h0 = *h;
                let one = input.read(1);
                if one.len() > 0 {
                    let ghost b = one@[0];
                    let _ = h.took(ReadOutcome::Read(one));
                    proof {
                        let after = LinkBody::Head(*h);
                        assert forall|coming: Seq<u8>| can_come(input0, coming) implies
                            after.waiting() + (#[trigger] after.unread(left(*input, coming)))
                                == before.waiting() + before.unread(left(input0, coming)) by {
                            let l = left(*input, coming);
                            let l0 = left(input0, coming);
                            assert(one@ =~= seq![b]);
                            assert(l0 =~= seq![b] + l);
                            assert(l0[0] == b);
                            assert(l0.skip(1) =~= l);
                            let m0 = head_left(h0);
                            assert(!<HeadStream as ByteStage>::done(m0));
                            assert(run::<HeadStream>(m0, l0) == seq![b] + run::<HeadStream>(
                                <HeadStream as ByteStage>::next(m0, b),
                                l,
                            ));
                            let m1 = <HeadStream as ByteStage>::next(m0, b);
                            if h.complete {
                                assert(<HeadStream as ByteStage>::done(m1));
                                assert(run::<HeadStream>(m1, l) =~= Seq::<u8>::empty());
                            } else {
                                assert(head_left(*h) == m1);
                            }
                            assert(before.waiting() =~= Seq::<u8>::empty());
                            assert(before.waiting() + before.unread(l0) =~= run::<HeadStream>(
                                m0,
                                l0,
                            ));
                        }
                    }
                    Fill::Filled
                } else if input.is_write_closed() {
                    let _ = h.took(ReadOutcome::Eof);
                    proof {
                        let after = LinkBody::Head(*h);
                        assert forall|coming: Seq<u8>| can_come(input0, coming) implies
                            after.waiting() + (#[trigger] after.unread(left(*input, coming)))
                                == before.waiting() + before.unread(left(input0, coming)) by {
                            assert(coming =~= Seq::<u8>::empty());
                            assert(left(input0, coming) =~= Seq::<u8>::empty());
                            assert(run::<HeadStream>(head_left(h0), left(input0, coming))
                                =~= Seq::<u8>::empty());
                        }
                    }
                    Fill::Filled
                } else {
                    proof {
                        assert forall|coming: Seq<u8>| can_come(input0, coming) implies
                            self.waiting() + (#[trigger] self.unread(left(*input, coming)))
                                == before.waiting() + before.unread(left(input0, coming)) by {
                            assert(left(*input, coming) =~= left(input0, coming));
                        }
                        assert forall|coming: Seq<u8>| can_come(input0, coming) && before.takes(
                            left(input0, coming),
                        ) implies self.takes(#[trigger] left(*input, coming)) by {}
                    }
                    Fill::Starved
                }
            },
        }
    }

    /// Writes what waits, what was read first; returns what the pipe took, how much of that had been
    /// read, and whether the stage is over.
    fn send(&mut self, output: &mut Pipe) -> (r: (Vec<u8>, usize, bool))
        requires
            old(self).wf(false),
            old(self).waiting().len() > 0,
        ensures
            final(self).wf(r.2),
            same_ends(*final(output), *old(output)),
            final(self).done() == old(self).done(),
            !final(self).done() ==> forall|input: Seq<u8>| #[trigger]
                final(self).unread(input) == old(self).unread(input),
            !final(self).done() ==> forall|input: Seq<u8>| #[trigger]
                final(self).takes(input) == old(self).takes(input),
            forall|input: Seq<u8>| #[trigger]
                final(self).result(input) == old(self).result(input),
            final(self).status_now() == old(self).status_now(),
            final(self).failed() == old(self).failed(),
            forall|begun: Option<StageReader>, input: Pipe| #[trigger]
                final(self).has_read(begun, input) == old(self).has_read(begun, input),
            final(output).contents() == old(output).contents() + r.0@,
            final(output).taken() == old(output).taken(),
            old(output).contents().len() <= old(output).capacity() ==> final(
                output).contents().len() <= final(output).capacity(),
            forall|input: Pipe|
                head_logged(*old(self), input, old(output).written()) ==> #[trigger] head_logged(
                    *final(self),
                    input,
                    final(output).written(),
                ),
            final(self).pipes_stderr() == old(self).pipes_stderr(),
            r.1 <= r.0@.len(),
            final(self).sent() == old(self).sent() + r.0@.take(r.1 as int),
            !final(self).stderr_begun() ==> r.1 == r.0@.len() && !old(self).stderr_begun(),
            (*final(self)) is Head == (*old(self)) is Head,
            final(self).stderr() == old(self).stderr(),
            *old(self) matches LinkBody::Head(h0) ==> (*final(self) matches LinkBody::Head(h1)
                && h1.complete == h0.complete),
            r.0@ + final(self).waiting() == old(self).waiting(),
            r.0@.len() == 0 ==> old(output).read_closed() || old(output).contents().len()
                >= old(output).capacity(),
            old(output).read_closed() ==> r.2 && r.0@.len() == 0,
            r.2 ==> old(output).read_closed() || (final(self).waiting().len() == 0
                && final(self).done()),
    {
        let ghost before = *self;
        let ghost waiting = self.waiting();
        match self {
            LinkBody::Relay { relay, reader } => {
                let ghost kept = relay.stderr_left();
                match relay.next() {
                    Want::Write(data) => {
                        assert(data.len() == data@.len());
                        let w = output.write(data.as_slice());
                        let (_, sent) = relay.wrote(w);
                        proof {
                            let n = taken_by(w);
                            let d = data@;
                            assert(d.take(n) + d.skip(n) =~= d);
                            assert(old(output).contents() + d.take(0) =~= old(output).contents());
                            assert(relay.stderr_left() == kept);
                            assert(sent@ + (d.skip(n) + kept) =~= d + kept);
                            assert((before.sent() + d.take(n)) + d.skip(n) =~= before.sent() + d);
                            assert(sent@.take(sent@.len() as int) =~= sent@);
                        }
                        let over: bool = match w {
                            WriteResult::BrokenPipe => true,
                            _ => false,
                        };
                        let count: usize = sent.len();
                        (sent, count, over)
                    },
                    Want::WriteStderr(data) => {
                        assert(data.len() == data@.len());
                        let w = output.write(data.as_slice());
                        let _ = relay.wrote_stderr(w);
                        let (n, over): (usize, bool) = match w {
                            WriteResult::Written(n) => (n, false),
                            WriteResult::WouldBlock(n) => (n, false),
                            WriteResult::BrokenPipe => (0, true),
                        };
                        let sent = vstd::slice::slice_to_vec(
                            vstd::slice::slice_subrange(data.as_slice(), 0, n),
                        );
                        proof {
                            let d = data@;
                            assert(relay.stderr.len() == relay.stderr@.len());
                            assert(d.take(n as int) + d.skip(n as int) =~= d);
                            assert(sent@ =~= d.take(n as int));
                            assert(relay.stderr_left() =~= d.skip(n as int));
                            assert(waiting =~= d);
                            assert(relay.waiting() =~= d.skip(n as int));
                            assert(old(output).contents() + d.take(0) =~= old(output).contents());
                            assert(sent@.take(0) =~= Seq::<u8>::empty());
                            assert(relay.out.sent() + sent@.take(0) =~= relay.out.sent());
                        }
                        (sent, 0, over)
                    },
                    _ => {
                        let none: Vec<u8> = Vec::new();
                        assert(false);
                        (none, 0, false)
                    },
                }
            },
            LinkBody::Head(h) => {
                let data = h.out.bytes();
                assert(data.len() == waiting.len());
                let w = output.write(data.as_slice());
                let poll = h.wrote(w);
                let n: usize = match w {
                    WriteResult::Written(n) => n,
                    WriteResult::WouldBlock(n) => n,
                    WriteResult::BrokenPipe => 0,
                };
                let sent = vstd::slice::slice_to_vec(
                    vstd::slice::slice_subrange(data.as_slice(), 0, n),
                );
                proof {
                    assert(sent@ =~= waiting.take(n as int));
                    assert(waiting.take(n as int) + waiting.skip(n as int) =~= waiting);
                    assert(output.written() =~= old(output).written() + sent@);
                    let h0 = before->Head_0;
                    assert(h0.out.sent() + waiting =~= (h0.out.sent() + waiting.take(n as int))
                        + waiting.skip(n as int));
                    assert(old(output).contents() + waiting.take(0) =~= old(output).contents());
                }
                let over: bool = match poll {
                    PipeProcessPoll::Exited => true,
                    _ => false,
                };
                let count: usize = sent.len();
                assert(sent@.take(count as int) =~= sent@);
                (sent, count, over)
            },
        }
    }

    /// Whether nothing waits.
    fn is_idle(&self) -> (r: bool)
        requires
            self.wf(false),
        ensures
            r == (self.waiting().len() == 0),
    {
        match self {
            LinkBody::Relay { relay, reader } => relay.out.is_empty() && !(relay.pipe_stderr
                && relay.stderr_offset < relay.stderr.len()),
            LinkBody::Head(h) => h.out.is_empty(),
        }
    }

    /// Whether all input that counts was read.
    fn is_done(&self) -> (r: bool)
        ensures
            r == self.done(),
    {
        match self {
            LinkBody::Relay { relay, reader } => relay.reader_done,
            LinkBody::Head(h) => h.complete,
        }
    }
}

impl StageLink {
    /// Polls the stage: what waits is written, else more is read from the stage and written. The
    /// stage is over when it has no more output, or when nobody reads it. Once the rest of its
    /// input does not matter to `head`, nobody reads that.
    pub fn poll(&mut self, input: &mut Pipe, output: &mut Pipe) -> (r: LinkPoll)
        requires
            old(self).wf(),
            !old(self).exited,
            !old(output).write_closed(),
        ensures
            final(self).wf(),
            final(self).tee == old(self).tee,
            final(self).begun == old(self).begun,
            final(self).body.failed() == old(self).body.failed(),
            final(input).capacity() == old(input).capacity(),
            final(output).capacity() == old(output).capacity(),
            final(input).write_closed() == old(input).write_closed(),
            final(input).contents().len() <= old(input).contents().len(),
            final(output).read_closed() == old(output).read_closed(),
            final(self).exited == (r == LinkPoll::Exited),
            final(self).body is Head == old(self).body is Head,
            final(self).body.pipes_stderr() == old(self).body.pipes_stderr(),
            final(self).body.stderr() == old(self).body.stderr(),
            final(output).taken() == old(output).taken(),
            final(input).written() == old(input).written(),
            old(input).read_closed() ==> final(input).read_closed(),
            old(output).read_closed() ==> final(output).contents() == old(output).contents(),
            old(output).contents().len() <= old(output).capacity() ==> final(
                output).contents().len() <= final(output).capacity(),
            old(input).contents().len() <= old(input).capacity() && logged(
                *old(self),
                *old(input),
                *old(output),
            ) && r != LinkPoll::Stuck ==> logged(*final(self), *final(input), *final(output)),
            final(output).written() == old(output).written() + final(output).contents().skip(
                old(output).contents().len() as int,
            ),
            final(output).written().take(old(output).written().len() as int) == old(output).written(),
            final(output).write_closed() == final(self).exited,
            final(self).exited ==> final(input).read_closed(),
            final(input).read_closed() ==> old(input).read_closed() || final(self).ignores(),
            r != LinkPoll::Stuck && old(self).ignores() ==> final(self).ignores(),
            match r {
                LinkPoll::Ready => final(output).contents().len() > old(output).contents().len()
                    && !old(output).read_closed(),
                LinkPoll::Pending => {
                    &&& final(output).contents() == old(output).contents()
                    &&& (final(input).contents().len() == 0 && !final(input).write_closed()) || (
                    final(output).contents().len() >= final(output).capacity()
                        && !final(output).read_closed())
                },
                LinkPoll::Exited => final(output).contents().len() >= old(
                    output,
                ).contents().len(),
                LinkPoll::Stuck => forall|coming: Seq<u8>|
                    can_come(*old(input), coming) ==> !(#[trigger] old(self).takes(
                        left(*old(input), coming),
                    )),
            },
            r != LinkPoll::Stuck ==> forall|coming: Seq<u8>|
                can_come(*old(input), coming) && old(self).takes(left(*old(input), coming))
                    ==> final(self).takes(#[trigger] left(*final(input), coming)),
            r != LinkPoll::Stuck && !(r == LinkPoll::Exited && old(output).read_closed())
                ==> forall|coming: Seq<u8>|
                can_come(*old(input), coming) ==> final(self).result(
                    #[trigger] left(*final(input), coming),
                ) == old(self).result(left(*old(input), coming)),
            r != LinkPoll::Stuck && !(r == LinkPoll::Exited && old(output).read_closed())
                ==> forall|coming: Seq<u8>|
                can_come(*old(input), coming) ==> #[trigger] total(
                    *final(self),
                    *final(input),
                    *final(output),
                    coming,
                ) == total(*old(self), *old(input), *old(output), coming),
    {
        let ghost link0 = *self;
        let ghost input0 = *input;
        let ghost output0 = *output;
        let ghost none = Seq::<u8>::empty();
        proof {
            assert(output0.contents() + none =~= output0.contents());
            assert(link0.copied@ + none =~= link0.copied@);
        }
        if self.body.is_idle() && !self.body.is_done() {
            let filled = self.body.fill(input);
            match filled {
                Fill::Stuck => {
                    return LinkPoll::Stuck;
                },
                Fill::Starved => {
                    proof {
                        assert forall|coming: Seq<u8>| can_come(input0, coming) implies
                            #[trigger] total(*self, *input, *output, coming) == total(
                            link0,
                            input0,
                            output0,
                            coming,
                        ) by {
                            let u = self.body.unread(left(*input, coming));
                            assert(self.body.waiting() + u == link0.body.waiting()
                                + link0.body.unread(left(input0, coming)));
                        }
                    }
                    return LinkPoll::Pending;
                },
                Fill::Filled => {
                    proof {
                        assert forall|coming: Seq<u8>| can_come(input0, coming) implies
                            #[trigger] total(*self, *input, *output, coming) == total(
                            link0,
                            input0,
                            output0,
                            coming,
                        ) by {
                            let u = self.body.unread(left(*input, coming));
                            assert(self.body.waiting() + u == link0.body.waiting()
                                + link0.body.unread(left(input0, coming)));
                        }
                    }
                },
            }
        }
        let ghost link1 = *self;
        let ghost input1 = *input;
        let ghost fits = input0.contents().len() <= input0.capacity() && logged(
            link0,
            input0,
            output0,
        );
        assert(fits ==> head_logged(self.body, input1, output0.written()));
        if self.body.is_done() {
            input.close_read();
        }
        let ghost input2 = *input;
        assert(fits ==> head_logged(self.body, input2, output0.written()));
        if self.body.is_idle() {
            self.exited = true;
            output.close_write();
            input.close_read();
            proof {
                assert(output.written() == output0.written());
                assert(output.contents().skip(output0.contents().len() as int) =~= none);
                assert(output0.written() + none =~= output0.written());
                assert(output0.written().take(output0.written().len() as int)
                    =~= output0.written());
                assert(fits ==> head_logged(self.body, *input, output.written()));
                if fits {
                    assert(link1.body.has_read(self.begun@, input1));
                    lemma_has_read_kept(self.body, self.begun@, input1, *input);
                }
                assert forall|coming: Seq<u8>| can_come(input0, coming) implies #[trigger] total(
                    *self,
                    *input,
                    *output,
                    coming,
                ) == total(link0, input0, output0, coming) by {
                    assert(total(link1, input1, output0, coming) == total(
                        link0,
                        input0,
                        output0,
                        coming,
                    ));
                    assert(link1.body.waiting() =~= Seq::<u8>::empty());
                    assert(link1.future(left(input1, coming)) =~= Seq::<u8>::empty());
                }
                assert forall|coming: Seq<u8>| can_come(input0, coming) implies self.result(
                    #[trigger] left(*input, coming),
                ) == link0.result(left(input0, coming)) by {
                    assert(left(*input, coming) == left(input1, coming));
                    assert(link1.body.result(left(input1, coming)) == link0.body.result(
                        left(input0, coming),
                    ));
                }
            }
            return LinkPoll::Exited;
        }
        let (sent, count, over) = self.body.send(output);
        proof {
            assert(output.written() =~= output0.written() + sent@);
            assert(output.contents().skip(output0.contents().len() as int) =~= sent@);
            assert(output.written().take(output0.written().len() as int) =~= output0.written());
            assert(fits ==> head_logged(self.body, input2, output.written()));
        }
        if self.tee {
            let passed = vstd::slice::slice_subrange(sent.as_slice(), 0, count);
            self.copied.extend_from_slice(passed);
            assert(self.copied@ =~= link0.copied@ + sent@.take(count as int));
        }
        let ghost output1 = *output;
        if over {
            self.exited = true;
            output.close_write();
            input.close_read();
        }
        proof {
            assert(output.written() == output1.written());
            assert(fits ==> head_logged(self.body, *input, output.written()));
            assert(sent@.take(sent@.len() as int) =~= sent@);
            if fits {
                assert(link1.body.sent() == link0.body.sent());
                assert(!self.body.stderr_begun() ==> self.body.sent() == output.written());
                assert(self.tee ==> self.copied@ == self.body.sent());
                assert(link1.body.has_read(self.begun@, input1));
                assert(self.body.has_read(self.begun@, input1));
                lemma_has_read_kept(self.body, self.begun@, input1, *input);
            }
            let s = sent@;
            assert forall|coming: Seq<u8>| can_come(input0, coming) && !(over
                && output0.read_closed()) implies self.result(#[trigger] left(*input, coming))
                == link0.result(left(input0, coming)) by {
                let l = left(*input, coming);
                assert(l == left(input1, coming));
                assert(link1.body.result(left(input1, coming)) == link0.body.result(
                    left(input0, coming),
                ));
                assert(self.body.result(l) == link1.body.result(l));
            }
            assert(output.contents() == output0.contents() + s);
            assert forall|coming: Seq<u8>| can_come(input0, coming) && !(over
                && output0.read_closed()) implies #[trigger] total(
                *self,
                *input,
                *output,
                coming,
            ) == total(link0, input0, output0, coming) by {
                assert(total(link1, input1, output0, coming) == total(
                    link0,
                    input0,
                    output0,
                    coming,
                ));
                let l = left(*input, coming);
                assert(l == left(input1, coming));
                let u = link1.body.unread(l);
                assert(self.body.unread(l) == u);
                if over {
                    assert(u =~= Seq::<u8>::empty());
                    assert(self.body.waiting() =~= Seq::<u8>::empty());
                }
                assert((output0.contents() + s) + (self.body.waiting() + u)
                    =~= output0.contents() + ((s + self.body.waiting()) + u));
                assert((output0.contents() + s) + Seq::<u8>::empty() =~= output0.contents() + s);
                assert(s + Seq::<u8>::empty() =~= s);
            }
        }
        if over {
            LinkPoll::Exited
        } else if sent.len() > 0 {
            LinkPoll::Ready
        } else {
            LinkPoll::Pending
        }
    }
}

} // verus!
