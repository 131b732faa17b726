//! A stretch of a pipeline: a process that writes, and the filters behind it.
use crate::pipeline::body::{
    lemma_same_filters_chain, lemma_same_filters_self, lemma_same_filters_without, same_filters, Body,
};
use crate::pipeline::link::{zeros, CHUNK};
use crate::pipeline::pipe::least;
use crate::pipeline::process::{
    taken_by, BufferedProcess, BufferedWant, PipeProcessPoll, ReadOutcome, RelayProcess,
};
use crate::stream::simple::YesStreamReader;
use vstd::prelude::*;

verus! {

/// Where the bytes of a source come from.
pub enum SourceReader {
    /// They are there, and so many of them were read. More may be added where it is open.
    Bytes { data: Vec<u8>, start: usize, open: bool },
    Yes(YesStreamReader),
}

impl SourceReader {
    /// Whether no more was read than there is.
    pub open spec fn wf(&self) -> bool {
        match self {
            SourceReader::Bytes { data, start, open: _ } => start <= data@.len(),
            SourceReader::Yes(_) => true,
        }
    }

    /// What is still to be read.
    pub open spec fn remaining(&self) -> Seq<u8> {
        match self {
            SourceReader::Bytes { data, start, open: _ } => data@.skip(*start as int),
            SourceReader::Yes(reader) => reader.remaining(),
        }
    }

    /// Whether more may be added.
    pub open spec fn open(&self) -> bool {
        match self {
            SourceReader::Bytes { data: _, start: _, open } => *open,
            SourceReader::Yes(_) => false,
        }
    }

    /// Whether more may be added.
    pub fn is_open(&self) -> (r: bool)
        ensures
            r == self.open(),
    {
        match self {
            SourceReader::Bytes { data: _, start: _, open } => *open,
            SourceReader::Yes(_) => false,
        }
    }

    /// Adds bytes to an open source.
    pub fn add(&mut self, more: &[u8])
        requires
            old(self).wf(),
            old(self).open(),
        ensures
            final(self).wf(),
            final(self).open(),
            final(self).remaining() == old(self).remaining() + more@,
    {
        match self {
            SourceReader::Bytes { data, start, open: _ } => {
                let ghost before = data@;
                data.extend_from_slice(more);
                assert(data@.skip(*start as int) =~= before.skip(*start as int) + more@);
            },
            SourceReader::Yes(_) => {},
        }
    }

    /// Ends an open source.
    pub fn end(&mut self)
        requires
            old(self).wf(),
        ensures
            final(self).wf(),
            !final(self).open(),
            final(self).remaining() == old(self).remaining(),
    {
        match self {
            SourceReader::Bytes { data: _, start: _, open } => {
                *open = false;
            },
            SourceReader::Yes(_) => {},
        }
    }

    /// Reads up to so many bytes.
    pub fn read(&mut self, max: usize) -> (r: Vec<u8>)
        requires
            old(self).wf(),
        ensures
            final(self).wf(),
            final(self).open() == old(self).open(),
            r@.len() == least(max as int, old(self).remaining().len() as int),
            r@ + final(self).remaining() == old(self).remaining(),
    {
        match self {
            SourceReader::Bytes { data, start, open: _ } => {
                let ghost all = data@.skip(*start as int);
                let left: usize = data.len() - *start;
                let n: usize = if max < left {
                    max
                } else {
                    left
                };
                let out = vstd::slice::slice_to_vec(
                    vstd::slice::slice_subrange(data.as_slice(), *start, *start + n),
                );
                *start = *start + n;
                assert(out@ + data@.skip(*start as int) =~= all);
                out
            },
            SourceReader::Yes(reader) => {
                let ghost all = reader.remaining();
                let mut buf = zeros(max);
                let n: usize = reader.read(buf.as_mut_slice());
                let out = vstd::slice::slice_to_vec(
                    vstd::slice::slice_subrange(buf.as_slice(), 0, n),
                );
                proof {
                    assert(out@ =~= all.take(n as int));
                    assert(out@ + reader.remaining() =~= all);
                }
                out
            },
        }
    }
}

/// A process that writes into a stretch.
pub enum Feeder {
    /// It relays a source.
    Source { reader: SourceReader, relay: RelayProcess },
    /// It runs a whole command on the input that was collected.
    Command { process: BufferedProcess, staged: Vec<u8> },
}

impl Feeder {
    /// Whether its parts fit together.
    pub open spec fn wf(&self) -> bool {
        match self {
            Feeder::Source { reader, relay } => {
                &&& reader.wf()
                &&& relay.wf()
                &&& relay.stderr@.len() == 0
                &&& relay.reader_done ==> reader.remaining().len() == 0 && !reader.open()
            },
            Feeder::Command { process, staged } => !process.command_ran
                ==> process.out.waiting().len() == 0,
        }
    }

    /// Whether it says itself that it is over.
    pub open spec fn finished(&self) -> bool {
        match self {
            Feeder::Source { reader, relay } => relay.finished,
            Feeder::Command { process, staged } => process.finished,
        }
    }

    /// Whether all that it writes is there.
    pub open spec fn known(&self) -> bool {
        match self {
            Feeder::Source { reader, relay } => true,
            Feeder::Command { process, staged } => process.command_ran,
        }
    }

    /// Whether it is an open source that waits for more.
    pub open spec fn hungry(&self) -> bool {
        match self {
            Feeder::Source { reader, relay } => reader.open() && reader.remaining().len() == 0
                && relay.out.waiting().len() == 0,
            Feeder::Command { process, staged } => false,
        }
    }

    /// What it still writes if `out` is what its command prints, where that has not run, or what is
    /// added to an open source.
    pub open spec fn rest(&self, out: Seq<u8>) -> Seq<u8> {
        match self {
            Feeder::Source { reader, relay } => relay.out.waiting() + reader.remaining() + (if
                reader.open() {
                out
            } else {
                Seq::empty()
            }),
            Feeder::Command { process, staged } => if process.command_ran {
                process.out.waiting()
            } else {
                out
            },
        }
    }

    /// The input that was collected for its command.
    pub open spec fn staged(&self) -> Seq<u8> {
        match self {
            Feeder::Source { reader, relay } => Seq::empty(),
            Feeder::Command { process, staged } => staged@,
        }
    }

    /// Whether nothing but its way through its bytes may differ.
    pub open spec fn same_kind(&self, other: &Feeder) -> bool {
        match (self, other) {
            (
                Feeder::Source { reader: x, relay: a },
                Feeder::Source { reader: y, relay: b },
            ) => a.stderr == b.stderr && a.status == b.status && x.open() == y.open(),
            (
                Feeder::Command { process: a, staged: s },
                Feeder::Command { process: b, staged: t },
            ) => s@ == t@ && a.has_input == b.has_input && a.pipe_stderr == b.pipe_stderr
                && a.command_ran == b.command_ran && a.status == b.status && a.stderr@ == b.stderr@,
            _ => false,
        }
    }
}

/// A stretch of a pipeline.
pub struct Stretch {
    pub feeder: Feeder,
    pub body: Body,
    /// Whether the process that writes is over.
    pub over: bool,
    /// The stage of that process, if it is one.
    pub stage: Option<usize>,
    /// The number of the stage after the last one of the stretch.
    pub end: usize,
}

/// Whether these are the outputs of commands among which the command of a stretch prints this, its
/// standard error too where that goes to the pipe.
pub open spec fn prints(
    s: Stretch,
    stdout: Seq<u8>,
    stderr: Seq<u8>,
    outs: Seq<Seq<u8>>,
) -> bool {
    s.stage matches Some(i) && s.feeder matches Feeder::Command { process, staged: _ } && outs[
        i as int
    ] == if process.pipe_stderr {
        stdout + stderr
    } else {
        stdout
    }
}

/// Whether a command has run and has come to this.
pub open spec fn ran_to(
    a: Feeder,
    b: Feeder,
    stdout: Seq<u8>,
    stderr: Seq<u8>,
    status: i32,
) -> bool {
    a matches Feeder::Command { process: x, staged: s } && b matches Feeder::Command {
        process: y,
        staged: t,
    } && {
        &&& y.command_ran
        &&& y.status == status
        &&& y.stderr@ == if x.pipe_stderr {
            x.stderr@
        } else {
            x.stderr@ + stderr
        }
        &&& y.has_input == x.has_input
        &&& y.pipe_stderr == x.pipe_stderr
        &&& s@ == t@
    }
}

/// Whether a stretch has the same to give and to do, if these are what the commands print.
pub open spec fn same_flow(a: Stretch, b: Stretch, outs: Seq<Seq<u8>>) -> bool {
    &&& b.flow(outs) == a.flow(outs)
    &&& b.takes(outs) == a.takes(outs)
    &&& b.result(outs) == a.result(outs)
    &&& same_filters(a.body, b.body, a.rest(outs), b.rest(outs))
}

impl Stretch {
    /// Whether its parts fit together.
    pub open spec fn wf(&self) -> bool {
        &&& self.feeder.wf()
        &&& self.body.wf()
        &&& self.over == self.body.closed()
        &&& self.feeder.finished() ==> self.over
        &&& self.stage is Some && self.feeder is Source ==> !self.feeder->reader.open()
        &&& !self.feeder.known() ==> !self.over && self.stage is Some
    }

    /// What its process still writes if these are what the commands of the pipeline print; what is
    /// added to an open source comes last.
    pub open spec fn rest(&self, outs: Seq<Seq<u8>>) -> Seq<u8> {
        self.feeder.rest(
            match self.stage {
                Some(i) => outs[i as int],
                None => outs.last(),
            },
        )
    }

    /// What is still to be taken from it.
    pub open spec fn flow(&self, outs: Seq<Seq<u8>>) -> Seq<u8> {
        self.body.future(self.rest(outs))
    }

    /// Whether its filters can take what is left of their input.
    pub open spec fn takes(&self, outs: Seq<Seq<u8>>) -> bool {
        self.body.takes(self.rest(outs))
    }

    /// The exit status of its last filter in the end.
    pub open spec fn result(&self, outs: Seq<Seq<u8>>) -> i32 {
        self.body.result(self.rest(outs))
    }

    /// How much its process has still to do with what it has: every byte that is to be written, and
    /// the end.
    pub open spec fn to_send(&self) -> nat {
        self.feeder.rest(Seq::empty()).len() + if self.over {
            0nat
        } else {
            1
        }
    }

    /// Whether it has the same place in the pipeline.
    pub open spec fn same_place(&self, other: &Stretch) -> bool {
        self.stage == other.stage && self.end == other.end
    }

    /// Writes on, or ends the input of the filters where all is written or nobody reads it. Returns
    /// whether something happened.
    pub fn send(&mut self) -> (r: bool)
        requires
            old(self).wf(),
            !old(self).over,
            old(self).feeder.known(),
        ensures
            final(self).wf(),
            final(self).same_place(old(self)),
            final(self).feeder.same_kind(&old(self).feeder),
            forall|outs: Seq<Seq<u8>>| #[trigger] final(self).flow(outs) == old(self).flow(outs),
            forall|outs: Seq<Seq<u8>>| #[trigger]
                final(self).takes(outs) == old(self).takes(outs),
            forall|outs: Seq<Seq<u8>>| #[trigger]
                final(self).result(outs) == old(self).result(outs),
            forall|outs: Seq<Seq<u8>>| #[trigger]
                same_filters(
                    old(self).body,
                    final(self).body,
                    old(self).rest(outs),
                    final(self).rest(outs),
                ),
            old(self).body.dry() ==> final(self).body.dry(),
            r ==> final(self).to_send() < old(self).to_send(),
            !r ==> {
                &&& final(self).to_send() == old(self).to_send()
                &&& final(self).body.work() == old(self).body.work()
                &&& !final(self).over
                &&& final(self).body.full() || final(self).feeder.hungry()
                &&& old(self).body.idle() ==> final(self).body.idle()
                &&& final(self).body.output() == old(self).body.output()
                &&& final(self).body.silent() == old(self).body.silent()
            },
    {
        let ghost e = Seq::<u8>::empty();
        let ghost feeder0 = self.feeder;
        let ghost body0 = self.body;
        let mut moved: bool = true;
        let mut ends: bool = true;
        match &mut self.feeder {
            Feeder::Source { reader, relay } => {
                let ghost all = relay.out.waiting() + reader.remaining();
                let ghost open = reader.open();
                if relay.out.is_empty() && !relay.reader_done {
                    let chunk = reader.read(CHUNK);
                    if chunk.len() > 0 || !reader.is_open() {
                        let _ = relay.took(ReadOutcome::Read(chunk));
                    }
                    assert(relay.out.waiting() + reader.remaining() =~= all);
                }
                if !relay.out.is_empty() {
                    let bytes = relay.out.bytes();
                    let w = self.body.feed(bytes.as_slice());
                    let (poll, _) = relay.wrote(w);
                    ends = poll == PipeProcessPoll::Exited;
                    moved = poll != PipeProcessPoll::PendingWrite;
                    proof {
                        let now = relay.out.waiting() + reader.remaining();
                        assert(bytes@.take(taken_by(w)) + now =~= all);
                        assert forall|out: Seq<u8>|
                            ends || self.body.future(#[trigger] self.feeder.rest(out))
                                == body0.future(feeder0.rest(out)) by {
                            let more = if open {
                                out
                            } else {
                                e
                            };
                            assert(bytes@.take(taken_by(w)) + (now + more) =~= all + more);
                        }
                        assert forall|out: Seq<u8>|
                            ends || self.body.takes(#[trigger] self.feeder.rest(out))
                                == body0.takes(feeder0.rest(out)) by {
                            let more = if open {
                                out
                            } else {
                                e
                            };
                            assert(bytes@.take(taken_by(w)) + (now + more) =~= all + more);
                        }
                        assert forall|out: Seq<u8>|
                            ends || self.body.result(#[trigger] self.feeder.rest(out))
                                == body0.result(feeder0.rest(out)) by {
                            let more = if open {
                                out
                            } else {
                                e
                            };
                            assert(bytes@.take(taken_by(w)) + (now + more) =~= all + more);
                        }
                        assert forall|out: Seq<u8>|
                            ends || same_filters(
                                body0,
                                self.body,
                                feeder0.rest(out),
                                #[trigger] self.feeder.rest(out),
                            ) by {
                            let more = if open {
                                out
                            } else {
                                e
                            };
                            assert(bytes@.take(taken_by(w)) + (now + more) =~= all + more);
                            assert(same_filters(
                                body0,
                                self.body,
                                bytes@.take(taken_by(w)) + (now + more),
                                now + more,
                            ));
                        }
                        if ends {
                            assert forall|out: Seq<u8>|
                                same_filters(body0, self.body, #[trigger] feeder0.rest(out), e) by {
                                let r = feeder0.rest(out);
                                assert(bytes@.take(0) + r =~= r);
                                assert(same_filters(body0, self.body, bytes@.take(0) + r, r));
                                assert(same_filters(body0, self.body, e, r));
                                assert(same_filters(body0, self.body, e, e));
                                lemma_same_filters_without(body0, self.body, r);
                            }
                            assert forall|out: Seq<u8>|
                                body0.future(#[trigger] feeder0.rest(out)) == self.body.future(e)
                                    && body0.takes(feeder0.rest(out)) == self.body.takes(e)
                                    && body0.result(feeder0.rest(out)) == self.body.result(
                                    e,
                                ) by {
                                let r = feeder0.rest(out);
                                assert(bytes@.take(0) + r =~= r);
                                assert(self.body.future(r) == body0.future(r));
                                assert(self.body.takes(r) == body0.takes(r));
                                assert(self.body.result(r) == body0.result(r));
                                assert(self.body.future(e) == self.body.future(r));
                                assert(self.body.takes(e) == self.body.takes(r));
                                assert(self.body.result(e) == self.body.result(r));
                            }
                        }
                    }
                } else if reader.is_open() {
                    ends = false;
                    moved = false;
                    assert forall|out: Seq<u8>| #[trigger]
                        self.feeder.rest(out) == feeder0.rest(out) by {
                        assert(self.feeder.rest(out) =~= feeder0.rest(out));
                    }
                    assert forall|out: Seq<u8>|
                        same_filters(
                            body0,
                            self.body,
                            feeder0.rest(out),
                            #[trigger] self.feeder.rest(out),
                        ) by {
                        lemma_same_filters_self(body0, feeder0.rest(out));
                    }
                } else {
                    assert forall|out: Seq<u8>| #[trigger] feeder0.rest(out) == e by {
                        assert(feeder0.rest(out) =~= e);
                    }
                    assert(same_filters(body0, self.body, e, e)) by {
                        lemma_same_filters_self(body0, e);
                    }
                }
            },
            Feeder::Command { process, staged } => {
                let ghost all = process.out.waiting();
                match process.next() {
                    BufferedWant::Write(bytes) => {
                        let w = self.body.feed(bytes.as_slice());
                        let poll = process.wrote(w);
                        ends = poll == PipeProcessPoll::Exited;
                        moved = poll != PipeProcessPoll::PendingWrite;
                        proof {
                            let now = process.out.waiting();
                            assert(bytes@.take(taken_by(w)) + now =~= all);
                            assert(self.body.future(now) == body0.future(all));
                            assert(self.body.takes(now) == body0.takes(all));
                            assert(self.body.result(now) == body0.result(all));
                            assert(same_filters(
                                body0,
                                self.body,
                                bytes@.take(taken_by(w)) + now,
                                now,
                            ));
                            if w is BrokenPipe {
                                assert(all =~= now);
                                assert(same_filters(body0, self.body, e, now));
                                assert(same_filters(body0, self.body, e, e));
                                lemma_same_filters_without(body0, self.body, now);
                                assert(self.body.future(e) == self.body.future(now));
                                assert(self.body.takes(e) == self.body.takes(now));
                                assert(self.body.result(e) == self.body.result(now));
                            } else if ends {
                                assert(now =~= e);
                            }
                        }
                    },
                    _ => {
                        assert(all =~= e);
                        proof {
                            lemma_same_filters_self(body0, e);
                        }
                    },
                }
            },
        }
        let ghost body1 = self.body;
        let ghost feeder1 = self.feeder;
        proof {
            if body0.dry() {
                assert(self.body.dry());
            }
            assert forall|out: Seq<u8>| ({
                let rest = if ends {
                    e
                } else {
                    feeder1.rest(out)
                };
                &&& body1.future(rest) == body0.future(#[trigger] feeder0.rest(out))
                &&& body1.takes(rest) == body0.takes(feeder0.rest(out))
                &&& body1.result(rest) == body0.result(feeder0.rest(out))
                &&& same_filters(body0, body1, feeder0.rest(out), rest)
            }) by {
                let r = feeder1.rest(out);
            }
        }
        if ends {
            self.body.close();
            self.over = true;
        }
        proof {
            assert forall|outs: Seq<Seq<u8>>| #[trigger]
                same_filters(
                    old(self).body,
                    self.body,
                    old(self).rest(outs),
                    self.rest(outs),
                ) by {
                let r = old(self).rest(outs);
                if ends {
                    assert(same_filters(body1, self.body, e, self.rest(outs)));
                    lemma_same_filters_chain(body0, body1, self.body, r, e, self.rest(outs));
                }
            }
            assert forall|outs: Seq<Seq<u8>>| #[trigger]
                self.flow(outs) == old(self).flow(outs) by {
                let r = old(self).rest(outs);
            }
            assert forall|outs: Seq<Seq<u8>>| #[trigger]
                self.takes(outs) == old(self).takes(outs) by {
                let r = old(self).rest(outs);
            }
            assert forall|outs: Seq<Seq<u8>>| #[trigger]
                self.result(outs) == old(self).result(outs) by {
                let r = old(self).rest(outs);
            }
        }
        moved
    }

    /// Takes note of what the command printed, and of its status.
    pub fn ran(&mut self, stdout: &[u8], stderr: &[u8], status: i32)
        requires
            old(self).wf(),
            !old(self).feeder.known(),
        ensures
            final(self).wf(),
            final(self).same_place(old(self)),
            ran_to(old(self).feeder, final(self).feeder, stdout@, stderr@, status),
            old(self).body.dry() ==> final(self).body.dry(),
            forall|outs: Seq<Seq<u8>>|
                prints(*old(self), stdout@, stderr@, outs) ==> #[trigger] same_flow(
                    *old(self),
                    *final(self),
                    outs,
                ),
    {
        let ghost e = Seq::<u8>::empty();
        let ghost body0 = self.body;
        let mut ends: bool = false;
        match &mut self.feeder {
            Feeder::Command { process, staged: _ } => {
                ends = process.ran(stdout, stderr, status) == PipeProcessPoll::Exited;
            },
            Feeder::Source { reader: _, relay: _ } => {},
        }
        let ghost feeder1 = self.feeder;
        if ends {
            self.body.close();
            self.over = true;
        }
        proof {
            assert forall|outs: Seq<Seq<u8>>| prints(
                *old(self),
                stdout@,
                stderr@,
                outs,
            ) implies #[trigger] same_flow(*old(self), *self, outs) by {
                let rest = old(self).rest(outs);
                assert(feeder1.rest(outs[self.stage->0 as int]) == rest);
                assert(self.rest(outs) == rest);
                if ends {
                    assert(rest =~= e);
                    assert(same_filters(body0, self.body, e, rest));
                } else {
                    lemma_same_filters_self(body0, rest);
                }
            }
        }
    }
}

} // verus!
