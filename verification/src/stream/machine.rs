//! Running a stage on input that comes in chunks, and taking its output in pieces.
use vstd::prelude::*;

verus! {

/// A stage of a pipeline, described byte by byte.
pub trait ByteStage: Sized {
    /// The stage's state as mathematical data.
    type M;

    /// The state of the stage.
    spec fn model(&self) -> Self::M;

    /// The state after one byte more.
    spec fn next(m: Self::M, b: u8) -> Self::M;

    /// What the stage writes when it takes a byte.
    spec fn out(m: Self::M, b: u8) -> Seq<u8>;

    /// What the stage writes at the end of its input.
    spec fn tail(m: Self::M) -> Seq<u8>;

    /// Whether the stage takes no more input.
    spec fn done(m: Self::M) -> bool;

    /// The exit status so far.
    spec fn status_of(m: Self::M) -> i32;

    /// The exit status when the input ends here.
    spec fn end_status(m: Self::M) -> i32;

    /// Whether the stage can take the byte.
    spec fn safe(m: Self::M, b: u8) -> bool;

    /// Whether the stage can take the end of its input.
    spec fn end_safe(m: Self::M) -> bool;

    /// Whether the stage's counters fit after `n` bytes.
    spec fn within(m: Self::M, n: nat) -> bool;

    /// Takes one byte.
    fn take_byte(&mut self, b: u8, out: &mut Vec<u8>, Ghost(n): Ghost<nat>)
        requires
            !Self::done(old(self).model()),
            Self::safe(old(self).model(), b),
            Self::within(old(self).model(), n),
            n < usize::MAX,
        ensures
            final(self).model() == Self::next(old(self).model(), b),
            final(out)@ == old(out)@ + Self::out(old(self).model(), b),
            Self::within(final(self).model(), n + 1),
            Self::done(final(self).model()) ==> Self::end_safe(final(self).model()),
    ;

    /// Takes the end of the input.
    fn take_end(&mut self, out: &mut Vec<u8>, Ghost(n): Ghost<nat>)
        requires
            Self::end_safe(old(self).model()),
            Self::within(old(self).model(), n),
            n <= usize::MAX,
        ensures
            final(out)@ == old(out)@ + Self::tail(old(self).model()),
            Self::status_of(final(self).model()) == Self::end_status(old(self).model()),
    ;

    /// The exit status so far.
    fn status(&self) -> (r: i32)
        ensures
            r == Self::status_of(self.model()),
    ;

    /// Whether the stage takes no more input.
    fn is_done(&self) -> (r: bool)
        ensures
            r == Self::done(self.model()),
    ;

    /// Whether the stage can take the byte.
    fn can_take(&self, b: u8) -> (r: bool)
        ensures
            r == Self::safe(self.model(), b),
    ;

    /// Whether the stage can take the end of its input.
    fn can_end(&self) -> (r: bool)
        ensures
            r == Self::end_safe(self.model()),
    ;
}

/// All that a stage writes for an input: byte by byte until it is done or the input ends, and
/// then what it writes at the end.
pub open spec fn run<S: ByteStage>(m: S::M, input: Seq<u8>) -> Seq<u8>
    decreases input.len(),
{
    if input.len() == 0 || S::done(m) {
        S::tail(m)
    } else {
        S::out(m, input[0]) + run::<S>(S::next(m, input[0]), input.skip(1))
    }
}

/// The state of a stage after an input.
pub open spec fn state_after<S: ByteStage>(m: S::M, input: Seq<u8>) -> S::M
    decreases input.len(),
{
    if input.len() == 0 || S::done(m) {
        m
    } else {
        state_after::<S>(S::next(m, input[0]), input.skip(1))
    }
}

/// What a stage writes for an input that does not end yet.
pub open spec fn written<S: ByteStage>(m: S::M, input: Seq<u8>) -> Seq<u8>
    decreases input.len(),
{
    if input.len() == 0 || S::done(m) {
        Seq::empty()
    } else {
        S::out(m, input[0]) + written::<S>(S::next(m, input[0]), input.skip(1))
    }
}

/// The exit status of a stage after an input that does not end yet.
pub open spec fn status_so_far<S: ByteStage>(m: S::M, input: Seq<u8>) -> i32 {
    let n = state_after::<S>(m, input);
    if S::done(n) {
        S::end_status(n)
    } else {
        S::status_of(n)
    }
}

/// Whether a stage can take an input.
pub open spec fn run_safe<S: ByteStage>(m: S::M, input: Seq<u8>) -> bool
    decreases input.len(),
{
    input.len() == 0 || S::done(m) || (S::safe(m, input[0]) && run_safe::<S>(
        S::next(m, input[0]),
        input.skip(1),
    ))
}

/// Whether a stage can take an input that comes after `fed` bytes, and its end.
pub open spec fn accepts<S: ByteStage>(m: S::M, fed: nat, input: Seq<u8>) -> bool {
    let end = state_after::<S>(m, input);
    &&& run_safe::<S>(m, input)
    &&& S::done(end) || S::end_safe(end)
    &&& fed + input.len() <= usize::MAX
}

/// An input may be cut anywhere: one in two parts is run as one. What the first part makes the stage
/// write comes first, and then the rest from the state that it leaves.
pub proof fn law_input_may_come_in_pieces<S: ByteStage>(m: S::M, a: Seq<u8>, b: Seq<u8>)
    ensures
        run::<S>(m, a + b) == written::<S>(m, a) + run::<S>(state_after::<S>(m, a), b),
        state_after::<S>(m, a + b) == state_after::<S>(state_after::<S>(m, a), b),
        written::<S>(m, a + b) == written::<S>(m, a) + written::<S>(state_after::<S>(m, a), b),
    decreases a.len(),
{
    if a.len() == 0 {
        assert(a + b =~= b);
        assert(written::<S>(m, a) + run::<S>(m, b) =~= run::<S>(m, b));
        assert(written::<S>(m, a) + written::<S>(m, b) =~= written::<S>(m, b));
    } else if S::done(m) {
        assert(written::<S>(m, a) + run::<S>(m, b) =~= run::<S>(m, b));
        assert(written::<S>(m, a) + written::<S>(m, b) =~= written::<S>(m, b));
    } else {
        assert((a + b).skip(1) =~= a.skip(1) + b);
        let n = S::next(m, a[0]);
        law_input_may_come_in_pieces::<S>(n, a.skip(1), b);
        assert(run::<S>(m, a + b) =~= written::<S>(m, a) + run::<S>(state_after::<S>(m, a), b));
        assert(written::<S>(m, a + b) =~= written::<S>(m, a) + written::<S>(
            state_after::<S>(m, a),
            b,
        ));
    }
}

/// What came of an attempt to take output.
pub enum Pull {
    /// So many bytes were written to the buffer.
    Bytes(usize),
    /// The stage needs input first.
    NeedInput,
    /// All output has been taken.
    End,
}

/// A stage with the output that has not been taken yet.
pub struct Machine<S: ByteStage> {
    stage: S,
    out: Vec<u8>,
    offset: usize,
    fed: usize,
    ended: bool,
}

impl<S: ByteStage> Machine<S> {
    /// Whether the machine's parts fit together.
    pub closed spec fn wf(&self) -> bool {
        &&& self.offset <= self.out@.len()
        &&& !self.ended ==> S::within(self.stage.model(), self.fed as nat)
        &&& !self.ended ==> !S::done(self.stage.model())
    }

    /// The state of the stage.
    pub closed spec fn state(&self) -> S::M {
        self.stage.model()
    }

    /// Whether the stage has ended: by itself or because its input did.
    pub closed spec fn ended(&self) -> bool {
        self.ended
    }

    /// How many bytes the machine was fed.
    pub closed spec fn fed(&self) -> nat {
        self.fed as nat
    }

    /// The output that was made and not taken yet.
    pub closed spec fn pending(&self) -> Seq<u8> {
        self.out@.skip(self.offset as int)
    }

    /// All output that is still to be taken if `rest` is the rest of the input.
    pub open spec fn future(&self, rest: Seq<u8>) -> Seq<u8> {
        if self.ended() {
            self.pending()
        } else {
            self.pending() + run::<S>(self.state(), rest)
        }
    }

    /// Whether the machine can take `rest` as the rest of its input.
    pub open spec fn takes(&self, rest: Seq<u8>) -> bool {
        self.ended() || accepts::<S>(self.state(), self.fed(), rest)
    }

    /// The exit status in the end if `rest` is the rest of the input.
    pub open spec fn result(&self, rest: Seq<u8>) -> i32 {
        if self.ended() {
            S::status_of(self.state())
        } else {
            S::end_status(state_after::<S>(self.state(), rest))
        }
    }

    /// The exit status after `rest` if the input does not end there.
    pub open spec fn so_far(&self, rest: Seq<u8>) -> i32 {
        if self.ended() {
            S::status_of(self.state())
        } else {
            status_so_far::<S>(self.state(), rest)
        }
    }

    /// After nothing the exit status is what it is.
    pub proof fn lemma_so_far(&self)
        requires
            self.wf(),
        ensures
            self.so_far(Seq::empty()) == S::status_of(self.state()),
    {
    }

    /// A machine for a stage that has output to begin with.
    pub fn new(stage: S, start: Vec<u8>) -> (r: Self)
        requires
            S::within(stage.model(), 0),
            S::done(stage.model()) ==> S::end_safe(stage.model()),
        ensures
            r.wf(),
            r.fed() == 0,
            r.ended() == S::done(stage.model()),
            r.state() == stage.model() || r.ended(),
            forall|rest: Seq<u8>| #[trigger]
                r.future(rest) == start@ + run::<S>(stage.model(), rest),
            forall|rest: Seq<u8>| #[trigger]
                r.takes(rest) == (S::done(stage.model()) || accepts::<S>(
                    stage.model(),
                    0,
                    rest,
                )),
            forall|rest: Seq<u8>| #[trigger]
                r.result(rest) == S::end_status(state_after::<S>(stage.model(), rest)),
            forall|rest: Seq<u8>| #[trigger]
                r.so_far(rest) == status_so_far::<S>(stage.model(), rest),
    {
        let mut s = stage;
        let mut out = start;
        let done: bool = s.is_done();
        if done {
            s.take_end(&mut out, Ghost(0));
        }
        let r = Machine { stage: s, out, offset: 0, fed: 0, ended: done };
        proof {
            assert(r.pending() =~= r.out@);
        }
        r
    }

    /// The exit status so far.
    pub fn status(&self) -> (r: i32)
        ensures
            r == S::status_of(self.state()),
    {
        self.stage.status()
    }

    /// Whether the stage has ended.
    pub fn is_ended(&self) -> (r: bool)
        ensures
            r == self.ended(),
    {
        self.ended
    }

    /// Whether so many more bytes can be counted.
    pub fn has_room(&self, n: usize) -> (r: bool)
        ensures
            r == (self.fed() + n <= usize::MAX),
    {
        n <= usize::MAX - self.fed
    }

    /// Whether the stage can take the byte.
    pub fn can_take(&self, b: u8) -> (r: bool)
        ensures
            r == (self.ended() || S::safe(self.state(), b)),
            self.wf() ==> forall|rest: Seq<u8>| #[trigger] self.takes(seq![b] + rest) ==> r,
    {
        proof {
            if self.wf() {
                assert forall|rest: Seq<u8>| #[trigger]
                    self.takes(seq![b] + rest) implies self.ended() || S::safe(
                    self.state(),
                    b,
                ) by {
                    assert((seq![b] + rest)[0] == b);
                }
            }
        }
        self.ended || self.stage.can_take(b)
    }

    /// Whether the stage can take the end of its input.
    pub fn can_close(&self) -> (r: bool)
        ensures
            r == (self.ended() || S::end_safe(self.state())),
            self.wf() && self.takes(Seq::empty()) ==> r,
    {
        self.ended || self.stage.can_end()
    }

    /// Feeds one byte of input.
    pub fn feed(&mut self, b: u8)
        requires
            old(self).wf(),
            old(self).ended() || S::safe(old(self).state(), b),
            old(self).fed() < usize::MAX,
        ensures
            final(self).wf(),
            final(self).fed() == old(self).fed() + 1,
            !old(self).ended() && !final(self).ended() ==> final(self).state() == S::next(
                old(self).state(),
                b,
            ),
            final(self).ended() == (old(self).ended() || S::done(S::next(old(self).state(), b))),
            forall|rest: Seq<u8>| #[trigger]
                final(self).future(rest) == old(self).future(seq![b] + rest),
            forall|rest: Seq<u8>| #[trigger]
                old(self).takes(seq![b] + rest) ==> final(self).takes(rest),
            forall|rest: Seq<u8>| #[trigger]
                final(self).result(rest) == old(self).result(seq![b] + rest),
            forall|rest: Seq<u8>| #[trigger]
                final(self).so_far(rest) == old(self).so_far(seq![b] + rest),
    {
        let ghost n = self.fed as nat;
        let ghost before = self.pending();
        let ghost m = self.stage.model();
        let ghost was_ended = self.ended;
        self.fed = self.fed + 1;
        if !self.ended {
            let ghost out0 = self.out@;
            self.stage.take_byte(b, &mut self.out, Ghost(n));
            let ghost m1 = self.stage.model();
            assert(self.out@.skip(self.offset as int) =~= before + S::out(m, b));
            if self.stage.is_done() {
                let ghost out1 = self.out@;
                self.stage.take_end(&mut self.out, Ghost(n + 1));
                self.ended = true;
                assert(self.out@.skip(self.offset as int) =~= before + S::out(m, b) + S::tail(m1));
            }
            proof {
                assert forall|rest: Seq<u8>| #[trigger]
                    self.future(rest) == old(self).future(seq![b] + rest) by {
                    let input = seq![b] + rest;
                    assert(input.skip(1) =~= rest);
                    assert(input[0] == b);
                    assert(run::<S>(m, input) == S::out(m, b) + run::<S>(m1, rest));
                    assert(self.future(rest) =~= old(self).future(input));
                }
                assert forall|rest: Seq<u8>| #[trigger]
                    self.result(rest) == old(self).result(seq![b] + rest) by {
                    let input = seq![b] + rest;
                    assert(input.skip(1) =~= rest);
                    assert(input[0] == b);
                    assert(state_after::<S>(m, input) == state_after::<S>(m1, rest));
                }
                assert forall|rest: Seq<u8>| #[trigger]
                    self.so_far(rest) == old(self).so_far(seq![b] + rest) by {
                    let input = seq![b] + rest;
                    assert(input.skip(1) =~= rest);
                    assert(input[0] == b);
                    assert(state_after::<S>(m, input) == state_after::<S>(m1, rest));
                }
                assert forall|rest: Seq<u8>| #[trigger]
                    old(self).takes(seq![b] + rest) implies self.takes(rest) by {
                    let input = seq![b] + rest;
                    assert(input.skip(1) =~= rest);
                    assert(input[0] == b);
                }
            }
        }
    }

    /// Ends the input.
    pub fn close(&mut self)
        requires
            old(self).wf(),
            old(self).ended() || S::end_safe(old(self).state()),
        ensures
            final(self).wf(),
            final(self).ended(),
            final(self).fed() == old(self).fed(),
            forall|rest: Seq<u8>| #[trigger]
                final(self).future(rest) == old(self).future(Seq::empty()),
            forall|rest: Seq<u8>| #[trigger]
                final(self).result(rest) == old(self).result(Seq::empty()),
    {
        if !self.ended {
            let ghost n = self.fed as nat;
            let ghost before = self.pending();
            let ghost m = self.stage.model();
            self.stage.take_end(&mut self.out, Ghost(n));
            self.ended = true;
            assert(self.out@.skip(self.offset as int) =~= before + S::tail(m));
        }
    }

    /// Takes output into a buffer: as many of the pending bytes as fit. Without pending bytes
    /// it reports whether input is needed or all is taken; a buffer without room takes
    /// nothing.
    pub fn pull(&mut self, buf: &mut [u8]) -> (r: Pull)
        requires
            old(self).wf(),
        ensures
            final(self).wf(),
            final(buf)@.len() == old(buf)@.len(),
            final(self).ended() == old(self).ended(),
            final(self).state() == old(self).state(),
            final(self).fed() == old(self).fed(),
            forall|rest: Seq<u8>| #[trigger] final(self).takes(rest) == old(self).takes(rest),
            forall|rest: Seq<u8>| #[trigger] final(self).result(rest) == old(self).result(rest),
            match r {
                Pull::Bytes(n) => {
                    &&& n <= old(buf)@.len()
                    &&& n == 0 <==> old(buf)@.len() == 0
                    &&& final(buf)@ == old(self).pending().take(n as int) + old(buf)@.skip(n as int)
                    &&& forall|rest: Seq<u8>| #[trigger]
                        final(buf)@.take(n as int) + final(self).future(rest) == old(self).future(
                            rest,
                        )
                },
                Pull::NeedInput => old(buf)@.len() > 0 && !old(self).ended()
                    && old(self).pending().len() == 0 && *final(self) == *old(self) && final(buf)@
                    == old(buf)@,
                Pull::End => old(buf)@.len() > 0 && old(self).ended() && old(self).pending().len()
                    == 0 && *final(self) == *old(self) && final(buf)@ == old(buf)@,
            },
    {
        if buf.len() == 0 {
            proof {
                assert(buf@ =~= self.pending().take(0) + buf@.skip(0));
                assert forall|rest: Seq<u8>| #[trigger]
                    buf@.take(0) + self.future(rest) == self.future(rest) by {
                    assert(buf@.take(0) + self.future(rest) =~= self.future(rest));
                }
            }
            return Pull::Bytes(0);
        }
        if self.offset == self.out.len() {
            if self.ended {
                return Pull::End;
            }
            return Pull::NeedInput;
        }
        let ghost waiting = self.out@.skip(self.offset as int);
        let n: usize = take_pending_output(&mut self.out, &mut self.offset, buf);
        proof {
            assert(self.out@.skip(self.offset as int) =~= waiting.skip(n as int));
            assert forall|rest: Seq<u8>| #[trigger]
                buf@.take(n as int) + self.future(rest) == old(self).future(rest) by {
                assert(buf@.take(n as int) =~= old(self).pending().take(n as int));
                assert(buf@.take(n as int) + self.future(rest) =~= old(self).future(rest));
            }
        }
        Pull::Bytes(n)
    }
}

/// The bytes that wait from an offset on; none where it lies beyond them.
pub open spec fn waiting_from(pending: Seq<u8>, offset: int) -> Seq<u8> {
    if 0 <= offset <= pending.len() {
        pending.skip(offset)
    } else {
        Seq::empty()
    }
}

/// Moves bytes that wait from `offset` on into a buffer, as many as fit, and forgets them once
/// all are taken.
pub fn take_pending_output(pending: &mut Vec<u8>, offset: &mut usize, buf: &mut [u8]) -> (r: usize)
    ensures
        final(buf)@.len() == old(buf)@.len(),
        ({
            let waiting = waiting_from(old(pending)@, *old(offset) as int);
            &&& r == if waiting.len() < old(buf)@.len() {
                waiting.len()
            } else {
                old(buf)@.len()
            }
            &&& final(buf)@ == waiting.take(r as int) + old(buf)@.skip(r as int)
            &&& if r == waiting.len() {
                final(pending)@.len() == 0 && *final(offset) == 0
            } else {
                final(pending)@ == old(pending)@ && *final(offset) == *old(offset) + r
            }
        }),
{
    let ghost waiting = waiting_from(pending@, *offset as int);
    let ghost room = buf@;
    let start: usize = *offset;
    if start >= pending.len() {
        pending.clear();
        *offset = 0;
        assert(waiting =~= Seq::empty());
        assert(buf@ =~= waiting.take(0) + room.skip(0));
        return 0;
    }
    let left: usize = pending.len() - start;
    let n: usize = if left < buf.len() {
        left
    } else {
        buf.len()
    };
    let mut i: usize = 0;
    assert(buf@ =~= waiting.take(0) + room.skip(0));
    while i < n
        invariant
            i <= n,
            n <= room.len(),
            n <= waiting.len(),
            waiting == pending@.skip(start as int),
            start + n <= pending.len(),
            buf@ == waiting.take(i as int) + room.skip(i as int),
        decreases n - i,
    {
        let b: u8 = pending[start + i];
        buf[i] = b;
        assert(buf@ =~= waiting.take(i + 1) + room.skip(i + 1));
        i = i + 1;
    }
    if n == left {
        pending.clear();
        *offset = 0;
    } else {
        *offset = start + n;
    }
    n
}

} // verus!
