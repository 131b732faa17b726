//! The stages `head` and `tail`.
use crate::ascii::NEWLINE;
use crate::stream::lines::byte_lines;
use crate::stream::machine::{run, ByteStage};
use crate::views::rows;
use std::collections::VecDeque;
use vstd::prelude::*;

verus! {

/// How much `head` keeps.
#[derive(Clone, Copy, Debug)]
pub enum StreamingHeadMode {
    Lines(usize),
    Bytes(usize),
}

/// How much `tail` keeps.
#[derive(Clone, Copy, Debug)]
pub enum StreamingTailMode {
    Lines(usize),
    Bytes(usize),
}

/// `head`: the first lines or bytes of its input. It holds what is still to be kept.
pub struct HeadStream {
    pub left: StreamingHeadMode,
}

impl HeadStream {
    /// How many bytes may be asked for at once without asking for more than is kept.
    pub fn want(&self) -> (r: usize)
        ensures
            r == match self.left {
                StreamingHeadMode::Bytes(n) => n as int,
                StreamingHeadMode::Lines(n) => if n > 0 {
                    1
                } else {
                    0
                },
            },
    {
        match self.left {
            StreamingHeadMode::Bytes(n) => n,
            StreamingHeadMode::Lines(n) => {
                if n > 0 {
                    1
                } else {
                    0
                }
            },
        }
    }
}

impl ByteStage for HeadStream {
    type M = StreamingHeadMode;

    open spec fn model(&self) -> StreamingHeadMode {
        self.left
    }

    open spec fn next(m: StreamingHeadMode, b: u8) -> StreamingHeadMode {
        match m {
            StreamingHeadMode::Bytes(n) => StreamingHeadMode::Bytes((n - 1) as usize),
            StreamingHeadMode::Lines(n) => if b == NEWLINE {
                StreamingHeadMode::Lines((n - 1) as usize)
            } else {
                m
            },
        }
    }

    open spec fn out(m: StreamingHeadMode, b: u8) -> Seq<u8> {
        seq![b]
    }

    open spec fn tail(m: StreamingHeadMode) -> Seq<u8> {
        Seq::empty()
    }

    open spec fn done(m: StreamingHeadMode) -> bool {
        match m {
            StreamingHeadMode::Bytes(n) => n == 0,
            StreamingHeadMode::Lines(n) => n == 0,
        }
    }

    open spec fn safe(m: StreamingHeadMode, b: u8) -> bool {
        true
    }

    open spec fn end_safe(m: StreamingHeadMode) -> bool {
        true
    }

    open spec fn within(m: StreamingHeadMode, n: nat) -> bool {
        true
    }

    fn take_byte(&mut self, b: u8, out: &mut Vec<u8>, Ghost(n): Ghost<nat>) {
        let ghost before = out@;
        out.push(b);
        assert(out@ =~= before + seq![b]);
        match self.left {
            StreamingHeadMode::Bytes(n) => {
                self.left = StreamingHeadMode::Bytes(n - 1);
            },
            StreamingHeadMode::Lines(n) => {
                if b == NEWLINE {
                    self.left = StreamingHeadMode::Lines(n - 1);
                }
            },
        }
    }

    fn take_end(&mut self, out: &mut Vec<u8>, Ghost(n): Ghost<nat>) {
        assert(out@ + Seq::<u8>::empty() =~= out@);
        assert(Self::status_of(self.model()) == Self::end_status(old(self).model()));
    }

    open spec fn status_of(m: StreamingHeadMode) -> i32 {
        0
    }

    open spec fn end_status(m: StreamingHeadMode) -> i32 {
        0
    }

    fn status(&self) -> (r: i32) {
        0
    }

    fn is_done(&self) -> (r: bool) {
        match self.left {
            StreamingHeadMode::Bytes(n) => n == 0,
            StreamingHeadMode::Lines(n) => n == 0,
        }
    }

    fn can_take(&self, b: u8) -> (r: bool) {
        true
    }

    fn can_end(&self) -> (r: bool) {
        true
    }
}

/// The start of `s` up to and with its `n`-th newline, or all of it.
pub open spec fn first_lines(s: Seq<u8>, n: nat) -> Seq<u8>
    decreases s.len(),
{
    if s.len() == 0 || n == 0 {
        Seq::empty()
    } else {
        seq![s[0]] + first_lines(
            s.skip(1),
            if s[0] == NEWLINE {
                (n - 1) as nat
            } else {
                n
            },
        )
    }
}

/// `head -c` keeps the first bytes of its input, and all of a shorter one.
pub proof fn law_head_bytes(input: Seq<u8>, n: usize)
    ensures
        run::<HeadStream>(StreamingHeadMode::Bytes(n), input) == input.take(
            if n < input.len() {
                n as int
            } else {
                input.len() as int
            },
        ),
    decreases input.len(),
{
    if input.len() > 0 && n > 0 {
        law_head_bytes(input.skip(1), (n - 1) as usize);
    }
    assert(run::<HeadStream>(StreamingHeadMode::Bytes(n), input) =~= input.take(
        if n < input.len() {
            n as int
        } else {
            input.len() as int
        },
    ));
}

/// `head -n` keeps the first lines of its input.
pub proof fn law_head_lines(input: Seq<u8>, n: usize)
    ensures
        run::<HeadStream>(StreamingHeadMode::Lines(n), input) == first_lines(input, n as nat),
    decreases input.len(),
{
    if input.len() > 0 && n > 0 {
        law_head_lines(
            input.skip(1),
            if input[0] == NEWLINE {
                (n - 1) as usize
            } else {
                n
            },
        );
    }
}

/// `tail`: the last lines or bytes of its input.
pub struct TailStream {
    pub mode: StreamingTailMode,
    pub byte_ring: VecDeque<u8>,
    pub line_ring: VecDeque<Vec<u8>>,
    pub current_line: Vec<u8>,
}

/// What `tail` remembers: the last bytes, or the last whole lines and the line that grows.
pub struct TailModel {
    pub mode: StreamingTailMode,
    pub bytes: Seq<u8>,
    pub lines: Seq<Seq<u8>>,
    pub current: Seq<u8>,
}

/// `s` with `x` behind it and no more than the last `limit` items.
pub open spec fn kept<T>(s: Seq<T>, x: T, limit: nat) -> Seq<T> {
    if limit == 0 {
        s
    } else if s.len() == limit {
        s.drop_first().push(x)
    } else {
        s.push(x)
    }
}

/// Lines, each with its newline.
pub open spec fn with_newlines(lines: Seq<Seq<u8>>) -> Seq<u8>
    decreases lines.len(),
{
    if lines.len() == 0 {
        Seq::empty()
    } else {
        with_newlines(lines.drop_last()) + lines.last().push(NEWLINE)
    }
}

impl TailStream {
    /// A tail of nothing yet.
    pub fn new(mode: StreamingTailMode) -> (r: TailStream)
        ensures
            r.model() == tail_start(mode),
    {
        let r = TailStream {
            mode,
            byte_ring: VecDeque::new(),
            line_ring: VecDeque::new(),
            current_line: Vec::new(),
        };
        assert(rows(r.line_ring@) =~= Seq::empty());
        r
    }

    fn push_tail_byte(&mut self, byte: u8, limit: usize)
        ensures
            final(self).byte_ring@ == kept(old(self).byte_ring@, byte, limit as nat),
            final(self).mode == old(self).mode,
            final(self).line_ring == old(self).line_ring,
            final(self).current_line == old(self).current_line,
    {
        if limit == 0 {
            return;
        }
        if self.byte_ring.len() == limit {
            self.byte_ring.pop_front();
            assert(self.byte_ring@ =~= old(self).byte_ring@.drop_first());
        }
        self.byte_ring.push_back(byte);
    }

    fn push_tail_line(&mut self, line: Vec<u8>, limit: usize)
        ensures
            rows(final(self).line_ring@) == kept(rows(old(self).line_ring@), line@, limit as nat),
            final(self).mode == old(self).mode,
            final(self).byte_ring == old(self).byte_ring,
            final(self).current_line == old(self).current_line,
    {
        if limit == 0 {
            return;
        }
        if self.line_ring.len() == limit {
            self.line_ring.pop_front();
            assert(self.line_ring@ =~= old(self).line_ring@.drop_first());
        }
        self.line_ring.push_back(line);
        assert(rows(self.line_ring@) =~= kept(rows(old(self).line_ring@), line@, limit as nat));
    }
}

/// A tail of nothing yet.
pub open spec fn tail_start(mode: StreamingTailMode) -> TailModel {
    TailModel { mode, bytes: Seq::empty(), lines: Seq::empty(), current: Seq::empty() }
}

impl ByteStage for TailStream {
    type M = TailModel;

    open spec fn model(&self) -> TailModel {
        TailModel {
            mode: self.mode,
            bytes: self.byte_ring@,
            lines: rows(self.line_ring@),
            current: self.current_line@,
        }
    }

    open spec fn next(m: TailModel, b: u8) -> TailModel {
        match m.mode {
            StreamingTailMode::Bytes(limit) => TailModel {
                bytes: kept(m.bytes, b, limit as nat),
                ..m
            },
            StreamingTailMode::Lines(limit) => if b == NEWLINE {
                TailModel {
                    lines: kept(m.lines, m.current, limit as nat),
                    current: Seq::empty(),
                    ..m
                }
            } else {
                TailModel { current: m.current.push(b), ..m }
            },
        }
    }

    open spec fn out(m: TailModel, b: u8) -> Seq<u8> {
        Seq::empty()
    }

    open spec fn tail(m: TailModel) -> Seq<u8> {
        match m.mode {
            StreamingTailMode::Bytes(_) => m.bytes,
            StreamingTailMode::Lines(limit) => with_newlines(
                if m.current.len() > 0 {
                    kept(m.lines, m.current, limit as nat)
                } else {
                    m.lines
                },
            ),
        }
    }

    open spec fn done(m: TailModel) -> bool {
        false
    }

    open spec fn safe(m: TailModel, b: u8) -> bool {
        true
    }

    open spec fn end_safe(m: TailModel) -> bool {
        true
    }

    open spec fn within(m: TailModel, n: nat) -> bool {
        true
    }

    fn take_byte(&mut self, b: u8, out: &mut Vec<u8>, Ghost(n): Ghost<nat>) {
        match self.mode {
            StreamingTailMode::Bytes(limit) => {
                self.push_tail_byte(b, limit);
            },
            StreamingTailMode::Lines(limit) => {
                if b == NEWLINE {
                    let mut line: Vec<u8> = Vec::new();
                    std::mem::swap(&mut line, &mut self.current_line);
                    self.push_tail_line(line, limit);
                    assert(self.current_line@ =~= Seq::empty());
                } else {
                    self.current_line.push(b);
                }
            },
        }
        assert(out@ + Seq::<u8>::empty() =~= out@);
    }

    fn take_end(&mut self, out: &mut Vec<u8>, Ghost(n): Ghost<nat>) {
        let ghost before = out@;
        match self.mode {
            StreamingTailMode::Bytes(_) => {
                let mut i: usize = 0;
                assert(out@ =~= before + self.byte_ring@.take(0));
                while i < self.byte_ring.len()
                    invariant
                        i <= self.byte_ring@.len(),
                        out@ == before + self.byte_ring@.take(i as int),
                    decreases self.byte_ring@.len() - i,
                {
                    let b: u8 = self.byte_ring[i];
                    out.push(b);
                    assert(out@ =~= before + self.byte_ring@.take(i + 1));
                    i = i + 1;
                }
                assert(self.byte_ring@.take(i as int) =~= self.byte_ring@);
            },
            StreamingTailMode::Lines(limit) => {
                if self.current_line.len() > 0 {
                    let mut line: Vec<u8> = Vec::new();
                    std::mem::swap(&mut line, &mut self.current_line);
                    self.push_tail_line(line, limit);
                }
                let ghost lines = rows(self.line_ring@);
                let mut i: usize = 0;
                assert(lines.take(0) =~= Seq::empty());
                assert(out@ =~= before + with_newlines(lines.take(0)));
                while i < self.line_ring.len()
                    invariant
                        i <= lines.len(),
                        lines == rows(self.line_ring@),
                        out@ == before + with_newlines(lines.take(i as int)),
                    decreases lines.len() - i,
                {
                    let line: &Vec<u8> = &self.line_ring[i];
                    assert(lines[i as int] == line@);
                    out.extend_from_slice(line.as_slice());
                    out.push(NEWLINE);
                    assert(lines.take(i + 1).drop_last() =~= lines.take(i as int));
                    assert(out@ =~= before + with_newlines(lines.take(i + 1)));
                    i = i + 1;
                }
                assert(lines.take(i as int) =~= lines);
            },
        }
        assert(Self::status_of(self.model()) == Self::end_status(old(self).model()));
    }

    open spec fn status_of(m: TailModel) -> i32 {
        0
    }

    open spec fn end_status(m: TailModel) -> i32 {
        0
    }

    fn status(&self) -> (r: i32) {
        0
    }

    fn is_done(&self) -> (r: bool) {
        false
    }

    fn can_take(&self, b: u8) -> (r: bool) {
        true
    }

    fn can_end(&self) -> (r: bool) {
        true
    }
}

/// The last `n` items of `s`, or all of them.
pub open spec fn last_items<T>(s: Seq<T>, n: nat) -> Seq<T> {
    if n < s.len() {
        s.skip(s.len() - n)
    } else {
        s
    }
}

proof fn lemma_tail_bytes(m: TailModel, limit: usize, past: Seq<u8>, input: Seq<u8>)
    requires
        m.mode == StreamingTailMode::Bytes(limit),
        m.bytes == last_items(past, limit as nat),
    ensures
        run::<TailStream>(m, input) == last_items(past + input, limit as nat),
    decreases input.len(),
{
    if input.len() == 0 {
        assert(past + input =~= past);
    } else {
        let p = past.push(input[0]);
        assert(kept(m.bytes, input[0], limit as nat) =~= last_items(p, limit as nat));
        lemma_tail_bytes(TailStream::next(m, input[0]), limit, p, input.skip(1));
        assert(p + input.skip(1) =~= past + input);
        assert(run::<TailStream>(m, input) =~= last_items(past + input, limit as nat));
    }
}

/// `tail -c` keeps the last bytes of its input.
pub proof fn law_tail_bytes(input: Seq<u8>, n: usize)
    ensures
        run::<TailStream>(tail_start(StreamingTailMode::Bytes(n)), input) == last_items(
            input,
            n as nat,
        ),
{
    assert(last_items(Seq::<u8>::empty(), n as nat) =~= Seq::<u8>::empty());
    lemma_tail_bytes(tail_start(StreamingTailMode::Bytes(n)), n, Seq::empty(), input);
    assert(Seq::<u8>::empty() + input =~= input);
}

proof fn lemma_tail_lines(m: TailModel, limit: usize, past: Seq<Seq<u8>>, input: Seq<u8>)
    requires
        m.mode == StreamingTailMode::Lines(limit),
        m.lines == last_items(past, limit as nat),
    ensures
        run::<TailStream>(m, input) == with_newlines(
            last_items(past + byte_lines(m.current, input), limit as nat),
        ),
    decreases input.len(),
{
    let lines = byte_lines(m.current, input);
    if input.len() == 0 {
        if m.current.len() > 0 {
            assert(past + lines =~= past.push(m.current));
            assert(kept(m.lines, m.current, limit as nat) =~= last_items(
                past + lines,
                limit as nat,
            ));
        } else {
            assert(past + lines =~= past);
        }
    } else if input[0] == NEWLINE {
        let p = past.push(m.current);
        assert(kept(m.lines, m.current, limit as nat) =~= last_items(p, limit as nat));
        lemma_tail_lines(TailStream::next(m, input[0]), limit, p, input.skip(1));
        assert(p + byte_lines(Seq::empty(), input.skip(1)) =~= past + lines);
        assert(run::<TailStream>(m, input) =~= run::<TailStream>(
            TailStream::next(m, input[0]),
            input.skip(1),
        ));
    } else {
        lemma_tail_lines(TailStream::next(m, input[0]), limit, past, input.skip(1));
        assert(run::<TailStream>(m, input) =~= run::<TailStream>(
            TailStream::next(m, input[0]),
            input.skip(1),
        ));
    }
}

/// `tail -n` keeps the last lines of its input, and ends each with a newline.
pub proof fn law_tail_lines(input: Seq<u8>, n: usize)
    ensures
        run::<TailStream>(tail_start(StreamingTailMode::Lines(n)), input) == with_newlines(
            last_items(byte_lines(Seq::empty(), input), n as nat),
        ),
{
    assert(last_items(Seq::<Seq<u8>>::empty(), n as nat) =~= Seq::<Seq<u8>>::empty());
    lemma_tail_lines(tail_start(StreamingTailMode::Lines(n)), n, Seq::empty(), input);
    let lines = byte_lines(Seq::empty(), input);
    assert(Seq::<Seq<u8>>::empty() + lines =~= lines);
}

} // verus!
