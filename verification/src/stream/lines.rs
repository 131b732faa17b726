//! Stages that work line by line.
use crate::ascii::NEWLINE;
use crate::stream::machine::{run, state_after, ByteStage};
use crate::text::{from_utf8_lossy, utf8_lossy};
use vstd::prelude::*;
use vstd::utf8::encode_utf8;

verus! {

/// A stage that works line by line. The last line counts though no newline ends it.
pub trait LineStage: Sized {
    /// The stage's state as mathematical data.
    type L;

    /// The state of the stage.
    spec fn line_model(&self) -> Self::L;

    /// The state after one line more.
    spec fn line_next(m: Self::L, line: Seq<char>) -> Self::L;

    /// What the stage writes for a line.
    spec fn line_out(m: Self::L, line: Seq<char>) -> Seq<u8>;

    /// What the stage writes at the end of its input.
    spec fn line_tail(m: Self::L) -> Seq<u8>;

    /// Whether the stage takes no more lines.
    spec fn line_done(m: Self::L) -> bool;

    /// The exit status after the lines that were taken.
    spec fn line_status(m: Self::L) -> i32;

    /// Whether the stage can take the line.
    spec fn line_safe(m: Self::L, line: Seq<char>) -> bool;

    /// Whether the stage can take the end of its input.
    spec fn tail_safe(m: Self::L) -> bool;

    /// Whether the stage's counters fit after `n` lines.
    spec fn line_within(m: Self::L, n: nat) -> bool;

    /// Counters that fit after some lines fit after more.
    proof fn lemma_line_within(m: Self::L, n: nat, k: nat)
        requires
            Self::line_within(m, n),
            n <= k,
        ensures
            Self::line_within(m, k),
    ;

    /// Takes one line.
    fn take_line(&mut self, line: String, out: &mut Vec<u8>, Ghost(n): Ghost<nat>)
        requires
            !Self::line_done(old(self).line_model()),
            Self::line_safe(old(self).line_model(), line@),
            Self::line_within(old(self).line_model(), n),
            n < usize::MAX,
        ensures
            final(self).line_model() == Self::line_next(old(self).line_model(), line@),
            final(out)@ == old(out)@ + Self::line_out(old(self).line_model(), line@),
            Self::line_within(final(self).line_model(), n + 1),
            Self::line_done(final(self).line_model()) ==> Self::tail_safe(
                final(self).line_model(),
            ),
    ;

    /// Takes the end of the input.
    fn take_last(&mut self, out: &mut Vec<u8>, Ghost(n): Ghost<nat>)
        requires
            Self::tail_safe(old(self).line_model()),
            Self::line_within(old(self).line_model(), n),
            n <= usize::MAX,
        ensures
            final(out)@ == old(out)@ + Self::line_tail(old(self).line_model()),
            Self::line_status(final(self).line_model()) == Self::line_status(
                old(self).line_model(),
            ),
    ;

    /// The exit status after the lines that were taken.
    fn line_status_now(&self) -> (r: i32)
        ensures
            r == Self::line_status(self.line_model()),
    ;

    /// Whether the stage takes no more lines.
    fn is_line_done(&self) -> (r: bool)
        ensures
            r == Self::line_done(self.line_model()),
    ;

    /// Whether the stage can take the line.
    fn can_take_line(&self, line: &str) -> (r: bool)
        ensures
            r == Self::line_safe(self.line_model(), line@),
    ;

    /// Whether the stage can take the end of its input once it has taken the line, if one is
    /// left over.
    fn can_take_last(&self, line: Option<&str>) -> (r: bool)
        requires
            line matches Some(s) ==> Self::line_safe(self.line_model(), s@),
        ensures
            r == match line {
                Some(s) => Self::tail_safe(Self::line_next(self.line_model(), s@)),
                None => Self::tail_safe(self.line_model()),
            },
    ;
}

/// A line stage with the line that is still growing.
pub struct LineFeed<S: LineStage> {
    pub current: Vec<u8>,
    pub stage: S,
}

impl<S: LineStage> LineFeed<S> {
    /// A line stage at the start of its input.
    pub fn new(stage: S) -> (r: LineFeed<S>)
        ensures
            r.current@.len() == 0,
            r.stage == stage,
    {
        LineFeed { current: Vec::new(), stage }
    }
}

impl<S: LineStage> ByteStage for LineFeed<S> {
    type M = (Seq<u8>, S::L);

    open spec fn model(&self) -> (Seq<u8>, S::L) {
        (self.current@, self.stage.line_model())
    }

    open spec fn next(m: (Seq<u8>, S::L), b: u8) -> (Seq<u8>, S::L) {
        if b == NEWLINE {
            (Seq::empty(), S::line_next(m.1, utf8_lossy(m.0)))
        } else {
            (m.0.push(b), m.1)
        }
    }

    open spec fn out(m: (Seq<u8>, S::L), b: u8) -> Seq<u8> {
        if b == NEWLINE {
            S::line_out(m.1, utf8_lossy(m.0))
        } else {
            Seq::empty()
        }
    }

    open spec fn tail(m: (Seq<u8>, S::L)) -> Seq<u8> {
        if m.0.len() > 0 {
            S::line_out(m.1, utf8_lossy(m.0)) + S::line_tail(S::line_next(m.1, utf8_lossy(m.0)))
        } else {
            S::line_tail(m.1)
        }
    }

    open spec fn done(m: (Seq<u8>, S::L)) -> bool {
        m.0.len() == 0 && S::line_done(m.1)
    }

    open spec fn safe(m: (Seq<u8>, S::L), b: u8) -> bool {
        b == NEWLINE ==> S::line_safe(m.1, utf8_lossy(m.0))
    }

    open spec fn end_safe(m: (Seq<u8>, S::L)) -> bool {
        if m.0.len() > 0 {
            S::line_safe(m.1, utf8_lossy(m.0)) && S::tail_safe(S::line_next(m.1, utf8_lossy(m.0)))
        } else {
            S::tail_safe(m.1)
        }
    }

    open spec fn within(m: (Seq<u8>, S::L), n: nat) -> bool {
        &&& m.0.len() <= n
        &&& S::line_within(m.1, (n - m.0.len()) as nat)
        &&& m.0.len() > 0 ==> !S::line_done(m.1)
    }

    fn take_byte(&mut self, b: u8, out: &mut Vec<u8>, Ghost(n): Ghost<nat>) {
        if b == NEWLINE {
            let line = from_utf8_lossy(self.current.as_slice());
            proof {
                S::lemma_line_within(
                    self.stage.line_model(),
                    (n - self.current@.len()) as nat,
                    n,
                );
            }
            self.current.clear();
            self.stage.take_line(line, out, Ghost(n));
            assert(self.current@ =~= Seq::empty());
        } else {
            self.current.push(b);
            assert(out@ + Seq::<u8>::empty() =~= out@);
        }
    }

    fn take_end(&mut self, out: &mut Vec<u8>, Ghost(n): Ghost<nat>) {
        if self.current.len() > 0 {
            let line = from_utf8_lossy(self.current.as_slice());
            let ghost before = out@;
            let ghost m = self.stage.line_model();
            let ghost k = (n - self.current@.len()) as nat;
            self.stage.take_line(line, out, Ghost(k));
            self.stage.take_last(out, Ghost(k + 1));
            assert(out@ =~= before + (S::line_out(m, line@) + S::line_tail(
                S::line_next(m, line@),
            )));
        } else {
            self.stage.take_last(out, Ghost(n));
        }
        assert(Self::status_of(self.model()) == Self::end_status(old(self).model()));
    }

    open spec fn status_of(m: (Seq<u8>, S::L)) -> i32 {
        S::line_status(m.1)
    }

    open spec fn end_status(m: (Seq<u8>, S::L)) -> i32 {
        if m.0.len() > 0 {
            S::line_status(S::line_next(m.1, utf8_lossy(m.0)))
        } else {
            S::line_status(m.1)
        }
    }

    fn status(&self) -> (r: i32) {
        self.stage.line_status_now()
    }

    fn is_done(&self) -> (r: bool) {
        self.current.len() == 0 && self.stage.is_line_done()
    }

    fn can_take(&self, b: u8) -> (r: bool) {
        if b == NEWLINE {
            let line = from_utf8_lossy(self.current.as_slice());
            self.stage.can_take_line(line.as_str())
        } else {
            true
        }
    }

    fn can_end(&self) -> (r: bool) {
        if self.current.len() > 0 {
            let line = from_utf8_lossy(self.current.as_slice());
            self.stage.can_take_line(line.as_str()) && self.stage.can_take_last(
                Some(line.as_str()),
            )
        } else {
            self.stage.can_take_last(None)
        }
    }
}

/// The lines of an input of which `cur` was read before: what stands between newlines, and
/// what stands after the last one unless it is empty.
pub open spec fn byte_lines(cur: Seq<u8>, input: Seq<u8>) -> Seq<Seq<u8>>
    decreases input.len(),
{
    if input.len() == 0 {
        if cur.len() > 0 {
            seq![cur]
        } else {
            Seq::empty()
        }
    } else if input[0] == NEWLINE {
        seq![cur] + byte_lines(Seq::empty(), input.skip(1))
    } else {
        byte_lines(cur.push(input[0]), input.skip(1))
    }
}

/// The lines of an input as text.
pub open spec fn lines_of(input: Seq<u8>) -> Seq<Seq<char>> {
    as_text(byte_lines(Seq::empty(), input))
}

/// Byte strings as text.
pub open spec fn as_text(lines: Seq<Seq<u8>>) -> Seq<Seq<char>> {
    lines.map_values(|l: Seq<u8>| utf8_lossy(l))
}

/// All that a line stage writes for a list of lines.
pub open spec fn run_lines<S: LineStage>(m: S::L, lines: Seq<Seq<char>>) -> Seq<u8>
    decreases lines.len(),
{
    if lines.len() == 0 || S::line_done(m) {
        S::line_tail(m)
    } else {
        S::line_out(m, lines[0]) + run_lines::<S>(S::line_next(m, lines[0]), lines.skip(1))
    }
}

proof fn lemma_run_lines<S: LineStage>(cur: Seq<u8>, m: S::L, input: Seq<u8>)
    requires
        cur.len() > 0 ==> !S::line_done(m),
    ensures
        run::<LineFeed<S>>((cur, m), input) == run_lines::<S>(m, as_text(byte_lines(cur, input))),
    decreases input.len(),
{
    let lines = as_text(byte_lines(cur, input));
    if input.len() == 0 {
        if cur.len() > 0 {
            assert(lines =~= seq![utf8_lossy(cur)]);
            assert(lines.skip(1) =~= Seq::empty());
            let n = S::line_next(m, utf8_lossy(cur));
            assert(run_lines::<S>(n, lines.skip(1)) == S::line_tail(n));
        } else {
            assert(lines =~= Seq::empty());
        }
    } else if cur.len() == 0 && S::line_done(m) {
    } else if input[0] == NEWLINE {
        let n = S::line_next(m, utf8_lossy(cur));
        lemma_run_lines::<S>(Seq::empty(), n, input.skip(1));
        assert(lines[0] == utf8_lossy(cur));
        assert(lines.skip(1) =~= as_text(byte_lines(Seq::empty(), input.skip(1))));
    } else {
        lemma_run_lines::<S>(cur.push(input[0]), m, input.skip(1));
        assert(run::<LineFeed<S>>((cur, m), input) =~= run::<LineFeed<S>>(
            (cur.push(input[0]), m),
            input.skip(1),
        ));
    }
}

/// However its input is cut into chunks, a line stage sees the lines of the input.
pub proof fn law_line_stage_sees_lines<S: LineStage>(m: S::L, input: Seq<u8>)
    ensures
        run::<LineFeed<S>>((Seq::empty(), m), input) == run_lines::<S>(m, lines_of(input)),
{
    lemma_run_lines::<S>(Seq::empty(), m, input);
}

/// The exit status of a line stage for a list of lines.
pub open spec fn lines_status<S: LineStage>(m: S::L, lines: Seq<Seq<char>>) -> i32
    decreases lines.len(),
{
    if lines.len() == 0 || S::line_done(m) {
        S::line_status(m)
    } else {
        lines_status::<S>(S::line_next(m, lines[0]), lines.skip(1))
    }
}

/// However its input is cut into chunks, the exit status of a line stage is that for the lines of
/// its input, `cur` being what was read of the first one.
pub proof fn law_line_stage_status<S: LineStage>(cur: Seq<u8>, m: S::L, input: Seq<u8>)
    requires
        cur.len() > 0 ==> !S::line_done(m),
    ensures
        <LineFeed<S> as ByteStage>::end_status(state_after::<LineFeed<S>>((cur, m), input))
            == lines_status::<S>(m, as_text(byte_lines(cur, input))),
    decreases input.len(),
{
    let lines = as_text(byte_lines(cur, input));
    if input.len() == 0 {
        if cur.len() > 0 {
            assert(lines =~= seq![utf8_lossy(cur)]);
            assert(lines.skip(1) =~= Seq::empty());
            let n = S::line_next(m, utf8_lossy(cur));
            assert(lines_status::<S>(n, lines.skip(1)) == S::line_status(n));
        } else {
            assert(lines =~= Seq::empty());
        }
    } else if cur.len() == 0 && S::line_done(m) {
    } else if input[0] == NEWLINE {
        let n = S::line_next(m, utf8_lossy(cur));
        law_line_stage_status::<S>(Seq::empty(), n, input.skip(1));
        assert(lines[0] == utf8_lossy(cur));
        assert(lines.skip(1) =~= as_text(byte_lines(Seq::empty(), input.skip(1))));
    } else {
        law_line_stage_status::<S>(cur.push(input[0]), m, input.skip(1));
    }
}

/// Appends a string's bytes.
pub fn emit_str(out: &mut Vec<u8>, s: &str)
    ensures
        final(out)@ == old(out)@ + encode_utf8(s@),
{
    out.extend_from_slice(s.as_bytes());
    assert(out@ =~= old(out)@ + encode_utf8(s@));
}

/// The bytes of a line with its newline.
pub open spec fn line_bytes(s: Seq<char>) -> Seq<u8> {
    encode_utf8(s).push(NEWLINE)
}

/// Appends a line and its newline.
pub fn emit_line(out: &mut Vec<u8>, s: &str)
    ensures
        final(out)@ == old(out)@ + line_bytes(s@),
{
    emit_str(out, s);
    out.push(NEWLINE);
    assert(out@ =~= old(out)@ + line_bytes(s@));
}

} // verus!
