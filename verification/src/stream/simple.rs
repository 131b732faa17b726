//! The stages `rev`, `paste` and `column`, and the source `yes`.
use crate::ascii::NEWLINE;
use crate::stream::lines::{emit_line, emit_str, line_bytes, LineStage};
use crate::stream::machine::{run, ByteStage};
use crate::text::chars_of;
use vstd::prelude::*;
use vstd::utf8::encode_utf8;

verus! {

/// `rev`: every line backwards.
pub struct RevStream;

impl LineStage for RevStream {
    type L = ();

    open spec fn line_model(&self) -> () {
        ()
    }

    open spec fn line_next(m: (), line: Seq<char>) -> () {
        ()
    }

    open spec fn line_out(m: (), line: Seq<char>) -> Seq<u8> {
        line_bytes(line.reverse())
    }

    open spec fn line_tail(m: ()) -> Seq<u8> {
        Seq::empty()
    }

    open spec fn line_done(m: ()) -> bool {
        false
    }

    open spec fn line_safe(m: (), line: Seq<char>) -> bool {
        true
    }

    open spec fn tail_safe(m: ()) -> bool {
        true
    }

    open spec fn line_within(m: (), n: nat) -> bool {
        true
    }

    proof fn lemma_line_within(m: (), n: nat, k: nat) {
    }

    fn take_line(&mut self, line: String, out: &mut Vec<u8>, Ghost(n): Ghost<nat>) {
        let reversed = reverse_chars(line.as_str());
        emit_line(out, reversed.as_str());
    }

    fn take_last(&mut self, out: &mut Vec<u8>, Ghost(n): Ghost<nat>) {
        assert(out@ + Seq::<u8>::empty() =~= out@);
        assert(Self::line_status(self.line_model()) == Self::line_status(
            old(self).line_model(),
        ));
    }

    open spec fn line_status(m: ()) -> i32 {
        0
    }

    fn line_status_now(&self) -> (r: i32) {
        0
    }

    fn is_line_done(&self) -> (r: bool) {
        false
    }

    fn can_take_line(&self, line: &str) -> (r: bool) {
        true
    }

    fn can_take_last(&self, line: Option<&str>) -> (r: bool) {
        true
    }
}

/// The characters of a string backwards.
pub fn reverse_chars(s: &str) -> (r: String)
    ensures
        r@ == s@.reverse(),
{
    let chars = chars_of(s);
    let mut r = String::new();
    let mut i: usize = chars.len();
    assert(r@ =~= s@.reverse().take(0));
    while i > 0
        invariant
            i <= chars@.len(),
            chars@ == s@,
            r@ == s@.reverse().take(chars@.len() - i),
        decreases i,
    {
        i = i - 1;
        r.push(chars[i]);
        assert(r@ =~= s@.reverse().take(chars@.len() - i));
    }
    assert(s@.reverse().take(chars@.len() as int) =~= s@.reverse());
    r
}

/// Turning a line backwards twice gives the line.
pub proof fn law_rev_twice(line: Seq<char>)
    ensures
        line.reverse().reverse() == line,
{
    assert(line.reverse().reverse() =~= line);
}

/// How `paste` works: the delimiter between lines, and whether lines are joined at all.
#[derive(Debug)]
pub struct StreamingPasteStage {
    pub delimiter: String,
    pub serial: bool,
}

/// `paste -s`: all lines as one, with a delimiter between them.
pub struct PasteSerialStream {
    pub delimiter: String,
    pub first: bool,
}

impl LineStage for PasteSerialStream {
    type L = (Seq<char>, bool);

    open spec fn line_model(&self) -> (Seq<char>, bool) {
        (self.delimiter@, self.first)
    }

    open spec fn line_next(m: (Seq<char>, bool), line: Seq<char>) -> (Seq<char>, bool) {
        (m.0, false)
    }

    open spec fn line_out(m: (Seq<char>, bool), line: Seq<char>) -> Seq<u8> {
        if m.1 {
            encode_utf8(line)
        } else {
            encode_utf8(m.0) + encode_utf8(line)
        }
    }

    open spec fn line_tail(m: (Seq<char>, bool)) -> Seq<u8> {
        seq![NEWLINE]
    }

    open spec fn line_done(m: (Seq<char>, bool)) -> bool {
        false
    }

    open spec fn line_safe(m: (Seq<char>, bool), line: Seq<char>) -> bool {
        true
    }

    open spec fn tail_safe(m: (Seq<char>, bool)) -> bool {
        true
    }

    open spec fn line_within(m: (Seq<char>, bool), n: nat) -> bool {
        true
    }

    proof fn lemma_line_within(m: (Seq<char>, bool), n: nat, k: nat) {
    }

    fn take_line(&mut self, line: String, out: &mut Vec<u8>, Ghost(n): Ghost<nat>) {
        let ghost before = out@;
        if !self.first {
            emit_str(out, self.delimiter.as_str());
        }
        emit_str(out, line.as_str());
        assert(out@ =~= before + Self::line_out(old(self).line_model(), line@));
        self.first = false;
    }

    fn take_last(&mut self, out: &mut Vec<u8>, Ghost(n): Ghost<nat>) {
        let ghost before = out@;
        out.push(NEWLINE);
        assert(out@ =~= before + seq![NEWLINE]);
        assert(Self::line_status(self.line_model()) == Self::line_status(
            old(self).line_model(),
        ));
    }

    open spec fn line_status(m: (Seq<char>, bool)) -> i32 {
        0
    }

    fn line_status_now(&self) -> (r: i32) {
        0
    }

    fn is_line_done(&self) -> (r: bool) {
        false
    }

    fn can_take_line(&self, line: &str) -> (r: bool) {
        true
    }

    fn can_take_last(&self, line: Option<&str>) -> (r: bool) {
        true
    }
}

/// `column`, and `paste` without joining: the input as it is, with a newline at its end.
pub struct ColumnStream {
    pub ended_with_newline: bool,
}

impl ByteStage for ColumnStream {
    type M = bool;

    open spec fn model(&self) -> bool {
        self.ended_with_newline
    }

    open spec fn next(m: bool, b: u8) -> bool {
        b == NEWLINE
    }

    open spec fn out(m: bool, b: u8) -> Seq<u8> {
        seq![b]
    }

    open spec fn tail(m: bool) -> Seq<u8> {
        if m {
            Seq::empty()
        } else {
            seq![NEWLINE]
        }
    }

    open spec fn done(m: bool) -> bool {
        false
    }

    open spec fn safe(m: bool, b: u8) -> bool {
        true
    }

    open spec fn end_safe(m: bool) -> bool {
        true
    }

    open spec fn within(m: bool, n: nat) -> bool {
        true
    }

    fn take_byte(&mut self, b: u8, out: &mut Vec<u8>, Ghost(n): Ghost<nat>) {
        let ghost before = out@;
        out.push(b);
        self.ended_with_newline = b == NEWLINE;
        assert(out@ =~= before + seq![b]);
    }

    fn take_end(&mut self, out: &mut Vec<u8>, Ghost(n): Ghost<nat>) {
        let ghost before = out@;
        if !self.ended_with_newline {
            out.push(NEWLINE);
            assert(out@ =~= before + seq![NEWLINE]);
        } else {
            assert(out@ =~= before + Seq::<u8>::empty());
        }
        assert(Self::status_of(self.model()) == Self::end_status(old(self).model()));
    }

    open spec fn status_of(m: bool) -> i32 {
        0
    }

    open spec fn end_status(m: bool) -> i32 {
        0
    }

    fn status(&self) -> (r: i32) {
        0
    }

    fn is_done(&self) -> (r: bool) {
        false
    }

    fn can_take(&self, b: u8) -> (r: bool) {
        true
    }

    fn can_end(&self) -> (r: bool) {
        true
    }
}

/// `column` hands its input on, and adds a newline where the last line has none.
pub proof fn law_column_keeps_input(input: Seq<u8>, m: bool)
    ensures
        run::<ColumnStream>(m, input) == if input.len() == 0 {
            ColumnStream::tail(m)
        } else if input.last() == NEWLINE {
            input
        } else {
            input.push(NEWLINE)
        },
    decreases input.len(),
{
    if input.len() > 0 {
        let rest = input.skip(1);
        law_column_keeps_input(rest, input[0] == NEWLINE);
        if rest.len() > 0 {
            assert(rest.last() == input.last());
        }
        assert(run::<ColumnStream>(m, input) =~= if input.last() == NEWLINE {
            input
        } else {
            input.push(NEWLINE)
        });
    }
}

/// How often `yes` writes its line at most.
pub const STREAMING_YES_MAX_LINES: usize = 65_536;

/// `yes`: one line, over and over, a given number of times.
pub struct YesStreamReader {
    line: Vec<u8>,
    offset: usize,
    remaining_lines: usize,
}

/// `n` copies of a byte string.
pub open spec fn copies(line: Seq<u8>, n: nat) -> Seq<u8>
    decreases n,
{
    if n == 0 {
        Seq::empty()
    } else {
        line + copies(line, (n - 1) as nat)
    }
}

impl YesStreamReader {
    #[verifier::type_invariant]
    spec fn in_range(self) -> bool {
        &&& self.line@.len() > 0 ==> self.offset < self.line@.len()
        &&& self.line@.len() == 0 ==> self.offset == 0
        &&& self.remaining_lines == 0 ==> self.offset == 0
    }

    /// All that is still to be read.
    pub closed spec fn remaining(self) -> Seq<u8> {
        if self.remaining_lines == 0 {
            Seq::empty()
        } else {
            self.line@.skip(self.offset as int) + copies(
                self.line@,
                (self.remaining_lines - 1) as nat,
            )
        }
    }

    /// A source of so many copies of a line.
    pub fn new(line: Vec<u8>, remaining_lines: usize) -> (r: YesStreamReader)
        ensures
            r.remaining() == copies(line@, remaining_lines as nat),
    {
        let r = YesStreamReader { line, offset: 0, remaining_lines };
        proof {
            assert(line@.skip(0) =~= line@);
        }
        r
    }

    /// Fills a buffer as far as there is something left.
    pub fn read(&mut self, buf: &mut [u8]) -> (r: usize)
        ensures
            final(buf)@.len() == old(buf)@.len(),
            r == if old(self).remaining().len() < old(buf)@.len() {
                old(self).remaining().len()
            } else {
                old(buf)@.len()
            },
            final(buf)@ == old(self).remaining().take(r as int) + old(buf)@.skip(r as int),
            final(self).remaining() == old(self).remaining().skip(r as int),
    {
        proof {
            use_type_invariant(&*self);
        }
        let ghost all = self.remaining();
        let ghost room = buf@;
        let total: usize = buf.len();
        assert(buf@ =~= all.take(0) + room.skip(0));
        assert(self.remaining() =~= all.skip(0));
        if self.line.len() == 0 {
            proof {
                lemma_copies_empty(self.line@, self.remaining_lines as nat);
                if self.remaining_lines > 0 {
                    lemma_copies_empty(self.line@, (self.remaining_lines - 1) as nat);
                }
                assert(all =~= Seq::empty());
            }
            return 0;
        }
        let mut written: usize = 0;
        while written < total && self.remaining_lines > 0
            invariant
                written <= total,
                total == room.len(),
                buf@.len() == total,
                self.line@.len() > 0,
                self.offset < self.line@.len(),
                self.remaining_lines == 0 ==> self.offset == 0,
                written <= all.len(),
                self.remaining() == all.skip(written as int),
                buf@ == all.take(written as int) + room.skip(written as int),
            decreases total - written,
        {
            let b: u8 = self.line[self.offset];
            let ghost now = self.remaining();
            assert(now[0] == b);
            assert(now.len() > 0);
            assert(all.skip(written as int).len() == all.len() - written);
            assert(all[written as int] == b);
            buf[written] = b;
            assert(buf@ =~= all.take(written + 1) + room.skip(written + 1));
            let ghost line = self.line@;
            let ghost off = self.offset;
            let ghost rem = self.remaining_lines;
            if self.line.len() - self.offset == 1 {
                self.offset = 0;
                self.remaining_lines = self.remaining_lines - 1;
                proof {
                    assert(line.skip(off as int).skip(1) =~= Seq::empty());
                    assert(line.skip(0) =~= line);
                    assert(self.remaining() =~= now.skip(1));
                }
            } else {
                self.offset = self.offset + 1;
                assert(self.remaining() =~= now.skip(1));
            }
            assert(all.skip(written as int).skip(1) =~= all.skip(written + 1));
            written = written + 1;
        }
        if self.remaining_lines == 0 {
            assert(all.skip(written as int).len() == 0);
        }
        written
    }
}

proof fn lemma_copies_empty(line: Seq<u8>, n: nat)
    requires
        line.len() == 0,
    ensures
        copies(line, n) == Seq::<u8>::empty(),
    decreases n,
{
    if n > 0 {
        lemma_copies_empty(line, (n - 1) as nat);
        assert(line + copies(line, (n - 1) as nat) =~= Seq::<u8>::empty());
    }
}

} // verus!
