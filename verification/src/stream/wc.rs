//! The stage `wc`.
use crate::ascii::{NEWLINE, SPACE};
use crate::stream::lines::{emit_line, line_bytes};
use crate::stream::machine::{run, state_after, ByteStage};
use crate::text::{dec, pad_left, padded, u64_to_dec};
use vstd::prelude::*;

verus! {

/// Which counts `wc` prints.
#[derive(Clone, Copy, Debug)]
pub struct StreamingWcFlags {
    pub lines: bool,
    pub words: bool,
    pub bytes: bool,
    pub max_line_length: bool,
}

/// `wc`: the counts of its input.
pub struct WcStream {
    pub flags: StreamingWcFlags,
    pub lines: usize,
    pub words: usize,
    pub bytes: usize,
    pub max_line_length: usize,
    pub current_line_length: usize,
    pub in_word: bool,
}

/// The counts so far.
pub struct WcModel {
    pub flags: StreamingWcFlags,
    pub lines: nat,
    pub words: nat,
    pub bytes: nat,
    pub max_line_length: nat,
    pub current_line_length: nat,
    pub in_word: bool,
}

/// Whether a byte separates words: space, tab, newline, form feed or carriage return.
pub open spec fn is_word_gap(b: u8) -> bool {
    b == SPACE || b == 0x09 || b == 0x0a || b == 0x0c || b == 0x0d
}

pub open spec fn max(a: nat, b: nat) -> nat {
    if a >= b {
        a
    } else {
        b
    }
}

/// A count in a column of seven characters, where it is wanted.
pub open spec fn wc_column(wanted: bool, n: nat) -> Seq<char> {
    if wanted {
        padded(dec(n), 7)
    } else {
        Seq::empty()
    }
}

/// The line of counts. A last line without a newline counts as a line.
pub open spec fn wc_summary(m: WcModel) -> Seq<char> {
    let open_line = m.current_line_length > 0;
    let lines = if open_line {
        m.lines + 1
    } else {
        m.lines
    };
    let longest = max(m.max_line_length, m.current_line_length);
    wc_column(m.flags.lines, lines) + wc_column(m.flags.words, m.words) + wc_column(
        m.flags.bytes,
        m.bytes,
    ) + wc_column(m.flags.max_line_length, longest)
}

impl WcStream {
    /// A count of nothing yet.
    pub fn new(flags: StreamingWcFlags) -> (r: WcStream)
        ensures
            r.model() == wc_start(flags),
            WcStream::within(r.model(), 0),
    {
        WcStream {
            flags,
            lines: 0,
            words: 0,
            bytes: 0,
            max_line_length: 0,
            current_line_length: 0,
            in_word: false,
        }
    }

    /// The line of counts.
    fn finalize_summary(&self) -> (r: String)
        requires
            self.current_line_length > 0 ==> self.lines < usize::MAX,
        ensures
            r@ == wc_summary(self.model()),
    {
        let mut lines: usize = self.lines;
        let mut longest: usize = self.max_line_length;
        if self.current_line_length > 0 {
            lines = lines + 1;
            if self.current_line_length > longest {
                longest = self.current_line_length;
            }
        }
        let mut s = String::new();
        if self.flags.lines {
            s.append(pad_left(u64_to_dec(lines as u64).as_str(), 7).as_str());
        }
        if self.flags.words {
            s.append(pad_left(u64_to_dec(self.words as u64).as_str(), 7).as_str());
        }
        if self.flags.bytes {
            s.append(pad_left(u64_to_dec(self.bytes as u64).as_str(), 7).as_str());
        }
        if self.flags.max_line_length {
            s.append(pad_left(u64_to_dec(longest as u64).as_str(), 7).as_str());
        }
        assert(s@ =~= wc_summary(self.model()));
        s
    }
}

/// The counts of an empty input.
pub open spec fn wc_start(flags: StreamingWcFlags) -> WcModel {
    WcModel {
        flags,
        lines: 0,
        words: 0,
        bytes: 0,
        max_line_length: 0,
        current_line_length: 0,
        in_word: false,
    }
}

impl ByteStage for WcStream {
    type M = WcModel;

    open spec fn model(&self) -> WcModel {
        WcModel {
            flags: self.flags,
            lines: self.lines as nat,
            words: self.words as nat,
            bytes: self.bytes as nat,
            max_line_length: self.max_line_length as nat,
            current_line_length: self.current_line_length as nat,
            in_word: self.in_word,
        }
    }

    open spec fn next(m: WcModel, b: u8) -> WcModel {
        WcModel {
            flags: m.flags,
            lines: if b == NEWLINE {
                m.lines + 1
            } else {
                m.lines
            },
            words: if !is_word_gap(b) && !m.in_word {
                m.words + 1
            } else {
                m.words
            },
            bytes: m.bytes + 1,
            max_line_length: if b == NEWLINE {
                max(m.max_line_length, m.current_line_length)
            } else {
                m.max_line_length
            },
            current_line_length: if b == NEWLINE {
                0
            } else {
                m.current_line_length + 1
            },
            in_word: !is_word_gap(b),
        }
    }

    open spec fn out(m: WcModel, b: u8) -> Seq<u8> {
        Seq::empty()
    }

    open spec fn tail(m: WcModel) -> Seq<u8> {
        line_bytes(wc_summary(m))
    }

    open spec fn done(m: WcModel) -> bool {
        false
    }

    open spec fn safe(m: WcModel, b: u8) -> bool {
        true
    }

    open spec fn end_safe(m: WcModel) -> bool {
        true
    }

    open spec fn within(m: WcModel, n: nat) -> bool {
        &&& m.lines + m.current_line_length <= n
        &&& m.words <= n
        &&& m.bytes <= n
        &&& m.max_line_length <= n
    }

    fn take_byte(&mut self, b: u8, out: &mut Vec<u8>, Ghost(n): Ghost<nat>) {
        self.bytes = self.bytes + 1;
        if b == SPACE || b == 0x09 || b == 0x0a || b == 0x0c || b == 0x0d {
            self.in_word = false;
        } else if !self.in_word {
            self.words = self.words + 1;
            self.in_word = true;
        }
        if b == NEWLINE {
            self.lines = self.lines + 1;
            if self.current_line_length > self.max_line_length {
                self.max_line_length = self.current_line_length;
            }
            self.current_line_length = 0;
        } else {
            self.current_line_length = self.current_line_length + 1;
        }
        assert(out@ + Seq::<u8>::empty() =~= out@);
    }

    fn take_end(&mut self, out: &mut Vec<u8>, Ghost(n): Ghost<nat>) {
        let summary = self.finalize_summary();
        emit_line(out, summary.as_str());
        assert(Self::status_of(self.model()) == Self::end_status(old(self).model()));
    }

    open spec fn status_of(m: WcModel) -> i32 {
        0
    }

    open spec fn end_status(m: WcModel) -> i32 {
        0
    }

    fn status(&self) -> (r: i32) {
        0
    }

    fn is_done(&self) -> (r: bool) {
        false
    }

    fn can_take(&self, b: u8) -> (r: bool) {
        true
    }

    fn can_end(&self) -> (r: bool) {
        true
    }
}

/// How many newlines an input has.
pub open spec fn newline_count(s: Seq<u8>) -> nat
    decreases s.len(),
{
    if s.len() == 0 {
        0
    } else {
        newline_count(s.drop_last()) + if s.last() == NEWLINE {
            1nat
        } else {
            0
        }
    }
}

/// How many words an input has: bytes that are no gap and stand first or after a gap.
pub open spec fn word_count(s: Seq<u8>) -> nat
    decreases s.len(),
{
    if s.len() == 0 {
        0
    } else {
        word_count(s.drop_last()) + if !is_word_gap(s.last()) && (s.len() == 1 || is_word_gap(
            s[s.len() - 2],
        )) {
            1nat
        } else {
            0
        }
    }
}

proof fn lemma_wc_counts(flags: StreamingWcFlags, s: Seq<u8>)
    ensures
        ({
            let m = state_after::<WcStream>(wc_start(flags), s);
            &&& m.flags == flags
            &&& m.bytes == s.len()
            &&& m.lines == newline_count(s)
            &&& m.words == word_count(s)
            &&& m.in_word == (s.len() > 0 && !is_word_gap(s.last()))
            &&& m.current_line_length > 0 <==> (s.len() > 0 && s.last() != NEWLINE)
        }),
    decreases s.len(),
{
    if s.len() > 0 {
        let t = s.drop_last();
        lemma_wc_counts(flags, t);
        assert(s =~= t + seq![s.last()]);
        crate::stream::machine::law_input_may_come_in_pieces::<WcStream>(wc_start(flags), t, seq![s.last()]);
        let m = state_after::<WcStream>(wc_start(flags), t);
        assert(seq![s.last()].skip(1) =~= Seq::empty());
        assert(state_after::<WcStream>(WcStream::next(m, s.last()), seq![s.last()].skip(1))
            == WcStream::next(m, s.last()));
        assert(state_after::<WcStream>(m, seq![s.last()]) == WcStream::next(m, s.last()));
    }
}

/// `wc` prints the counts of its whole input, however the input was cut into chunks: with
/// every count but the longest line wanted, its newlines, and one more for a last line without
/// one, its words and its bytes.
pub proof fn law_wc_counts(flags: StreamingWcFlags, s: Seq<u8>)
    requires
        flags.lines && flags.words && flags.bytes && !flags.max_line_length,
    ensures
        run::<WcStream>(wc_start(flags), s) == line_bytes(
            padded(
                dec(
                    newline_count(s) + if s.len() > 0 && s.last() != NEWLINE {
                        1nat
                    } else {
                        0
                    },
                ),
                7,
            ) + padded(dec(word_count(s)), 7) + padded(dec(s.len()), 7),
        ),
{
    lemma_wc_counts(flags, s);
    assert(s + Seq::<u8>::empty() =~= s);
    crate::stream::machine::law_input_may_come_in_pieces::<WcStream>(wc_start(flags), s, Seq::empty());
    let m = state_after::<WcStream>(wc_start(flags), s);
    lemma_wc_writes_nothing(wc_start(flags), s);
    assert(wc_summary(m) =~= padded(
        dec(
            newline_count(s) + if s.len() > 0 && s.last() != NEWLINE {
                1nat
            } else {
                0
            },
        ),
        7,
    ) + padded(dec(word_count(s)), 7) + padded(dec(s.len()), 7));
    assert(run::<WcStream>(wc_start(flags), s) =~= WcStream::tail(m));
}

proof fn lemma_wc_writes_nothing(m: WcModel, s: Seq<u8>)
    ensures
        crate::stream::machine::written::<WcStream>(m, s) == Seq::<u8>::empty(),
    decreases s.len(),
{
    if s.len() > 0 {
        lemma_wc_writes_nothing(WcStream::next(m, s[0]), s.skip(1));
        assert(crate::stream::machine::written::<WcStream>(m, s) =~= Seq::<u8>::empty());
    }
}

} // verus!
