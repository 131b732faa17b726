//! The stage `tr`.
use crate::stream::machine::{run, ByteStage};
use crate::stream::sed::{char_index, position_of};
use crate::stream::tr_utf8::{
    drained, law_bytes_may_be_cut_anywhere, law_text_gives_its_characters, leftover,
    lemma_nothing_more, streaming_tr_process_utf8_chunk,
};
use crate::text::{chars_of, from_utf8_lossy, lemma_utf8_concat, utf8_lossy};
use vstd::prelude::*;
use vstd::utf8::encode_utf8;

verus! {

/// How `tr` works: what it deletes, squeezes and translates.
#[derive(Debug)]
pub struct StreamingTrStage {
    pub delete: bool,
    pub squeeze: bool,
    pub complement: bool,
    pub from_chars: Vec<char>,
    pub to_chars: Vec<char>,
}

/// The ASCII characters with codes below `n` that are not in `from`, in order.
pub open spec fn ascii_without(from: Seq<char>, n: int) -> Seq<char>
    decreases n,
{
    if n <= 0 {
        Seq::empty()
    } else {
        let before = ascii_without(from, n - 1);
        if from.contains((n - 1) as char) {
            before
        } else {
            before.push((n - 1) as char)
        }
    }
}

/// The characters that are translated, in order: those of the first set, or the ASCII
/// characters that are not in it.
pub open spec fn tr_sources(stage: StreamingTrStage) -> Seq<char> {
    if stage.complement {
        ascii_without(stage.from_chars@, 128)
    } else {
        stage.from_chars@
    }
}

/// What a character is translated to: the one in its place, the last one for those beyond,
/// itself where it is not translated.
pub open spec fn tr_translated(stage: StreamingTrStage, c: char) -> char {
    let i = char_index(tr_sources(stage), c);
    if i >= tr_sources(stage).len() || stage.to_chars@.len() == 0 {
        c
    } else if i < stage.to_chars@.len() {
        stage.to_chars@[i]
    } else {
        stage.to_chars@.last()
    }
}

/// What is written for a character after `prev` was written; nothing where it is deleted or
/// squeezed.
pub open spec fn tr_char(stage: StreamingTrStage, prev: Option<char>, c: char) -> Option<char> {
    let from = stage.from_chars@;
    let to = stage.to_chars@;
    if stage.delete {
        if from.contains(c) != stage.complement || (stage.squeeze && to.contains(c) && prev == Some(
            c,
        )) {
            None
        } else {
            Some(c)
        }
    } else if stage.squeeze && to.len() == 0 {
        if from.contains(c) && prev == Some(c) {
            None
        } else {
            Some(c)
        }
    } else {
        let t = tr_translated(stage, c);
        if stage.squeeze && to.contains(t) && prev == Some(t) {
            None
        } else {
            Some(t)
        }
    }
}

/// What is written for characters, and the last character written.
pub open spec fn tr_chars(stage: StreamingTrStage, prev: Option<char>, chars: Seq<char>) -> (
    Seq<char>,
    Option<char>,
)
    decreases chars.len(),
{
    if chars.len() == 0 {
        (Seq::empty(), prev)
    } else {
        let (before, p) = tr_chars(stage, prev, chars.drop_last());
        match tr_char(stage, p, chars.last()) {
            Some(t) => (before.push(t), Some(t)),
            None => (before, p),
        }
    }
}

/// `tr`: characters deleted, squeezed or translated.
pub struct TrStream {
    pub stage: StreamingTrStage,
    /// The bytes of a character that is not complete.
    pub input_pending: Vec<u8>,
    /// The last character written.
    pub prev: Option<char>,
}

/// Whether a list holds a character.
pub fn holds(v: &Vec<char>, c: char) -> (r: bool)
    ensures
        r == v@.contains(c),
{
    match position_of(v, c) {
        Some(i) => {
            assert(v@[i as int] == c);
            true
        },
        None => false,
    }
}

impl TrStream {
    /// `tr` before its first byte.
    pub fn new(stage: StreamingTrStage) -> (r: TrStream)
        ensures
            r.model() == (stage, Seq::<u8>::empty(), None::<char>),
    {
        let r = TrStream { stage, input_pending: Vec::new(), prev: None };
        assert(r.input_pending@ =~= Seq::empty());
        r
    }

    fn translate(&self, c: char) -> (r: char)
        ensures
            r == tr_translated(self.stage, c),
    {
        let position = if self.stage.complement {
            let mut sources: Vec<char> = Vec::new();
            let mut i: u8 = 0;
            assert(sources@ =~= ascii_without(self.stage.from_chars@, 0));
            while i < 128
                invariant
                    i <= 128,
                    sources@ == ascii_without(self.stage.from_chars@, i as int),
                decreases 128 - i,
            {
                let candidate: char = i as char;
                if !holds(&self.stage.from_chars, candidate) {
                    sources.push(candidate);
                }
                i = i + 1;
            }
            position_of(&sources, c)
        } else {
            position_of(&self.stage.from_chars, c)
        };
        let to = &self.stage.to_chars;
        match position {
            Some(p) => {
                if to.len() == 0 {
                    c
                } else if p < to.len() {
                    to[p]
                } else {
                    to[to.len() - 1]
                }
            },
            None => c,
        }
    }

    /// What is written for a character.
    fn process_char(&self, c: char) -> (r: Option<char>)
        ensures
            r == tr_char(self.stage, self.prev, c),
    {
        if self.stage.delete {
            if holds(&self.stage.from_chars, c) != self.stage.complement {
                return None;
            }
            if self.stage.squeeze && holds(&self.stage.to_chars, c) && self.wrote(c) {
                return None;
            }
            return Some(c);
        }
        if self.stage.squeeze && self.stage.to_chars.len() == 0 {
            if holds(&self.stage.from_chars, c) && self.wrote(c) {
                return None;
            }
            return Some(c);
        }
        let t: char = self.translate(c);
        if self.stage.squeeze && holds(&self.stage.to_chars, t) && self.wrote(t) {
            return None;
        }
        Some(t)
    }

    /// Whether the last character written was `c`.
    fn wrote(&self, c: char) -> (r: bool)
        ensures
            r == (self.prev == Some(c)),
    {
        match self.prev {
            Some(p) => p == c,
            None => false,
        }
    }

    fn process_chars(&mut self, chars: &Vec<char>, out: &mut Vec<u8>)
        ensures
            final(out)@ == old(out)@ + encode_utf8(
                tr_chars(old(self).stage, old(self).prev, chars@).0,
            ),
            final(self).prev == tr_chars(old(self).stage, old(self).prev, chars@).1,
            final(self).stage == old(self).stage,
            final(self).input_pending == old(self).input_pending,
    {
        let mut text = String::new();
        let mut i: usize = 0;
        assert(chars@.take(0) =~= Seq::empty());
        assert(text@ =~= Seq::empty());
        while i < chars.len()
            invariant
                i <= chars@.len(),
                self.stage == old(self).stage,
                self.input_pending == old(self).input_pending,
                (text@, self.prev) == tr_chars(
                    old(self).stage,
                    old(self).prev,
                    chars@.take(i as int),
                ),
            decreases chars@.len() - i,
        {
            assert(chars@.take(i + 1).drop_last() =~= chars@.take(i as int));
            if let Some(t) = self.process_char(chars[i]) {
                text.push(t);
                self.prev = Some(t);
            }
            i = i + 1;
        }
        assert(chars@.take(i as int) =~= chars@);
        crate::stream::lines::emit_str(out, text.as_str());
    }
}

impl ByteStage for TrStream {
    type M = (StreamingTrStage, Seq<u8>, Option<char>);

    open spec fn model(&self) -> (StreamingTrStage, Seq<u8>, Option<char>) {
        (self.stage, self.input_pending@, self.prev)
    }

    open spec fn next(m: (StreamingTrStage, Seq<u8>, Option<char>), b: u8) -> (
        StreamingTrStage,
        Seq<u8>,
        Option<char>,
    ) {
        (m.0, leftover(m.1.push(b)), tr_chars(m.0, m.2, drained(m.1.push(b))).1)
    }

    open spec fn out(m: (StreamingTrStage, Seq<u8>, Option<char>), b: u8) -> Seq<u8> {
        encode_utf8(tr_chars(m.0, m.2, drained(m.1.push(b))).0)
    }

    open spec fn tail(m: (StreamingTrStage, Seq<u8>, Option<char>)) -> Seq<u8> {
        if m.1.len() == 0 {
            Seq::empty()
        } else {
            encode_utf8(tr_chars(m.0, m.2, utf8_lossy(m.1)).0)
        }
    }

    open spec fn done(m: (StreamingTrStage, Seq<u8>, Option<char>)) -> bool {
        false
    }

    open spec fn safe(m: (StreamingTrStage, Seq<u8>, Option<char>), b: u8) -> bool {
        true
    }

    open spec fn end_safe(m: (StreamingTrStage, Seq<u8>, Option<char>)) -> bool {
        true
    }

    open spec fn within(m: (StreamingTrStage, Seq<u8>, Option<char>), n: nat) -> bool {
        true
    }

    fn take_byte(&mut self, b: u8, out: &mut Vec<u8>, Ghost(n): Ghost<nat>) {
        self.input_pending.push(b);
        let chars = streaming_tr_process_utf8_chunk(&mut self.input_pending);
        self.process_chars(&chars, out);
    }

    fn take_end(&mut self, out: &mut Vec<u8>, Ghost(n): Ghost<nat>) {
        if self.input_pending.len() > 0 {
            let text = from_utf8_lossy(self.input_pending.as_slice());
            let chars = chars_of(text.as_str());
            self.process_chars(&chars, out);
        } else {
            assert(out@ + Seq::<u8>::empty() =~= out@);
        }
        assert(Self::status_of(self.model()) == Self::end_status(old(self).model()));
    }

    open spec fn status_of(m: (StreamingTrStage, Seq<u8>, Option<char>)) -> i32 {
        0
    }

    open spec fn end_status(m: (StreamingTrStage, Seq<u8>, Option<char>)) -> i32 {
        0
    }

    fn status(&self) -> (r: i32) {
        0
    }

    fn is_done(&self) -> (r: bool) {
        false
    }

    fn can_take(&self, b: u8) -> (r: bool) {
        true
    }

    fn can_end(&self) -> (r: bool) {
        true
    }
}

/// A squeezing `tr -s` never writes a character of its set twice in a row.
pub proof fn law_squeezed_never_repeats(
    stage: StreamingTrStage,
    prev: Option<char>,
    chars: Seq<char>,
    i: int,
)
    requires
        stage.squeeze,
        !stage.delete,
        stage.to_chars@.len() == 0,
        0 <= i,
        i + 1 < tr_chars(stage, prev, chars).0.len(),
        stage.from_chars@.contains(tr_chars(stage, prev, chars).0[i]),
    ensures
        tr_chars(stage, prev, chars).0[i] != tr_chars(stage, prev, chars).0[i + 1],
    decreases chars.len(),
{
    let (before, p) = tr_chars(stage, prev, chars.drop_last());
    lemma_tr_prev(stage, prev, chars.drop_last());
    if i + 1 < before.len() {
        law_squeezed_never_repeats(stage, prev, chars.drop_last(), i);
    }
}

proof fn lemma_tr_prev(stage: StreamingTrStage, prev: Option<char>, chars: Seq<char>)
    ensures
        ({
            let (out, p) = tr_chars(stage, prev, chars);
            out.len() > 0 ==> p == Some(out.last())
        }),
    decreases chars.len(),
{
    if chars.len() > 0 {
        lemma_tr_prev(stage, prev, chars.drop_last());
    }
}

/// A deleting `tr -d` writes no character of its set.
pub proof fn law_deleted_never_written(
    stage: StreamingTrStage,
    prev: Option<char>,
    chars: Seq<char>,
    i: int,
)
    requires
        stage.delete,
        !stage.complement,
        0 <= i < tr_chars(stage, prev, chars).0.len(),
    ensures
        !stage.from_chars@.contains(tr_chars(stage, prev, chars).0[i]),
    decreases chars.len(),
{
    let before = tr_chars(stage, prev, chars.drop_last()).0;
    if i < before.len() {
        law_deleted_never_written(stage, prev, chars.drop_last(), i);
    }
}

proof fn lemma_tr_split(
    stage: StreamingTrStage,
    prev: Option<char>,
    a: Seq<char>,
    b: Seq<char>,
)
    ensures
        ({
            let x = tr_chars(stage, prev, a);
            let y = tr_chars(stage, x.1, b);
            tr_chars(stage, prev, a + b) == (x.0 + y.0, y.1)
        }),
    decreases b.len(),
{
    let x = tr_chars(stage, prev, a);
    if b.len() == 0 {
        assert(a + b =~= a);
        assert(x.0 + Seq::<char>::empty() =~= x.0);
    } else {
        lemma_tr_split(stage, prev, a, b.drop_last());
        assert((a + b).drop_last() =~= a + b.drop_last());
        let y = tr_chars(stage, x.1, b.drop_last());
        if let Some(t) = tr_char(stage, y.1, b.last()) {
            assert((x.0 + y.0).push(t) =~= x.0 + y.0.push(t));
        }
    }
}

proof fn lemma_tr_run(
    stage: StreamingTrStage,
    pending: Seq<u8>,
    prev: Option<char>,
    input: Seq<u8>,
)
    requires
        drained(pending) == Seq::<char>::empty(),
        leftover(pending) == pending,
    ensures
        ({
            let q = pending + input;
            let x = tr_chars(stage, prev, drained(q));
            run::<TrStream>((stage, pending, prev), input) == encode_utf8(x.0)
                + <TrStream as ByteStage>::tail((stage, leftover(q), x.1))
        }),
    decreases input.len(),
{
    let m = (stage, pending, prev);
    let q = pending + input;
    let none = Seq::<char>::empty();
    if input.len() == 0 {
        assert(q =~= pending);
        let t = <TrStream as ByteStage>::tail(m);
        assert(encode_utf8(none) =~= Seq::<u8>::empty());
        assert(Seq::<u8>::empty() + t =~= t);
    } else {
        let b = input[0];
        let rest = input.skip(1);
        let p = pending.push(b);
        let left = leftover(p);
        let x = tr_chars(stage, prev, drained(p));
        lemma_nothing_more(p);
        lemma_tr_run(stage, left, x.1, rest);
        assert(q =~= p + rest);
        law_bytes_may_be_cut_anywhere(p, rest);
        lemma_tr_split(stage, prev, drained(p), drained(left + rest));
        let y = tr_chars(stage, x.1, drained(left + rest));
        lemma_utf8_concat(x.0, y.0);
        let t = <TrStream as ByteStage>::tail((stage, leftover(q), y.1));
        assert(encode_utf8(x.0) + (encode_utf8(y.0) + t) =~= (encode_utf8(x.0) + encode_utf8(y.0))
            + t);
    }
}

/// Of a text `tr` writes what it makes of its characters, however the bytes come.
pub proof fn law_tr_works_on_characters(stage: StreamingTrStage, s: Seq<char>)
    ensures
        run::<TrStream>((stage, Seq::empty(), None), encode_utf8(s)) == encode_utf8(
            tr_chars(stage, None, s).0,
        ),
{
    let none = Seq::<u8>::empty();
    assert(leftover(none) =~= none);
    lemma_tr_run(stage, none, None, encode_utf8(s));
    assert(none + encode_utf8(s) =~= encode_utf8(s));
    law_text_gives_its_characters(s);
    let all = encode_utf8(tr_chars(stage, None, s).0);
    assert(all + Seq::<u8>::empty() =~= all);
}

} // verus!
