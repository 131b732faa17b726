//! The stage `cut`.
use crate::ascii::NEWLINE;
use crate::stream::lines::LineStage;
use crate::text::{chars_of, contains_char, join, joined, split_char, split_on};
use crate::views::{lemma_strs_push, strs};
use vstd::prelude::*;
use vstd::utf8::encode_utf8;

verus! {

/// Positions from `start` to `end`, counted from one; a missing bound bounds nothing.
#[derive(Clone, Copy, Debug)]
pub struct StreamingCutRange {
    pub start: Option<usize>,
    pub end: Option<usize>,
}

/// What `cut` counts.
#[derive(Debug)]
pub enum StreamingCutMode {
    Fields(Vec<StreamingCutRange>),
    Chars(Vec<StreamingCutRange>),
    Bytes(Vec<StreamingCutRange>),
}

/// How `cut` works.
#[derive(Debug)]
pub struct StreamingCutStage {
    pub mode: StreamingCutMode,
    pub delim: char,
    pub complement: bool,
    pub only_delimited: bool,
    pub output_delim: String,
}

/// Whether a range holds the position.
pub open spec fn in_cut_range(r: StreamingCutRange, idx: int) -> bool {
    (match r.start {
        Some(s) => s as int,
        None => 1,
    }) <= idx && (match r.end {
        Some(e) => idx <= e,
        None => true,
    })
}

/// Whether one of the ranges holds the position.
pub open spec fn in_cut_ranges(ranges: Seq<StreamingCutRange>, idx: int) -> bool {
    exists|k: int| 0 <= k < ranges.len() && in_cut_range(#[trigger] ranges[k], idx)
}

/// The items whose position, counted from one, is in the ranges, or is not for `complement`.
pub open spec fn cut_items<T>(
    items: Seq<T>,
    ranges: Seq<StreamingCutRange>,
    complement: bool,
) -> Seq<T>
    decreases items.len(),
{
    if items.len() == 0 {
        items
    } else {
        let before = cut_items(items.drop_last(), ranges, complement);
        if in_cut_ranges(ranges, items.len() as int) != complement {
            before.push(items.last())
        } else {
            before
        }
    }
}

/// Whether one of the ranges holds the position.
pub fn streaming_cut_range_includes(ranges: &[StreamingCutRange], idx: usize) -> (r: bool)
    ensures
        r == in_cut_ranges(ranges@, idx as int),
{
    let mut i: usize = 0;
    while i < ranges.len()
        invariant
            i <= ranges@.len(),
            forall|k: int| 0 <= k < i ==> !in_cut_range(#[trigger] ranges@[k], idx as int),
        decreases ranges@.len() - i,
    {
        let range: StreamingCutRange = ranges[i];
        let after: bool = match range.start {
            Some(s) => idx >= s,
            None => idx >= 1,
        };
        let before: bool = match range.end {
            Some(e) => idx <= e,
            None => true,
        };
        if after && before {
            assert(in_cut_range(ranges@[i as int], idx as int));
            return true;
        }
        i = i + 1;
    }
    false
}

/// The bytes that `cut` keeps of a line; nothing at all where the line has no delimiter and only
/// delimited lines are wanted.
pub open spec fn cut_line(stage: StreamingCutStage, line: Seq<char>) -> Option<Seq<u8>> {
    match stage.mode {
        StreamingCutMode::Fields(ranges) => if stage.only_delimited && !line.contains(stage.delim) {
            None
        } else {
            Some(
                encode_utf8(
                    joined(
                        cut_items(split_on(line, stage.delim), ranges@, stage.complement),
                        stage.output_delim@,
                    ),
                ),
            )
        },
        StreamingCutMode::Chars(ranges) => Some(
            encode_utf8(cut_items(line, ranges@, stage.complement)),
        ),
        StreamingCutMode::Bytes(ranges) => Some(
            cut_items(encode_utf8(line), ranges@, stage.complement),
        ),
    }
}

fn cut_chars(line: &str, ranges: &Vec<StreamingCutRange>, complement: bool) -> (r: String)
    ensures
        r@ == cut_items(line@, ranges@, complement),
{
    let chars = chars_of(line);
    let mut s = String::new();
    let mut i: usize = 0;
    assert(line@.take(0) =~= Seq::empty());
    assert(s@ =~= cut_items(line@.take(0), ranges@, complement));
    while i < chars.len()
        invariant
            i <= chars@.len(),
            chars@ == line@,
            s@ == cut_items(line@.take(i as int), ranges@, complement),
        decreases chars@.len() - i,
    {
        assert(line@.take(i + 1).drop_last() =~= line@.take(i as int));
        if streaming_cut_range_includes(ranges.as_slice(), i + 1) != complement {
            s.push(chars[i]);
        }
        i = i + 1;
    }
    assert(line@.take(i as int) =~= line@);
    s
}

fn cut_bytes(bytes: &[u8], ranges: &Vec<StreamingCutRange>, complement: bool) -> (r: Vec<u8>)
    ensures
        r@ == cut_items(bytes@, ranges@, complement),
{
    let mut kept: Vec<u8> = Vec::new();
    let mut i: usize = 0;
    assert(bytes@.take(0) =~= Seq::empty());
    assert(kept@ =~= cut_items(bytes@.take(0), ranges@, complement));
    while i < bytes.len()
        invariant
            i <= bytes@.len(),
            kept@ == cut_items(bytes@.take(i as int), ranges@, complement),
        decreases bytes@.len() - i,
    {
        assert(bytes@.take(i + 1).drop_last() =~= bytes@.take(i as int));
        if streaming_cut_range_includes(ranges.as_slice(), i + 1) != complement {
            kept.push(bytes[i]);
        }
        i = i + 1;
    }
    assert(bytes@.take(i as int) =~= bytes@);
    kept
}

/// Applies `cut` to a line.
pub fn apply_streaming_cut(line: &str, stage: &StreamingCutStage) -> (r: Option<Vec<u8>>)
    ensures
        match r {
            Some(s) => cut_line(*stage, line@) == Some(s@),
            None => cut_line(*stage, line@) is None,
        },
{
    broadcast use lemma_strs_push;

    match &stage.mode {
        StreamingCutMode::Fields(ranges) => {
            if stage.only_delimited && !contains_char(line, stage.delim) {
                return None;
            }
            let parts = split_char(line, stage.delim);
            let ghost all = strs(parts@);
            let mut selected: Vec<String> = Vec::new();
            let mut i: usize = 0;
            assert(all.take(0) =~= Seq::empty());
            assert(strs(selected@) =~= cut_items(all.take(0), ranges@, stage.complement));
            while i < parts.len()
                invariant
                    i <= parts@.len(),
                    all == strs(parts@),
                    strs(selected@) == cut_items(all.take(i as int), ranges@, stage.complement),
                decreases parts@.len() - i,
            {
                assert(all.take(i + 1).drop_last() =~= all.take(i as int));
                assert(all[i as int] == parts@[i as int]@);
                if streaming_cut_range_includes(ranges.as_slice(), i + 1) != stage.complement {
                    selected.push(parts[i].clone());
                }
                i = i + 1;
            }
            assert(all.take(i as int) =~= all);
            Some(join(&selected, stage.output_delim.as_str()).as_str().as_bytes_vec())
        },
        StreamingCutMode::Chars(ranges) => Some(
            cut_chars(line, ranges, stage.complement).as_str().as_bytes_vec(),
        ),
        StreamingCutMode::Bytes(ranges) => Some(
            cut_bytes(line.as_bytes(), ranges, stage.complement),
        ),
    }
}

/// `cut`: parts of each line.
pub struct CutStream {
    pub stage: StreamingCutStage,
}

impl LineStage for CutStream {
    type L = StreamingCutStage;

    open spec fn line_model(&self) -> StreamingCutStage {
        self.stage
    }

    open spec fn line_next(m: StreamingCutStage, line: Seq<char>) -> StreamingCutStage {
        m
    }

    open spec fn line_out(m: StreamingCutStage, line: Seq<char>) -> Seq<u8> {
        match cut_line(m, line) {
            Some(s) => s.push(NEWLINE),
            None => Seq::empty(),
        }
    }

    open spec fn line_tail(m: StreamingCutStage) -> Seq<u8> {
        Seq::empty()
    }

    open spec fn line_done(m: StreamingCutStage) -> bool {
        false
    }

    open spec fn line_safe(m: StreamingCutStage, line: Seq<char>) -> bool {
        true
    }

    open spec fn tail_safe(m: StreamingCutStage) -> bool {
        true
    }

    open spec fn line_within(m: StreamingCutStage, n: nat) -> bool {
        true
    }

    proof fn lemma_line_within(m: StreamingCutStage, n: nat, k: nat) {
    }

    fn take_line(&mut self, line: String, out: &mut Vec<u8>, Ghost(n): Ghost<nat>) {
        match apply_streaming_cut(line.as_str(), &self.stage) {
            Some(bytes) => {
                out.extend_from_slice(bytes.as_slice());
                out.push(NEWLINE);
                assert(out@ =~= old(out)@ + bytes@.push(NEWLINE));
            },
            None => {
                assert(out@ + Seq::<u8>::empty() =~= out@);
            },
        }
    }

    fn take_last(&mut self, out: &mut Vec<u8>, Ghost(n): Ghost<nat>) {
        assert(out@ + Seq::<u8>::empty() =~= out@);
        assert(Self::line_status(self.line_model()) == Self::line_status(
            old(self).line_model(),
        ));
    }

    open spec fn line_status(m: StreamingCutStage) -> i32 {
        0
    }

    fn line_status_now(&self) -> (r: i32) {
        0
    }

    fn is_line_done(&self) -> (r: bool) {
        false
    }

    fn can_take_line(&self, line: &str) -> (r: bool) {
        true
    }

    fn can_take_last(&self, line: Option<&str>) -> (r: bool) {
        true
    }
}

/// A selection and its complement share the items between them: together they have as many as
/// the line.
pub proof fn law_cut_complement<T>(items: Seq<T>, ranges: Seq<StreamingCutRange>)
    ensures
        cut_items(items, ranges, true).len() + cut_items(items, ranges, false).len() == items.len(),
    decreases items.len(),
{
    if items.len() > 0 {
        law_cut_complement(items.drop_last(), ranges);
    }
}

} // verus!
