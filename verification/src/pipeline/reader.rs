//! A stage as a reader: input goes in, output comes out.
use crate::pipeline::stage::StreamingPipelineStage;
use crate::stream::bat::{bat_header, emit_header, BatStream};
use crate::stream::cut::CutStream;
use crate::stream::ends::{tail_start, HeadStream, TailStream};
use crate::stream::grep::{grep_start, GrepStream};
use crate::stream::lines::LineFeed;
use crate::stream::machine::{
    accepts, run, state_after, status_so_far, ByteStage, Machine, Pull,
};
use crate::stream::sed::{sed_start, SedStream};
use crate::stream::sed_parse::instructions_view;
use crate::stream::simple::{ColumnStream, PasteSerialStream, RevStream};
use crate::stream::tr::TrStream;
use crate::stream::uniq::{UniqModel, UniqStream};
use crate::stream::wc::{wc_start, WcStream};
use crate::views::strs;
use vstd::prelude::*;

verus! {

/// `cat` inside a pipeline: its input as it is.
pub struct CatStream;

impl ByteStage for CatStream {
    type M = ();

    open spec fn model(&self) -> () {
        ()
    }

    open spec fn next(m: (), b: u8) -> () {
        ()
    }

    open spec fn out(m: (), b: u8) -> Seq<u8> {
        seq![b]
    }

    open spec fn tail(m: ()) -> Seq<u8> {
        Seq::empty()
    }

    open spec fn done(m: ()) -> bool {
        false
    }

    open spec fn safe(m: (), b: u8) -> bool {
        true
    }

    open spec fn end_safe(m: ()) -> bool {
        true
    }

    open spec fn within(m: (), n: nat) -> bool {
        true
    }

    fn take_byte(&mut self, b: u8, out: &mut Vec<u8>, Ghost(n): Ghost<nat>) {
        let ghost before = out@;
        out.push(b);
        assert(out@ =~= before + seq![b]);
    }

    fn take_end(&mut self, out: &mut Vec<u8>, Ghost(n): Ghost<nat>) {
        assert(out@ + Seq::<u8>::empty() =~= out@);
        assert(Self::status_of(self.model()) == Self::end_status(old(self).model()));
    }

    open spec fn status_of(m: ()) -> i32 {
        0
    }

    open spec fn end_status(m: ()) -> i32 {
        0
    }

    fn status(&self) -> (r: i32) {
        0
    }

    fn is_done(&self) -> (r: bool) {
        false
    }

    fn can_take(&self, b: u8) -> (r: bool) {
        true
    }

    fn can_end(&self) -> (r: bool) {
        true
    }
}

/// `cat` hands its input on unchanged.
pub proof fn law_cat_is_identity(input: Seq<u8>)
    ensures
        run::<CatStream>((), input) == input,
    decreases input.len(),
{
    if input.len() > 0 {
        law_cat_is_identity(input.skip(1));
    }
    assert(run::<CatStream>((), input) =~= input);
}

/// A stage as a reader.
pub enum StageReader {
    Cat(Machine<CatStream>),
    Head(Machine<HeadStream>),
    Tail(Machine<TailStream>),
    Bat(Machine<LineFeed<BatStream>>),
    Sed(Machine<LineFeed<SedStream>>),
    Column(Machine<ColumnStream>),
    PasteSerial(Machine<LineFeed<PasteSerialStream>>),
    Grep(Machine<LineFeed<GrepStream>>),
    Uniq(Machine<LineFeed<UniqStream>>),
    Rev(Machine<LineFeed<RevStream>>),
    Cut(Machine<LineFeed<CutStream>>),
    Tr(Machine<TrStream>),
    Wc(Machine<WcStream>),
}

/// All that a stage writes for an input. A stage that is no filter writes nothing.
pub open spec fn stage_output(stage: StreamingPipelineStage, input: Seq<u8>) -> Seq<u8> {
    match stage {
        StreamingPipelineStage::Cat => run::<CatStream>((), input),
        StreamingPipelineStage::Head(mode) => run::<HeadStream>(mode, input),
        StreamingPipelineStage::Tail(mode) => run::<TailStream>(tail_start(mode), input),
        StreamingPipelineStage::Bat(s) => bat_header(s.show_header) + run::<LineFeed<BatStream>>(
            (Seq::empty(), (s, 0nat)),
            input,
        ),
        StreamingPipelineStage::Sed(s) => run::<LineFeed<SedStream>>(
            (Seq::empty(), sed_start(instructions_view(s.instructions@), s.suppress_print)),
            input,
        ),
        StreamingPipelineStage::Paste(s) => if s.serial {
            run::<LineFeed<PasteSerialStream>>((Seq::empty(), (s.delimiter@, true)), input)
        } else {
            run::<ColumnStream>(true, input)
        },
        StreamingPipelineStage::Column => run::<ColumnStream>(true, input),
        StreamingPipelineStage::Grep(s) => run::<LineFeed<GrepStream>>(
            (Seq::empty(), grep_start(s.flags, strs(s.patterns@))),
            input,
        ),
        StreamingPipelineStage::Uniq(f) => run::<LineFeed<UniqStream>>(
            (Seq::empty(), UniqModel { flags: f, prev: None, count: 0 }),
            input,
        ),
        StreamingPipelineStage::Rev => run::<LineFeed<RevStream>>((Seq::empty(), ()), input),
        StreamingPipelineStage::Cut(s) => run::<LineFeed<CutStream>>((Seq::empty(), s), input),
        StreamingPipelineStage::Tr(s) => run::<TrStream>((s, Seq::empty(), None), input),
        StreamingPipelineStage::Wc(f) => run::<WcStream>(wc_start(f), input),
        _ => Seq::empty(),
    }
}

/// Whether a stage can take an input, to its end. All stages can take inputs of any length that is
/// a `usize`; some cannot take every byte.
pub open spec fn stage_takes(stage: StreamingPipelineStage, input: Seq<u8>) -> bool {
    match stage {
        StreamingPipelineStage::Cat => fits::<CatStream>((), input),
        StreamingPipelineStage::Head(mode) => fits::<HeadStream>(mode, input),
        StreamingPipelineStage::Tail(mode) => fits::<TailStream>(tail_start(mode), input),
        StreamingPipelineStage::Bat(s) => fits::<LineFeed<BatStream>>(
            (Seq::empty(), (s, 0nat)),
            input,
        ),
        StreamingPipelineStage::Sed(s) => fits::<LineFeed<SedStream>>(
            (Seq::empty(), sed_start(instructions_view(s.instructions@), s.suppress_print)),
            input,
        ),
        StreamingPipelineStage::Paste(s) => if s.serial {
            fits::<LineFeed<PasteSerialStream>>((Seq::empty(), (s.delimiter@, true)), input)
        } else {
            fits::<ColumnStream>(true, input)
        },
        StreamingPipelineStage::Column => fits::<ColumnStream>(true, input),
        StreamingPipelineStage::Grep(s) => fits::<LineFeed<GrepStream>>(
            (Seq::empty(), grep_start(s.flags, strs(s.patterns@))),
            input,
        ),
        StreamingPipelineStage::Uniq(f) => fits::<LineFeed<UniqStream>>(
            (Seq::empty(), UniqModel { flags: f, prev: None, count: 0 }),
            input,
        ),
        StreamingPipelineStage::Rev => fits::<LineFeed<RevStream>>((Seq::empty(), ()), input),
        StreamingPipelineStage::Cut(s) => fits::<LineFeed<CutStream>>((Seq::empty(), s), input),
        StreamingPipelineStage::Tr(s) => fits::<TrStream>((s, Seq::empty(), None), input),
        StreamingPipelineStage::Wc(f) => fits::<WcStream>(wc_start(f), input),
        _ => false,
    }
}

/// The exit status of a stage for an input: that of `grep` says whether it found something, the
/// others succeed.
pub open spec fn stage_status(stage: StreamingPipelineStage, input: Seq<u8>) -> i32 {
    match stage {
        StreamingPipelineStage::Grep(s) => <LineFeed<GrepStream> as ByteStage>::end_status(
            state_after::<LineFeed<GrepStream>>(
                (Seq::empty(), grep_start(s.flags, strs(s.patterns@))),
                input,
            ),
        ),
        _ => 0,
    }
}

/// The exit status of a stage after an input that does not end yet: that of `grep` says whether it
/// has found something, the others succeed.
pub open spec fn stage_status_so_far(stage: StreamingPipelineStage, input: Seq<u8>) -> i32 {
    match stage {
        StreamingPipelineStage::Grep(s) => status_so_far::<LineFeed<GrepStream>>(
            (Seq::empty(), grep_start(s.flags, strs(s.patterns@))),
            input,
        ),
        _ => 0,
    }
}

/// Whether a stage that starts so can take an input, to its end.
pub open spec fn fits<S: ByteStage>(m: S::M, input: Seq<u8>) -> bool {
    S::done(m) || accepts::<S>(m, 0, input)
}

/// Whether a stage turns input into output by itself.
pub open spec fn is_filter(stage: StreamingPipelineStage) -> bool {
    !(stage is Tee || stage is Literal || stage is File || stage is Yes || stage is BufferedCommand)
}

impl StageReader {
    /// Whether the reader's parts fit together.
    pub open spec fn wf(&self) -> bool {
        match self {
            StageReader::Cat(machine) => machine.wf(),
            StageReader::Head(machine) => machine.wf(),
            StageReader::Tail(machine) => machine.wf(),
            StageReader::Bat(machine) => machine.wf(),
            StageReader::Sed(machine) => machine.wf(),
            StageReader::Column(machine) => machine.wf(),
            StageReader::PasteSerial(machine) => machine.wf(),
            StageReader::Grep(machine) => machine.wf(),
            StageReader::Uniq(machine) => machine.wf(),
            StageReader::Rev(machine) => machine.wf(),
            StageReader::Cut(machine) => machine.wf(),
            StageReader::Tr(machine) => machine.wf(),
            StageReader::Wc(machine) => machine.wf(),
        }
    }

    /// All output that is still to be taken if `rest` is the rest of the input.
    pub open spec fn future(&self, rest: Seq<u8>) -> Seq<u8> {
        match self {
            StageReader::Cat(machine) => machine.future(rest),
            StageReader::Head(machine) => machine.future(rest),
            StageReader::Tail(machine) => machine.future(rest),
            StageReader::Bat(machine) => machine.future(rest),
            StageReader::Sed(machine) => machine.future(rest),
            StageReader::Column(machine) => machine.future(rest),
            StageReader::PasteSerial(machine) => machine.future(rest),
            StageReader::Grep(machine) => machine.future(rest),
            StageReader::Uniq(machine) => machine.future(rest),
            StageReader::Rev(machine) => machine.future(rest),
            StageReader::Cut(machine) => machine.future(rest),
            StageReader::Tr(machine) => machine.future(rest),
            StageReader::Wc(machine) => machine.future(rest),
        }
    }

    /// Whether the stage has ended.
    pub open spec fn ended(&self) -> bool {
        match self {
            StageReader::Cat(machine) => machine.ended(),
            StageReader::Head(machine) => machine.ended(),
            StageReader::Tail(machine) => machine.ended(),
            StageReader::Bat(machine) => machine.ended(),
            StageReader::Sed(machine) => machine.ended(),
            StageReader::Column(machine) => machine.ended(),
            StageReader::PasteSerial(machine) => machine.ended(),
            StageReader::Grep(machine) => machine.ended(),
            StageReader::Uniq(machine) => machine.ended(),
            StageReader::Rev(machine) => machine.ended(),
            StageReader::Cut(machine) => machine.ended(),
            StageReader::Tr(machine) => machine.ended(),
            StageReader::Wc(machine) => machine.ended(),
        }
    }

    /// How many bytes were fed.
    pub open spec fn fed(&self) -> nat {
        match self {
            StageReader::Cat(machine) => machine.fed(),
            StageReader::Head(machine) => machine.fed(),
            StageReader::Tail(machine) => machine.fed(),
            StageReader::Bat(machine) => machine.fed(),
            StageReader::Sed(machine) => machine.fed(),
            StageReader::Column(machine) => machine.fed(),
            StageReader::PasteSerial(machine) => machine.fed(),
            StageReader::Grep(machine) => machine.fed(),
            StageReader::Uniq(machine) => machine.fed(),
            StageReader::Rev(machine) => machine.fed(),
            StageReader::Cut(machine) => machine.fed(),
            StageReader::Tr(machine) => machine.fed(),
            StageReader::Wc(machine) => machine.fed(),
        }
    }

    /// The output that was made and not taken yet.
    pub open spec fn pending(&self) -> Seq<u8> {
        match self {
            StageReader::Cat(machine) => machine.pending(),
            StageReader::Head(machine) => machine.pending(),
            StageReader::Tail(machine) => machine.pending(),
            StageReader::Bat(machine) => machine.pending(),
            StageReader::Sed(machine) => machine.pending(),
            StageReader::Column(machine) => machine.pending(),
            StageReader::PasteSerial(machine) => machine.pending(),
            StageReader::Grep(machine) => machine.pending(),
            StageReader::Uniq(machine) => machine.pending(),
            StageReader::Rev(machine) => machine.pending(),
            StageReader::Cut(machine) => machine.pending(),
            StageReader::Tr(machine) => machine.pending(),
            StageReader::Wc(machine) => machine.pending(),
        }
    }

    /// Whether the stage can take the byte.
    pub open spec fn safe(&self, b: u8) -> bool {
        match self {
            StageReader::Cat(machine) => machine.ended() || <CatStream as ByteStage>::safe(machine.state(), b),
            StageReader::Head(machine) => machine.ended() || <HeadStream as ByteStage>::safe(machine.state(), b),
            StageReader::Tail(machine) => machine.ended() || <TailStream as ByteStage>::safe(machine.state(), b),
            StageReader::Bat(machine) => machine.ended() || <LineFeed<BatStream> as ByteStage>::safe(machine.state(), b),
            StageReader::Sed(machine) => machine.ended() || <LineFeed<SedStream> as ByteStage>::safe(machine.state(), b),
            StageReader::Column(machine) => machine.ended() || <ColumnStream as ByteStage>::safe(machine.state(), b),
            StageReader::PasteSerial(machine) => machine.ended() || <LineFeed<PasteSerialStream> as ByteStage>::safe(machine.state(), b),
            StageReader::Grep(machine) => machine.ended() || <LineFeed<GrepStream> as ByteStage>::safe(machine.state(), b),
            StageReader::Uniq(machine) => machine.ended() || <LineFeed<UniqStream> as ByteStage>::safe(machine.state(), b),
            StageReader::Rev(machine) => machine.ended() || <LineFeed<RevStream> as ByteStage>::safe(machine.state(), b),
            StageReader::Cut(machine) => machine.ended() || <LineFeed<CutStream> as ByteStage>::safe(machine.state(), b),
            StageReader::Tr(machine) => machine.ended() || <TrStream as ByteStage>::safe(machine.state(), b),
            StageReader::Wc(machine) => machine.ended() || <WcStream as ByteStage>::safe(machine.state(), b),
        }
    }

    /// Whether the stage can take the end of its input.
    pub open spec fn end_safe(&self) -> bool {
        match self {
            StageReader::Cat(machine) => machine.ended() || <CatStream as ByteStage>::end_safe(machine.state()),
            StageReader::Head(machine) => machine.ended() || <HeadStream as ByteStage>::end_safe(machine.state()),
            StageReader::Tail(machine) => machine.ended() || <TailStream as ByteStage>::end_safe(machine.state()),
            StageReader::Bat(machine) => machine.ended() || <LineFeed<BatStream> as ByteStage>::end_safe(machine.state()),
            StageReader::Sed(machine) => machine.ended() || <LineFeed<SedStream> as ByteStage>::end_safe(machine.state()),
            StageReader::Column(machine) => machine.ended() || <ColumnStream as ByteStage>::end_safe(machine.state()),
            StageReader::PasteSerial(machine) => machine.ended() || <LineFeed<PasteSerialStream> as ByteStage>::end_safe(machine.state()),
            StageReader::Grep(machine) => machine.ended() || <LineFeed<GrepStream> as ByteStage>::end_safe(machine.state()),
            StageReader::Uniq(machine) => machine.ended() || <LineFeed<UniqStream> as ByteStage>::end_safe(machine.state()),
            StageReader::Rev(machine) => machine.ended() || <LineFeed<RevStream> as ByteStage>::end_safe(machine.state()),
            StageReader::Cut(machine) => machine.ended() || <LineFeed<CutStream> as ByteStage>::end_safe(machine.state()),
            StageReader::Tr(machine) => machine.ended() || <TrStream as ByteStage>::end_safe(machine.state()),
            StageReader::Wc(machine) => machine.ended() || <WcStream as ByteStage>::end_safe(machine.state()),
        }
    }

    /// Whether the stage can take `rest` as the rest of its input.
    pub open spec fn takes(&self, rest: Seq<u8>) -> bool {
        match self {
            StageReader::Cat(machine) => machine.takes(rest),
            StageReader::Head(machine) => machine.takes(rest),
            StageReader::Tail(machine) => machine.takes(rest),
            StageReader::Bat(machine) => machine.takes(rest),
            StageReader::Sed(machine) => machine.takes(rest),
            StageReader::Column(machine) => machine.takes(rest),
            StageReader::PasteSerial(machine) => machine.takes(rest),
            StageReader::Grep(machine) => machine.takes(rest),
            StageReader::Uniq(machine) => machine.takes(rest),
            StageReader::Rev(machine) => machine.takes(rest),
            StageReader::Cut(machine) => machine.takes(rest),
            StageReader::Tr(machine) => machine.takes(rest),
            StageReader::Wc(machine) => machine.takes(rest),
        }
    }

    /// The exit status in the end if `rest` is the rest of the input.
    pub open spec fn result(&self, rest: Seq<u8>) -> i32 {
        match self {
            StageReader::Cat(machine) => machine.result(rest),
            StageReader::Head(machine) => machine.result(rest),
            StageReader::Tail(machine) => machine.result(rest),
            StageReader::Bat(machine) => machine.result(rest),
            StageReader::Sed(machine) => machine.result(rest),
            StageReader::Column(machine) => machine.result(rest),
            StageReader::PasteSerial(machine) => machine.result(rest),
            StageReader::Grep(machine) => machine.result(rest),
            StageReader::Uniq(machine) => machine.result(rest),
            StageReader::Rev(machine) => machine.result(rest),
            StageReader::Cut(machine) => machine.result(rest),
            StageReader::Tr(machine) => machine.result(rest),
            StageReader::Wc(machine) => machine.result(rest),
        }
    }

    /// The exit status after `rest` if the input does not end there.
    pub open spec fn so_far(&self, rest: Seq<u8>) -> i32 {
        match self {
            StageReader::Cat(machine) => machine.so_far(rest),
            StageReader::Head(machine) => machine.so_far(rest),
            StageReader::Tail(machine) => machine.so_far(rest),
            StageReader::Bat(machine) => machine.so_far(rest),
            StageReader::Sed(machine) => machine.so_far(rest),
            StageReader::Column(machine) => machine.so_far(rest),
            StageReader::PasteSerial(machine) => machine.so_far(rest),
            StageReader::Grep(machine) => machine.so_far(rest),
            StageReader::Uniq(machine) => machine.so_far(rest),
            StageReader::Rev(machine) => machine.so_far(rest),
            StageReader::Cut(machine) => machine.so_far(rest),
            StageReader::Tr(machine) => machine.so_far(rest),
            StageReader::Wc(machine) => machine.so_far(rest),
        }
    }

    /// After nothing the exit status is what it is.
    pub proof fn lemma_so_far(&self)
        requires
            self.wf(),
        ensures
            self.so_far(Seq::empty()) == self.status_now(),
    {
        match self {
            StageReader::Cat(machine) => machine.lemma_so_far(),
            StageReader::Head(machine) => machine.lemma_so_far(),
            StageReader::Tail(machine) => machine.lemma_so_far(),
            StageReader::Bat(machine) => machine.lemma_so_far(),
            StageReader::Sed(machine) => machine.lemma_so_far(),
            StageReader::Column(machine) => machine.lemma_so_far(),
            StageReader::PasteSerial(machine) => machine.lemma_so_far(),
            StageReader::Grep(machine) => machine.lemma_so_far(),
            StageReader::Uniq(machine) => machine.lemma_so_far(),
            StageReader::Rev(machine) => machine.lemma_so_far(),
            StageReader::Cut(machine) => machine.lemma_so_far(),
            StageReader::Tr(machine) => machine.lemma_so_far(),
            StageReader::Wc(machine) => machine.lemma_so_far(),
        }
    }

    /// The exit status so far.
    pub open spec fn status_now(&self) -> i32 {
        match self {
            StageReader::Cat(machine) => <CatStream as ByteStage>::status_of(machine.state()),
            StageReader::Head(machine) => <HeadStream as ByteStage>::status_of(machine.state()),
            StageReader::Tail(machine) => <TailStream as ByteStage>::status_of(machine.state()),
            StageReader::Bat(machine) => <LineFeed<BatStream> as ByteStage>::status_of(machine.state()),
            StageReader::Sed(machine) => <LineFeed<SedStream> as ByteStage>::status_of(machine.state()),
            StageReader::Column(machine) => <ColumnStream as ByteStage>::status_of(machine.state()),
            StageReader::PasteSerial(machine) => <LineFeed<PasteSerialStream> as ByteStage>::status_of(machine.state()),
            StageReader::Grep(machine) => <LineFeed<GrepStream> as ByteStage>::status_of(machine.state()),
            StageReader::Uniq(machine) => <LineFeed<UniqStream> as ByteStage>::status_of(machine.state()),
            StageReader::Rev(machine) => <LineFeed<RevStream> as ByteStage>::status_of(machine.state()),
            StageReader::Cut(machine) => <LineFeed<CutStream> as ByteStage>::status_of(machine.state()),
            StageReader::Tr(machine) => <TrStream as ByteStage>::status_of(machine.state()),
            StageReader::Wc(machine) => <WcStream as ByteStage>::status_of(machine.state()),
        }
    }

    /// The exit status so far.
    pub fn status(&self) -> (r: i32)
        ensures
            r == self.status_now(),
    {
        match self {
            StageReader::Cat(machine) => machine.status(),
            StageReader::Head(machine) => machine.status(),
            StageReader::Tail(machine) => machine.status(),
            StageReader::Bat(machine) => machine.status(),
            StageReader::Sed(machine) => machine.status(),
            StageReader::Column(machine) => machine.status(),
            StageReader::PasteSerial(machine) => machine.status(),
            StageReader::Grep(machine) => machine.status(),
            StageReader::Uniq(machine) => machine.status(),
            StageReader::Rev(machine) => machine.status(),
            StageReader::Cut(machine) => machine.status(),
            StageReader::Tr(machine) => machine.status(),
            StageReader::Wc(machine) => machine.status(),
        }
    }

    /// Whether the stage has ended.
    pub fn is_ended(&self) -> (r: bool)
        ensures
            r == self.ended(),
    {
        match self {
            StageReader::Cat(machine) => machine.is_ended(),
            StageReader::Head(machine) => machine.is_ended(),
            StageReader::Tail(machine) => machine.is_ended(),
            StageReader::Bat(machine) => machine.is_ended(),
            StageReader::Sed(machine) => machine.is_ended(),
            StageReader::Column(machine) => machine.is_ended(),
            StageReader::PasteSerial(machine) => machine.is_ended(),
            StageReader::Grep(machine) => machine.is_ended(),
            StageReader::Uniq(machine) => machine.is_ended(),
            StageReader::Rev(machine) => machine.is_ended(),
            StageReader::Cut(machine) => machine.is_ended(),
            StageReader::Tr(machine) => machine.is_ended(),
            StageReader::Wc(machine) => machine.is_ended(),
        }
    }

    /// Whether so many more bytes can be counted.
    pub fn has_room(&self, n: usize) -> (r: bool)
        ensures
            r == (self.fed() + n <= usize::MAX),
            forall|rest: Seq<u8>| #[trigger]
                self.takes(rest) && !self.ended() && rest.len() >= n ==> r,
    {
        match self {
            StageReader::Cat(machine) => machine.has_room(n),
            StageReader::Head(machine) => machine.has_room(n),
            StageReader::Tail(machine) => machine.has_room(n),
            StageReader::Bat(machine) => machine.has_room(n),
            StageReader::Sed(machine) => machine.has_room(n),
            StageReader::Column(machine) => machine.has_room(n),
            StageReader::PasteSerial(machine) => machine.has_room(n),
            StageReader::Grep(machine) => machine.has_room(n),
            StageReader::Uniq(machine) => machine.has_room(n),
            StageReader::Rev(machine) => machine.has_room(n),
            StageReader::Cut(machine) => machine.has_room(n),
            StageReader::Tr(machine) => machine.has_room(n),
            StageReader::Wc(machine) => machine.has_room(n),
        }
    }

    /// Whether the stage can take the byte.
    pub fn can_take(&self, b: u8) -> (r: bool)
        ensures
            r == self.safe(b),
            self.wf() ==> forall|rest: Seq<u8>| #[trigger] self.takes(seq![b] + rest) ==> r,
    {
        match self {
            StageReader::Cat(machine) => machine.can_take(b),
            StageReader::Head(machine) => machine.can_take(b),
            StageReader::Tail(machine) => machine.can_take(b),
            StageReader::Bat(machine) => machine.can_take(b),
            StageReader::Sed(machine) => machine.can_take(b),
            StageReader::Column(machine) => machine.can_take(b),
            StageReader::PasteSerial(machine) => machine.can_take(b),
            StageReader::Grep(machine) => machine.can_take(b),
            StageReader::Uniq(machine) => machine.can_take(b),
            StageReader::Rev(machine) => machine.can_take(b),
            StageReader::Cut(machine) => machine.can_take(b),
            StageReader::Tr(machine) => machine.can_take(b),
            StageReader::Wc(machine) => machine.can_take(b),
        }
    }

    /// Whether the stage can take the end of its input.
    pub fn can_close(&self) -> (r: bool)
        ensures
            r == self.end_safe(),
            self.wf() && self.takes(Seq::empty()) ==> r,
    {
        match self {
            StageReader::Cat(machine) => machine.can_close(),
            StageReader::Head(machine) => machine.can_close(),
            StageReader::Tail(machine) => machine.can_close(),
            StageReader::Bat(machine) => machine.can_close(),
            StageReader::Sed(machine) => machine.can_close(),
            StageReader::Column(machine) => machine.can_close(),
            StageReader::PasteSerial(machine) => machine.can_close(),
            StageReader::Grep(machine) => machine.can_close(),
            StageReader::Uniq(machine) => machine.can_close(),
            StageReader::Rev(machine) => machine.can_close(),
            StageReader::Cut(machine) => machine.can_close(),
            StageReader::Tr(machine) => machine.can_close(),
            StageReader::Wc(machine) => machine.can_close(),
        }
    }

    /// Feeds one byte of input.
    pub fn feed(&mut self, b: u8)
        requires
            old(self).wf(),
            old(self).safe(b),
            old(self).fed() < usize::MAX,
        ensures
            final(self).wf(),
            final(self).fed() == old(self).fed() + 1,
            forall|rest: Seq<u8>| #[trigger]
                final(self).future(rest) == old(self).future(seq![b] + rest),
            forall|rest: Seq<u8>| #[trigger]
                old(self).takes(seq![b] + rest) ==> final(self).takes(rest),
            forall|rest: Seq<u8>| #[trigger]
                final(self).result(rest) == old(self).result(seq![b] + rest),
            forall|rest: Seq<u8>| #[trigger]
                final(self).so_far(rest) == old(self).so_far(seq![b] + rest),
    {
        match self {
            StageReader::Cat(machine) => machine.feed(b),
            StageReader::Head(machine) => machine.feed(b),
            StageReader::Tail(machine) => machine.feed(b),
            StageReader::Bat(machine) => machine.feed(b),
            StageReader::Sed(machine) => machine.feed(b),
            StageReader::Column(machine) => machine.feed(b),
            StageReader::PasteSerial(machine) => machine.feed(b),
            StageReader::Grep(machine) => machine.feed(b),
            StageReader::Uniq(machine) => machine.feed(b),
            StageReader::Rev(machine) => machine.feed(b),
            StageReader::Cut(machine) => machine.feed(b),
            StageReader::Tr(machine) => machine.feed(b),
            StageReader::Wc(machine) => machine.feed(b),
        }
    }

    /// Ends the input.
    pub fn close(&mut self)
        requires
            old(self).wf(),
            old(self).end_safe(),
        ensures
            final(self).wf(),
            final(self).ended(),
            final(self).fed() == old(self).fed(),
            final(self).status_now() == old(self).result(Seq::empty()),
            forall|rest: Seq<u8>| #[trigger]
                final(self).future(rest) == old(self).future(Seq::empty()),
            forall|rest: Seq<u8>| #[trigger]
                final(self).result(rest) == old(self).result(Seq::empty()),
    {
        match self {
            StageReader::Cat(machine) => machine.close(),
            StageReader::Head(machine) => machine.close(),
            StageReader::Tail(machine) => machine.close(),
            StageReader::Bat(machine) => machine.close(),
            StageReader::Sed(machine) => machine.close(),
            StageReader::Column(machine) => machine.close(),
            StageReader::PasteSerial(machine) => machine.close(),
            StageReader::Grep(machine) => machine.close(),
            StageReader::Uniq(machine) => machine.close(),
            StageReader::Rev(machine) => machine.close(),
            StageReader::Cut(machine) => machine.close(),
            StageReader::Tr(machine) => machine.close(),
            StageReader::Wc(machine) => machine.close(),
        }
        assert(self.status_now() == self.result(Seq::empty()));
    }

    /// Takes output into a buffer.
    pub fn pull(&mut self, buf: &mut [u8]) -> (r: Pull)
        requires
            old(self).wf(),
        ensures
            final(self).wf(),
            final(buf)@.len() == old(buf)@.len(),
            final(self).ended() == old(self).ended(),
            final(self).fed() == old(self).fed(),
            forall|rest: Seq<u8>| #[trigger] final(self).takes(rest) == old(self).takes(rest),
            forall|rest: Seq<u8>| #[trigger] final(self).result(rest) == old(self).result(rest),
            forall|rest: Seq<u8>| #[trigger] final(self).so_far(rest) == old(self).so_far(rest),
            final(self).status_now() == old(self).status_now(),
            match r {
                Pull::Bytes(n) => {
                    &&& n <= old(buf)@.len()
                    &&& n == 0 <==> old(buf)@.len() == 0
                    &&& final(buf)@ == old(self).pending().take(n as int) + old(buf)@.skip(n as int)
                    &&& forall|rest: Seq<u8>| #[trigger]
                        final(buf)@.take(n as int) + final(self).future(rest) == old(self).future(
                            rest,
                        )
                },
                Pull::NeedInput => old(buf)@.len() > 0 && !old(self).ended()
                    && old(self).pending().len() == 0 && *final(self) == *old(self) && final(buf)@
                    == old(buf)@,
                Pull::End => old(buf)@.len() > 0 && old(self).ended() && old(self).pending().len()
                    == 0 && *final(self) == *old(self) && final(buf)@ == old(buf)@,
            },
    {
        match self {
            StageReader::Cat(machine) => machine.pull(buf),
            StageReader::Head(machine) => machine.pull(buf),
            StageReader::Tail(machine) => machine.pull(buf),
            StageReader::Bat(machine) => machine.pull(buf),
            StageReader::Sed(machine) => machine.pull(buf),
            StageReader::Column(machine) => machine.pull(buf),
            StageReader::PasteSerial(machine) => machine.pull(buf),
            StageReader::Grep(machine) => machine.pull(buf),
            StageReader::Uniq(machine) => machine.pull(buf),
            StageReader::Rev(machine) => machine.pull(buf),
            StageReader::Cut(machine) => machine.pull(buf),
            StageReader::Tr(machine) => machine.pull(buf),
            StageReader::Wc(machine) => machine.pull(buf),
        }
    }
}

/// Makes a stage a reader. What is read from it, however its input is cut into pieces, is what
/// the stage writes for the whole input. A stage that is no filter is no reader.
pub fn wrap_non_tee_streaming_stage(stage: StreamingPipelineStage) -> (r: Option<StageReader>)
    ensures
        match r {
            Some(reader) => {
                &&& is_filter(stage)
                &&& reader.wf()
                &&& reader.fed() == 0
                &&& forall|rest: Seq<u8>| #[trigger]
                    reader.future(rest) == stage_output(stage, rest)
                &&& forall|rest: Seq<u8>| #[trigger]
                    reader.takes(rest) == stage_takes(stage, rest)
                &&& forall|rest: Seq<u8>| #[trigger]
                    reader.result(rest) == stage_status(stage, rest)
                &&& forall|rest: Seq<u8>| #[trigger]
                    reader.so_far(rest) == stage_status_so_far(stage, rest)
            },
            None => !is_filter(stage),
        },
{
    let none: Vec<u8> = Vec::new();
    proof {
        assert(none@ =~= Seq::<u8>::empty());
        assert forall|s: Seq<u8>| #[trigger] (none@ + s) == s by {
            assert(none@ + s =~= s);
        }
    }
    match stage {
        StreamingPipelineStage::Cat => Some(
            StageReader::Cat(Machine::new(CatStream, none)),
        ),
        StreamingPipelineStage::Head(mode) => Some(
            StageReader::Head(Machine::new(HeadStream { left: mode }, none)),
        ),
        StreamingPipelineStage::Tail(mode) => Some(
            StageReader::Tail(Machine::new(TailStream::new(mode), none)),
        ),
        StreamingPipelineStage::Bat(s) => {
            let header = emit_header(&s);
            let feed = LineFeed::new(BatStream { stage: s, line_num: 0 });
            assert(feed.current@ =~= Seq::empty());
            Some(StageReader::Bat(Machine::new(feed, header)))
        },
        StreamingPipelineStage::Sed(s) => {
            let feed = LineFeed::new(SedStream::new(s));
            assert(feed.current@ =~= Seq::empty());
            Some(StageReader::Sed(Machine::new(feed, none)))
        },
        StreamingPipelineStage::Paste(s) => {
            if s.serial {
                let feed = LineFeed::new(
                    PasteSerialStream { delimiter: s.delimiter, first: true },
                );
                assert(feed.current@ =~= Seq::empty());
                Some(StageReader::PasteSerial(Machine::new(feed, none)))
            } else {
                Some(
                    StageReader::Column(
                        Machine::new(ColumnStream { ended_with_newline: true }, none),
                    ),
                )
            }
        },
        StreamingPipelineStage::Column => Some(
            StageReader::Column(
                Machine::new(ColumnStream { ended_with_newline: true }, none),
            ),
        ),
        StreamingPipelineStage::Grep(s) => {
            let feed = LineFeed::new(GrepStream::new(s));
            assert(feed.current@ =~= Seq::empty());
            Some(StageReader::Grep(Machine::new(feed, none)))
        },
        StreamingPipelineStage::Uniq(f) => {
            let feed = LineFeed::new(UniqStream::new(f));
            assert(feed.current@ =~= Seq::empty());
            Some(StageReader::Uniq(Machine::new(feed, none)))
        },
        StreamingPipelineStage::Rev => {
            let feed = LineFeed::new(RevStream);
            assert(feed.current@ =~= Seq::empty());
            Some(StageReader::Rev(Machine::new(feed, none)))
        },
        StreamingPipelineStage::Cut(s) => {
            let feed = LineFeed::new(CutStream { stage: s });
            assert(feed.current@ =~= Seq::empty());
            Some(StageReader::Cut(Machine::new(feed, none)))
        },
        StreamingPipelineStage::Tr(s) => Some(
            StageReader::Tr(Machine::new(TrStream::new(s), none)),
        ),
        StreamingPipelineStage::Wc(f) => Some(
            StageReader::Wc(Machine::new(WcStream::new(f), none)),
        ),
        StreamingPipelineStage::Tee(_)
        | StreamingPipelineStage::Literal(_)
        | StreamingPipelineStage::File(_)
        | StreamingPipelineStage::Yes(_)
        | StreamingPipelineStage::BufferedCommand(_) => None,
    }
}

} // verus!
