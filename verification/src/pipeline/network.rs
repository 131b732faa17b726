//! A streaming pipeline as a whole: its stages, the pipes between them, and the rounds in which
//! they run.
use crate::pipeline::link::{
    at_least_one, can_come, left, lemma_all_passed, lemma_has_read_kept, lemma_passed_upto,
    lemma_status_upto, logged, total, LinkBody, LinkPoll, StageLink,
};
use crate::pipeline::pipe::Pipe;
use crate::pipeline::process::{tee_error_message, WriteResult};
use crate::pipeline::reader::{
    is_filter, stage_output, stage_status, stage_status_so_far, stage_takes,
    wrap_non_tee_streaming_stage, StageReader,
};
use crate::pipeline::stage::StreamingPipelineStage;
use crate::stream::ends::HeadStream;
use crate::stream::machine::run;
use vstd::prelude::*;
use vstd::utf8::encode_utf8;

verus! {

/// A streaming pipeline. Stage `i` reads pipe `i` and writes pipe `i + 1`.
pub struct Network {
    pub links: Vec<StageLink>,
    pub pipes: Vec<Pipe>,
}

/// What is still to be written into pipe `i` when `rest` is still to come from outside.
pub open spec fn coming(
    links: Seq<StageLink>,
    pipes: Seq<Pipe>,
    i: int,
    rest: Seq<u8>,
) -> Seq<u8>
    decreases i,
{
    if i <= 0 {
        if pipes[0].write_closed() {
            Seq::empty()
        } else {
            rest
        }
    } else {
        links[i - 1].future(left(pipes[i - 1], coming(links, pipes, i - 1, rest)))
    }
}

/// What a stage that is relayed writes for an input: `tee` hands it on.
pub open spec fn relayed_output(stage: StreamingPipelineStage, input: Seq<u8>) -> Seq<u8> {
    match stage {
        StreamingPipelineStage::Tee(_) => input,
        _ => stage_output(stage, input),
    }
}

/// What a stage behind another writes for an input: `head` is a process of its own there.
pub open spec fn link_output(
    stage: StreamingPipelineStage,
    relayed: bool,
    input: Seq<u8>,
) -> Seq<u8> {
    match stage {
        StreamingPipelineStage::Head(mode) if !relayed => run::<HeadStream>(
            at_least_one(mode),
            input,
        ),
        _ => relayed_output(stage, input),
    }
}

/// Whether a stage can take an input, to its end.
pub open spec fn link_takes(
    stage: StreamingPipelineStage,
    relayed: bool,
    input: Seq<u8>,
) -> bool {
    match stage {
        StreamingPipelineStage::Tee(_) => stage_takes(StreamingPipelineStage::Cat, input),
        StreamingPipelineStage::Head(_) if !relayed => true,
        _ => stage_takes(stage, input),
    }
}

/// The exit status of a stage for an input.
pub open spec fn link_status(stage: StreamingPipelineStage, input: Seq<u8>) -> i32 {
    match stage {
        StreamingPipelineStage::Tee(_) => 0,
        _ => stage_status(stage, input),
    }
}

/// The exit status of a stage after an input that does not end yet.
pub open spec fn link_status_so_far(stage: StreamingPipelineStage, input: Seq<u8>) -> i32 {
    match stage {
        StreamingPipelineStage::Tee(_) => 0,
        _ => stage_status_so_far(stage, input),
    }
}

/// Whether a filter begins as its stage: its exit status after an input and what it writes for it
/// are those of the stage.
#[verifier::opaque]
pub open spec fn begins_as(begun: Option<StageReader>, stage: StreamingPipelineStage) -> bool {
    begun matches Some(first) ==> {
        &&& forall|input: Seq<u8>| #[trigger]
            first.so_far(input) == link_status_so_far(stage, input)
        &&& forall|input: Seq<u8>| #[trigger] first.result(input) == link_status(stage, input)
        &&& forall|input: Seq<u8>| #[trigger]
            first.future(input) == link_output(stage, true, input)
    }
}

/// Whether this is the exit status of a stage that has read what was taken from a pipe: the one
/// that it has so far or, where the input ends there, the one that it has at the end.
pub open spec fn is_status_read(stage: StreamingPipelineStage, input: Pipe, status: i32) -> bool {
    ||| status == link_status_so_far(stage, input.taken())
    ||| {
        &&& input.write_closed()
        &&& input.contents().len() == 0
        &&& status == link_status(stage, input.taken())
    }
}

/// What a pipeline writes for an input: each stage works on what the one before it writes. The
/// first one is relayed where `fed` says so, that is where its input comes from outside.
pub open spec fn composed(
    stages: Seq<StreamingPipelineStage>,
    fed: bool,
    input: Seq<u8>,
) -> Seq<u8>
    decreases stages.len(),
{
    if stages.len() == 0 {
        input
    } else {
        link_output(
            stages.last(),
            fed && stages.len() == 1,
            composed(stages.drop_last(), fed, input),
        )
    }
}

/// Whether a pipe is read as the stage behind it says: it is closed once that stage is over, and
/// only where the rest of its input does not matter.
pub open spec fn reader_matches(link: StageLink, pipe: Pipe) -> bool {
    &&& link.exited ==> pipe.read_closed()
    &&& pipe.read_closed() ==> link.ignores()
}

/// Whether stages and pipes fit together: a pipe is closed for writing exactly when the stage
/// before it is over, it is read as the stage behind it says, pipes between stages have room, and
/// the last pipe is read.
pub open spec fn connected(links: Seq<StageLink>, pipes: Seq<Pipe>) -> bool {
    &&& links.len() > 0
    &&& pipes.len() == links.len() + 1
    &&& forall|i: int| 0 <= i < links.len() ==> (#[trigger] links[i]).wf()
    &&& forall|i: int|
        0 <= i < links.len() ==> (#[trigger] links[i]).exited == pipes[i + 1].write_closed()
    &&& forall|i: int|
        0 <= i < links.len() ==> reader_matches(#[trigger] links[i], pipes[i])
    &&& forall|i: int| 1 <= i < pipes.len() ==> (#[trigger] pipes[i]).capacity() > 0
    &&& !pipes[links.len() as int].read_closed()
}

/// Whether every stage has copied what it has written where it copies, `head` has passed on what it
/// has read, and no pipe holds more than it takes.
#[verifier::opaque]
pub open spec fn recorded(links: Seq<StageLink>, pipes: Seq<Pipe>) -> bool {
    &&& forall|i: int|
        0 <= i < links.len() ==> logged(#[trigger] links[i], pipes[i], pipes[i + 1])
    &&& forall|i: int|
        0 <= i < pipes.len() ==> (#[trigger] pipes[i]).contents().len() <= pipes[i].capacity()
}

/// All that stage `k` has written and still writes.
pub open spec fn stream_at(
    links: Seq<StageLink>,
    pipes: Seq<Pipe>,
    k: int,
    rest: Seq<u8>,
) -> Seq<u8> {
    pipes[k + 1].written() + coming(links, pipes, k + 1, rest)
}

/// The exit status of stage `k` in the end if `rest` is the rest of the input.
pub open spec fn result_at(links: Seq<StageLink>, pipes: Seq<Pipe>, k: int, rest: Seq<u8>) -> i32 {
    links[k].result(left(pipes[k], coming(links, pipes, k, rest)))
}

/// Whether stage `k` was cut off: it is over, and nobody reads what it writes.
pub open spec fn cut_at(links: Seq<StageLink>, pipes: Seq<Pipe>, k: int) -> bool {
    links[k].exited && pipes[k + 1].read_closed()
}

/// Whether `a` is the beginning of `b`.
pub open spec fn begins(a: Seq<u8>, b: Seq<u8>) -> bool {
    a.len() <= b.len() && a == b.take(a.len() as int)
}

/// Whether stage `k` stays the same stage: it writes the same and comes to the same status for every
/// rest of the input, or it was cut off and has written the beginning of that. One that is over
/// does not change any more.
pub open spec fn same_stage(
    links: Seq<StageLink>,
    pipes: Seq<Pipe>,
    after: Seq<StageLink>,
    pipes_after: Seq<Pipe>,
    k: int,
) -> bool {
    &&& after[k].tee == links[k].tee
    &&& after[k].body is Head == links[k].body is Head
    &&& after[k].body.pipes_stderr() == links[k].body.pipes_stderr()
    &&& after[k].body.stderr() == links[k].body.stderr()
    &&& after[k].begun == links[k].begun
    &&& after[k].body.failed() == links[k].body.failed()
    &&& pipes_after[k + 1].capacity() == pipes[k + 1].capacity()
    &&& links[k].exited ==> after[k] == links[k]
    &&& cut_at(links, pipes, k) ==> cut_at(after, pipes_after, k)
    &&& forall|rest: Seq<u8>|
        #![trigger result_at(after, pipes_after, k, rest)]
        result_at(after, pipes_after, k, rest) == result_at(links, pipes, k, rest) || cut_at(
            after,
            pipes_after,
            k,
        )
    &&& forall|rest: Seq<u8>|
        #![trigger stream_at(after, pipes_after, k, rest)]
        stream_at(after, pipes_after, k, rest) == stream_at(links, pipes, k, rest) || (cut_at(
            after,
            pipes_after,
            k,
        ) && begins(
            stream_at(after, pipes_after, k, rest),
            stream_at(links, pipes, k, rest),
        ))
}

/// Whether all stages stay the same.
pub open spec fn same_stages(
    links: Seq<StageLink>,
    pipes: Seq<Pipe>,
    after: Seq<StageLink>,
    pipes_after: Seq<Pipe>,
) -> bool {
    &&& after.len() == links.len()
    &&& pipes_after.len() == pipes.len()
    &&& same_source(pipes[0], pipes_after[0])
    &&& forall|k: int|
        0 <= k < links.len() ==> #[trigger] same_stage(links, pipes, after, pipes_after, k)
}

/// Whether nothing was written into a pipe, and it is not read again where it was not read.
pub open spec fn same_source(before: Pipe, after: Pipe) -> bool {
    &&& after.written() == before.written()
    &&& after.write_closed() == before.write_closed()
    &&& before.read_closed() ==> after.read_closed()
}

proof fn lemma_begins_chain(a: Seq<u8>, b: Seq<u8>, c: Seq<u8>)
    requires
        begins(a, b),
        begins(b, c),
    ensures
        begins(a, c),
{
    assert(c.take(b.len() as int).take(a.len() as int) =~= c.take(a.len() as int));
}

proof fn lemma_same_stages_chain(
    l0: Seq<StageLink>,
    p0: Seq<Pipe>,
    l1: Seq<StageLink>,
    p1: Seq<Pipe>,
    l2: Seq<StageLink>,
    p2: Seq<Pipe>,
)
    requires
        same_stages(l0, p0, l1, p1),
        same_stages(l1, p1, l2, p2),
    ensures
        same_stages(l0, p0, l2, p2),
{
    assert forall|k: int| 0 <= k < l0.len() implies #[trigger] same_stage(l0, p0, l2, p2, k) by {
        assert(same_stage(l0, p0, l1, p1, k));
        assert(same_stage(l1, p1, l2, p2, k));
        assert forall|rest: Seq<u8>|
            result_at(l2, p2, k, rest) == result_at(l0, p0, k, rest) || cut_at(l2, p2, k) by {
            let r = result_at(l1, p1, k, rest);
        }
        assert forall|rest: Seq<u8>|
            #![trigger stream_at(l2, p2, k, rest)]
            stream_at(l2, p2, k, rest) == stream_at(l0, p0, k, rest) || (cut_at(l2, p2, k)
                && begins(stream_at(l2, p2, k, rest), stream_at(l0, p0, k, rest))) by {
            let x = stream_at(l0, p0, k, rest);
            let y = stream_at(l1, p1, k, rest);
            let z = stream_at(l2, p2, k, rest);
            if y != x && z != y {
                lemma_begins_chain(z, y, x);
            }
        }
    }
}

/// Whether a stage has complained about a file and is the same otherwise. Where its standard error
/// goes to the output, the complaint waits behind what waits already.
pub open spec fn complained(a: StageLink, b: StageLink, message: Seq<char>) -> bool {
    &&& b.exited == a.exited
    &&& b.tee == a.tee
    &&& b.copied == a.copied
    &&& b.begun == a.begun
    &&& b.body is Head == a.body is Head
    &&& b.body.pipes_stderr() == a.body.pipes_stderr()
    &&& b.body.stderr() == a.body.stderr() + encode_utf8(message)
    &&& b.body.waiting() == if a.body.pipes_stderr() {
        a.body.waiting() + encode_utf8(message)
    } else {
        a.body.waiting()
    }
    &&& forall|input: Seq<u8>| #[trigger] b.body.unread(input) == a.body.unread(input)
    &&& forall|input: Seq<u8>| #[trigger] b.takes(input) == a.takes(input)
    &&& b.body.status_now() == 1
}

/// A stream with a message in it, behind the first `n` bytes.
pub open spec fn with_message(stream: Seq<u8>, n: int, message: Seq<u8>) -> Seq<u8> {
    stream.take(n) + message + stream.skip(n)
}

/// How many bytes stage `k` has written and has waiting.
pub open spec fn reached(links: Seq<StageLink>, pipes: Seq<Pipe>, k: int) -> int {
    (pipes[k + 1].written().len() + links[k].body.waiting().len()) as int
}

/// What arrives in a pipe is the same where a stage writes the same for every input.
proof fn lemma_coming_alike(
    links: Seq<StageLink>,
    after: Seq<StageLink>,
    pipes: Seq<Pipe>,
    k: int,
    j: int,
    rest: Seq<u8>,
)
    requires
        after.len() == links.len(),
        0 <= k < links.len(),
        0 <= j <= links.len(),
        forall|i: int| 0 <= i < links.len() && i != k ==> #[trigger] after[i] == links[i],
        forall|input: Seq<u8>| #[trigger] after[k].future(input) == links[k].future(input),
    ensures
        coming(after, pipes, j, rest) == coming(links, pipes, j, rest),
    decreases j,
{
    if j > 0 {
        lemma_coming_alike(links, after, pipes, k, j - 1, rest);
        if j - 1 != k {
            assert(after[j - 1] == links[j - 1]);
        }
    }
}

/// What arrives in the pipes up to a stage does not depend on the stage.
proof fn lemma_coming_before(
    links: Seq<StageLink>,
    after: Seq<StageLink>,
    pipes: Seq<Pipe>,
    k: int,
    j: int,
    rest: Seq<u8>,
)
    requires
        after.len() == links.len(),
        0 <= j <= k < links.len(),
        forall|i: int| 0 <= i < links.len() && i != k ==> #[trigger] after[i] == links[i],
    ensures
        coming(after, pipes, j, rest) == coming(links, pipes, j, rest),
    decreases j,
{
    if j > 0 {
        lemma_coming_before(links, after, pipes, k, j - 1, rest);
        assert(after[j - 1] == links[j - 1]);
    }
}

proof fn lemma_work_alike(
    links: Seq<StageLink>,
    after: Seq<StageLink>,
    pipes: Seq<Pipe>,
    k: int,
    n: int,
)
    requires
        after.len() == links.len(),
        0 <= k < links.len(),
        0 <= n <= links.len(),
        forall|i: int| 0 <= i < links.len() && i != k ==> #[trigger] after[i] == links[i],
        after[k].exited == links[k].exited,
        forall|input: Seq<u8>| #[trigger] after[k].future(input) == links[k].future(input),
    ensures
        work(after, pipes, n, Seq::empty()) == work(links, pipes, n, Seq::empty()),
    decreases n,
{
    if n > 0 {
        lemma_work_alike(links, after, pipes, k, n - 1);
        lemma_coming_alike(links, after, pipes, k, n, Seq::empty());
        if n - 1 != k {
            assert(after[n - 1] == links[n - 1]);
        }
    }
}

/// Whether nothing but stage `i` and the pipes on its two sides may differ.
pub open spec fn same_elsewhere(
    links: Seq<StageLink>,
    pipes: Seq<Pipe>,
    after: Seq<StageLink>,
    pipes_after: Seq<Pipe>,
    i: int,
) -> bool {
    &&& after.len() == links.len()
    &&& pipes_after.len() == pipes.len()
    &&& forall|k: int| 0 <= k < links.len() && k != i ==> #[trigger] after[k] == links[k]
    &&& forall|k: int|
        0 <= k < pipes.len() && k != i && k != i + 1 ==> #[trigger] pipes_after[k] == pipes[k]
}

proof fn lemma_coming_prefix(
    links: Seq<StageLink>,
    pipes: Seq<Pipe>,
    after: Seq<StageLink>,
    pipes_after: Seq<Pipe>,
    i: int,
    j: int,
    rest: Seq<u8>,
)
    requires
        0 <= j <= i < links.len(),
        pipes.len() == links.len() + 1,
        same_elsewhere(links, pipes, after, pipes_after, i),
        pipes_after[0].write_closed() == pipes[0].write_closed(),
    ensures
        coming(after, pipes_after, j, rest) == coming(links, pipes, j, rest),
    decreases j,
{
    if j > 0 {
        lemma_coming_prefix(links, pipes, after, pipes_after, i, j - 1, rest);
        assert(after[j - 1] == links[j - 1]);
        assert(pipes_after[j - 1] == pipes[j - 1]);
    }
}

/// A pipe whose writer is over gets nothing more.
proof fn lemma_can_come(links: Seq<StageLink>, pipes: Seq<Pipe>, i: int, rest: Seq<u8>)
    requires
        connected(links, pipes),
        0 <= i <= links.len(),
    ensures
        can_come(pipes[i], coming(links, pipes, i, rest)),
{
    if i > 0 {
        assert(links[i - 1].exited == pipes[i - 1 + 1].write_closed());
    }
}

/// A poll of stage `i` changes nothing of what arrives behind its output pipe.
proof fn lemma_poll(
    links: Seq<StageLink>,
    pipes: Seq<Pipe>,
    after: Seq<StageLink>,
    pipes_after: Seq<Pipe>,
    i: int,
    rest: Seq<u8>,
    kept: bool,
)
    requires
        connected(links, pipes),
        connected(after, pipes_after),
        0 <= i < links.len(),
        same_elsewhere(links, pipes, after, pipes_after, i),
        pipes_after[i].write_closed() == pipes[i].write_closed(),
        pipes_after[i + 1].read_closed() == pipes[i + 1].read_closed(),
        kept || pipes[i + 1].read_closed(),
        kept ==> forall|c: Seq<u8>|
            can_come(pipes[i], c) ==> #[trigger] total(
                after[i],
                pipes_after[i],
                pipes_after[i + 1],
                c,
            ) == total(links[i], pipes[i], pipes[i + 1], c),
    ensures
        kept ==> left(
            pipes_after[i + 1],
            coming(after, pipes_after, i + 1, rest),
        ) == left(pipes[i + 1], coming(links, pipes, i + 1, rest)),
        forall|j: int|
            0 <= j <= links.len() && j != i + 1 ==> #[trigger] coming(
                after,
                pipes_after,
                j,
                rest,
            ) == coming(links, pipes, j, rest),
{
    assert(pipes_after[0].write_closed() == pipes[0].write_closed()) by {
        if i > 0 {
            assert(pipes_after[0] == pipes[0]);
        }
    }
    lemma_coming_prefix(links, pipes, after, pipes_after, i, i, rest);
    lemma_can_come(links, pipes, i, rest);
    let c = coming(links, pipes, i, rest);
    if kept {
        assert(total(after[i], pipes_after[i], pipes_after[i + 1], c) == total(
            links[i],
            pipes[i],
            pipes[i + 1],
            c,
        ));
    }
    assert forall|j: int| 0 <= j <= links.len() && j != i + 1 implies #[trigger] coming(
        after,
        pipes_after,
        j,
        rest,
    ) == coming(links, pipes, j, rest) by {
        if j <= i {
            lemma_coming_prefix(links, pipes, after, pipes_after, i, j, rest);
        } else {
            lemma_coming_suffix(links, pipes, after, pipes_after, i, j, rest);
        }
    }
}

/// A poll of stage `i` leaves every stage the same, itself too unless it is cut off.
proof fn lemma_same_stage(
    links: Seq<StageLink>,
    pipes: Seq<Pipe>,
    after: Seq<StageLink>,
    pipes_after: Seq<Pipe>,
    i: int,
    j: int,
    kept: bool,
)
    requires
        connected(links, pipes),
        connected(after, pipes_after),
        0 <= i < links.len(),
        0 <= j < links.len(),
        !links[i].exited,
        same_elsewhere(links, pipes, after, pipes_after, i),
        pipes_after[i].write_closed() == pipes[i].write_closed(),
        pipes_after[i].capacity() == pipes[i].capacity(),
        pipes_after[i].written() == pipes[i].written(),
        pipes[i].read_closed() ==> pipes_after[i].read_closed(),
        pipes_after[i + 1].read_closed() == pipes[i + 1].read_closed(),
        pipes_after[i + 1].capacity() == pipes[i + 1].capacity(),
        pipes_after[i + 1].taken() == pipes[i + 1].taken(),
        pipes[i + 1].read_closed() ==> pipes_after[i + 1].contents() == pipes[i + 1].contents(),
        after[i].tee == links[i].tee,
        after[i].body is Head == links[i].body is Head,
        after[i].body.pipes_stderr() == links[i].body.pipes_stderr(),
        after[i].body.stderr() == links[i].body.stderr(),
        after[i].begun == links[i].begun,
        after[i].body.failed() == links[i].body.failed(),
        kept || (pipes[i + 1].read_closed() && after[i].exited),
        kept ==> forall|c: Seq<u8>|
            can_come(pipes[i], c) ==> #[trigger] total(
                after[i],
                pipes_after[i],
                pipes_after[i + 1],
                c,
            ) == total(links[i], pipes[i], pipes[i + 1], c),
        kept ==> forall|c: Seq<u8>|
            can_come(pipes[i], c) ==> after[i].result(#[trigger] left(pipes_after[i], c))
                == links[i].result(left(pipes[i], c)),
    ensures
        same_stage(links, pipes, after, pipes_after, j),
{
    assert forall|rest: Seq<u8>|
        result_at(after, pipes_after, j, rest) == result_at(links, pipes, j, rest) || cut_at(
            after,
            pipes_after,
            j,
        ) by {
        lemma_poll(links, pipes, after, pipes_after, i, rest, kept);
        lemma_can_come(links, pipes, i, rest);
        let c = coming(links, pipes, i, rest);
        if j == i {
            if kept {
                assert(after[i].result(left(pipes_after[i], c)) == links[i].result(
                    left(pipes[i], c),
                ));
            }
        } else {
            assert(after[j] == links[j]);
            if j == i + 1 {
                assert(reader_matches(links[j], pipes[j]));
            } else {
                assert(coming(after, pipes_after, j, rest) == coming(links, pipes, j, rest));
                assert(pipes_after[j] == pipes[j]);
            }
        }
    }
    assert forall|rest: Seq<u8>|
        #![trigger stream_at(after, pipes_after, j, rest)]
        stream_at(after, pipes_after, j, rest) == stream_at(links, pipes, j, rest) || (cut_at(
            after,
            pipes_after,
            j,
        ) && begins(
            stream_at(after, pipes_after, j, rest),
            stream_at(links, pipes, j, rest),
        )) by {
        lemma_poll(links, pipes, after, pipes_after, i, rest, kept);
        if j == i {
            let c0 = coming(links, pipes, i + 1, rest);
            let c1 = coming(after, pipes_after, i + 1, rest);
            let p0 = pipes[i + 1];
            let p1 = pipes_after[i + 1];
            if kept {
                assert(left(p1, c1) == left(p0, c0));
                assert(p1.written() + c1 =~= p1.taken() + left(p1, c1));
                assert(p0.written() + c0 =~= p0.taken() + left(p0, c0));
            } else {
                assert(c1 =~= Seq::<u8>::empty());
                assert(p1.written() + c1 =~= p0.written());
                assert((p0.written() + c0).take(p0.written().len() as int) =~= p0.written());
            }
        } else {
            assert(coming(after, pipes_after, j + 1, rest) == coming(links, pipes, j + 1, rest));
            if j + 1 != i {
                assert(pipes_after[j + 1] == pipes[j + 1]);
            }
        }
    }
    if j != i {
        assert(after[j] == links[j]);
        if j + 1 != i {
            assert(pipes_after[j + 1] == pipes[j + 1]);
        }
    }
}

proof fn lemma_coming_suffix(
    links: Seq<StageLink>,
    pipes: Seq<Pipe>,
    after: Seq<StageLink>,
    pipes_after: Seq<Pipe>,
    i: int,
    j: int,
    rest: Seq<u8>,
)
    requires
        connected(links, pipes),
        connected(after, pipes_after),
        0 <= i < links.len(),
        i + 2 <= j <= links.len(),
        same_elsewhere(links, pipes, after, pipes_after, i),
        !pipes[i + 1].read_closed() ==> left(
            pipes_after[i + 1],
            coming(after, pipes_after, i + 1, rest),
        ) == left(pipes[i + 1], coming(links, pipes, i + 1, rest)),
    ensures
        coming(after, pipes_after, j, rest) == coming(links, pipes, j, rest),
    decreases j,
{
    assert(after[j - 1] == links[j - 1]);
    if j == i + 2 {
        assert(reader_matches(links[i + 1], pipes[i + 1]));
    } else {
        lemma_coming_suffix(links, pipes, after, pipes_after, i, j - 1, rest);
        assert(pipes_after[j - 1] == pipes[j - 1]);
    }
}

/// How much is still to be done: the bytes that stages still write, and the stages that are not
/// over.
pub open spec fn work(links: Seq<StageLink>, pipes: Seq<Pipe>, n: int, rest: Seq<u8>) -> nat
    decreases n,
{
    if n <= 0 {
        0
    } else {
        work(links, pipes, (n - 1), rest) + coming(links, pipes, n, rest).len() + (if links[n
            - 1].exited {
            0nat
        } else {
            1
        })
    }
}

proof fn lemma_work(
    links: Seq<StageLink>,
    pipes: Seq<Pipe>,
    after: Seq<StageLink>,
    pipes_after: Seq<Pipe>,
    i: int,
    n: int,
    rest: Seq<u8>,
)
    requires
        0 <= i < links.len(),
        0 <= n <= links.len(),
        after.len() == links.len(),
        forall|k: int|
            0 <= k < links.len() && k != i ==> (#[trigger] after[k]).exited == links[k].exited,
        forall|j: int|
            0 <= j <= links.len() && j != i + 1 ==> #[trigger] coming(
                after,
                pipes_after,
                j,
                rest,
            ) == coming(links, pipes, j, rest),
    ensures
        work(after, pipes_after, n, rest) - work(links, pipes, n, rest) == if n > i {
            (coming(after, pipes_after, i + 1, rest).len() - coming(
                links,
                pipes,
                i + 1,
                rest,
            ).len()) + (if after[i].exited {
                0int
            } else {
                1
            }) - (if links[i].exited {
                0int
            } else {
                1
            })
        } else {
            0
        },
    decreases n,
{
    if n > 0 {
        lemma_work(links, pipes, after, pipes_after, i, n - 1, rest);
        if n != i + 1 {
            assert(coming(after, pipes_after, n, rest) == coming(links, pipes, n, rest));
            assert(after[n - 1].exited == links[n - 1].exited);
        }
    }
}

/// Whether a stage that is not over waits for input that may still come.
pub open spec fn starving(pipes: Seq<Pipe>, k: int) -> bool {
    pipes[k].contents().len() == 0 && !pipes[k].write_closed()
}

/// Whether a stage that is not over waits for room.
pub open spec fn blocked(pipes: Seq<Pipe>, k: int) -> bool {
    pipes[k + 1].contents().len() >= pipes[k + 1].capacity() && !pipes[k + 1].read_closed()
}

/// Whether every stage from `i` on is over or waits.
pub open spec fn idle_from(links: Seq<StageLink>, pipes: Seq<Pipe>, i: int) -> bool {
    forall|k: int|
        i <= k < links.len() ==> (#[trigger] links[k]).exited || starving(pipes, k) || blocked(
            pipes,
            k,
        )
}

proof fn lemma_not_blocked(links: Seq<StageLink>, pipes: Seq<Pipe>, k: int)
    requires
        connected(links, pipes),
        idle_from(links, pipes, 0),
        pipes[links.len() as int].contents().len() == 0,
        0 <= k < links.len(),
        !links[k].exited,
    ensures
        !blocked(pipes, k),
    decreases links.len() - k,
{
    assert(pipes[k + 1].capacity() > 0);
    if k + 1 < links.len() && blocked(pipes, k) {
        assert(reader_matches(links[k + 1], pipes[k + 1]));
        lemma_not_blocked(links, pipes, k + 1);
    }
}

proof fn lemma_never_waits(links: Seq<StageLink>, pipes: Seq<Pipe>, k: int)
    requires
        connected(links, pipes),
        idle_from(links, pipes, 0),
        pipes[links.len() as int].contents().len() == 0,
        pipes[0].write_closed(),
        0 <= k < links.len(),
    ensures
        links[k].exited,
    decreases k,
{
    if !links[k].exited {
        lemma_not_blocked(links, pipes, k);
        assert(starving(pipes, k));
        if k > 0 {
            lemma_never_waits(links, pipes, k - 1);
            assert(links[k - 1].exited == pipes[k - 1 + 1].write_closed());
        }
    }
}

/// A pipeline never waits for itself: when its input is closed, its output has been taken and
/// every stage is over or waits, then all of them are over.
pub proof fn law_pipeline_never_deadlocks(links: Seq<StageLink>, pipes: Seq<Pipe>)
    requires
        connected(links, pipes),
        idle_from(links, pipes, 0),
        pipes[links.len() as int].contents().len() == 0,
        pipes[0].write_closed(),
    ensures
        forall|k: int| 0 <= k < links.len() ==> (#[trigger] links[k]).exited,
{
    assert forall|k: int| 0 <= k < links.len() implies (#[trigger] links[k]).exited by {
        lemma_never_waits(links, pipes, k);
    }
}

/// Whether every stage can take what is left of its input.
pub open spec fn all_take(links: Seq<StageLink>, pipes: Seq<Pipe>, rest: Seq<u8>) -> bool {
    forall|k: int|
        0 <= k < links.len() ==> (#[trigger] links[k]).takes(
            left(pipes[k], coming(links, pipes, k, rest)),
        )
}

/// Whether nothing was added to the input pipe.
pub open spec fn input_shrinks(before: Pipe, after: Pipe) -> bool {
    after.capacity() == before.capacity() && after.contents().len() <= before.contents().len()
}

/// What a round came to.
#[derive(Clone, Copy, Debug, PartialEq, Eq, Structural)]
pub enum Round {
    /// Output was written or a stage ended.
    Progressed,
    /// Nothing happened.
    Idle,
    /// A stage cannot take its input.
    Stuck,
}

impl Network {
    /// Whether the parts of the pipeline fit together.
    pub open spec fn wf(&self) -> bool {
        connected(self.links@, self.pipes@) && recorded(self.links@, self.pipes@)
    }

    /// All that is still to be taken from the pipeline if `rest` is the rest of its input.
    pub open spec fn future(&self, rest: Seq<u8>) -> Seq<u8> {
        left(
            self.pipes@[self.links@.len() as int],
            coming(self.links@, self.pipes@, self.links@.len() as int, rest),
        )
    }

    /// Whether all stages are over.
    pub open spec fn over(&self) -> bool {
        forall|k: int| 0 <= k < self.links@.len() ==> (#[trigger] self.links@[k]).exited
    }

    /// Whether no more input comes.
    pub open spec fn closed(&self) -> bool {
        self.pipes@[0].write_closed()
    }

    /// How much is still to be done.
    pub open spec fn work_left(&self) -> nat {
        work(self.links@, self.pipes@, self.links@.len() as int, Seq::empty())
    }

    /// Whether every stage can take what is left of its input if `rest` is the rest of the
    /// pipeline's.
    pub open spec fn takes(&self, rest: Seq<u8>) -> bool {
        all_take(self.links@, self.pipes@, rest)
    }

    /// The exit status of the last stage in the end if `rest` is the rest of the input.
    pub open spec fn result(&self, rest: Seq<u8>) -> i32 {
        let k = self.links@.len() - 1;
        self.links@[k].result(left(self.pipes@[k], coming(self.links@, self.pipes@, k, rest)))
    }

    /// Polls one stage.
    fn poll_stage(&mut self, i: usize) -> (r: LinkPoll)
        requires
            old(self).wf(),
            i < old(self).links@.len(),
            !old(self).links@[i as int].exited,
        ensures
            final(self).links@.len() == old(self).links@.len(),
            forall|rest: Seq<u8>| #[trigger] old(self).takes(rest) ==> r != LinkPoll::Stuck,
            r != LinkPoll::Stuck ==> {
                &&& final(self).wf()
                &&& input_shrinks(old(self).pipes@[0], final(self).pipes@[0])
                &&& forall|rest: Seq<u8>| #[trigger]
                    old(self).takes(rest) ==> final(self).takes(rest)
                &&& forall|rest: Seq<u8>| #[trigger]
                    final(self).result(rest) == old(self).result(rest)
                &&& final(self).closed() == old(self).closed()
                &&& forall|rest: Seq<u8>| #[trigger]
                    final(self).future(rest) == old(self).future(rest)
                &&& same_elsewhere(
                    old(self).links@,
                    old(self).pipes@,
                    final(self).links@,
                    final(self).pipes@,
                    i as int,
                )
                &&& same_stages(
                    old(self).links@,
                    old(self).pipes@,
                    final(self).links@,
                    final(self).pipes@,
                )
                &&& if r == LinkPoll::Pending {
                    &&& final(self).work_left() <= old(self).work_left()
                    &&& !final(self).links@[i as int].exited
                    &&& final(self).pipes@[i + 1].contents() == old(self).pipes@[i
                        + 1].contents()
                    &&& final(self).pipes@[i + 1].capacity() == old(self).pipes@[i
                        + 1].capacity()
                    &&& final(self).pipes@[i + 1].read_closed() == old(self).pipes@[i
                        + 1].read_closed()
                    &&& final(self).pipes@[i + 1].write_closed() == old(self).pipes@[i
                        + 1].write_closed()
                    &&& starving(final(self).pipes@, i as int) || blocked(
                        final(self).pipes@,
                        i as int,
                    )
                } else {
                    final(self).work_left() < old(self).work_left()
                }
            },
    {
        let ghost links0 = self.links@;
        let ghost pipes0 = self.pipes@;
        let n: usize = self.links.len();
        proof {
            assert(self.pipes.len() == n + 1);
            assert(links0[i as int].wf());
            assert(links0[i as int].exited == pipes0[i + 1].write_closed());
        }
        let mut input = Pipe::new(0);
        let mut output = Pipe::new(0);
        std::mem::swap(&mut input, &mut self.pipes[i]);
        std::mem::swap(&mut output, &mut self.pipes[i + 1]);
        let r = self.links[i].poll(&mut input, &mut output);
        std::mem::swap(&mut input, &mut self.pipes[i]);
        std::mem::swap(&mut output, &mut self.pipes[i + 1]);
        proof {
            reveal(recorded);
            let links1 = self.links@;
            let pipes1 = self.pipes@;
            let k = i as int;
            assert(links1 =~= links0.update(k, links1[k]));
            assert(pipes1 =~= pipes0.update(k, pipes1[k]).update(k + 1, pipes1[k + 1]));
            let kept = !(r == LinkPoll::Exited && pipes0[k + 1].read_closed());
            if r == LinkPoll::Stuck {
                assert forall|rest: Seq<u8>| !(#[trigger] old(self).takes(rest)) by {
                    lemma_can_come(links0, pipes0, k, rest);
                    let c = coming(links0, pipes0, k, rest);
                    assert(!links0[k].takes(left(pipes0[k], c)));
                }
            } else {
                assert(connected(links1, pipes1)) by {
                    assert forall|j: int| 0 <= j < links1.len() implies (
                    #[trigger] links1[j]).exited == pipes1[j + 1].write_closed() by {
                        assert(links0[j].exited == pipes0[j + 1].write_closed());
                        if j + 1 == k {
                            assert(pipes1[k].write_closed() == pipes0[k].write_closed());
                        }
                    }
                    assert forall|j: int| 0 <= j < links1.len() implies reader_matches(
                        #[trigger] links1[j],
                        pipes1[j],
                    ) by {
                        assert(reader_matches(links0[j], pipes0[j]));
                    }
                    assert forall|j: int| 0 <= j < links1.len() implies (
                    #[trigger] links1[j]).wf() by {
                        assert(links0[j].wf());
                    }
                    assert forall|j: int| 1 <= j < pipes1.len() implies (
                    #[trigger] pipes1[j]).capacity() > 0 by {
                        assert(pipes0[j].capacity() > 0);
                    }
                }
                assert(recorded(links1, pipes1)) by {
                    assert forall|j: int| 0 <= j < links1.len() implies logged(
                        #[trigger] links1[j],
                        pipes1[j],
                        pipes1[j + 1],
                    ) by {
                        assert(logged(links0[j], pipes0[j], pipes0[j + 1]));
                        if j != k {
                            lemma_has_read_kept(
                                links0[j].body,
                                links0[j].begun@,
                                pipes0[j],
                                pipes1[j],
                            );
                        }
                        assert(pipes0[k].contents().len() <= pipes0[k].capacity());
                    }
                    assert forall|j: int| 0 <= j < pipes1.len() implies (
                    #[trigger] pipes1[j]).contents().len() <= pipes1[j].capacity() by {
                        assert(pipes0[j].contents().len() <= pipes0[j].capacity());
                    }
                }
                assert forall|j: int| 0 <= j < n implies #[trigger] same_stage(
                    links0,
                    pipes0,
                    links1,
                    pipes1,
                    j,
                ) by {
                    lemma_same_stage(links0, pipes0, links1, pipes1, k, j, kept);
                }
                assert forall|rest: Seq<u8>| #[trigger]
                    self.future(rest) == old(self).future(rest) by {
                    lemma_poll(links0, pipes0, links1, pipes1, k, rest, kept);
                    if k + 1 < n {
                        assert(coming(links1, pipes1, n as int, rest) == coming(
                            links0,
                            pipes0,
                            n as int,
                            rest,
                        ));
                    }
                }
                assert forall|rest: Seq<u8>| #[trigger] old(self).takes(rest) implies self.takes(
                    rest,
                ) by {
                    lemma_poll(links0, pipes0, links1, pipes1, k, rest, kept);
                    lemma_can_come(links0, pipes0, k, rest);
                    assert forall|j: int| 0 <= j < n implies (#[trigger] links1[j]).takes(
                        left(pipes1[j], coming(links1, pipes1, j, rest)),
                    ) by {
                        assert(links0[j].takes(left(pipes0[j], coming(links0, pipes0, j, rest))));
                        if j == k + 1 {
                            assert(reader_matches(links0[j], pipes0[j]));
                        } else {
                            assert(coming(links1, pipes1, j, rest) == coming(
                                links0,
                                pipes0,
                                j,
                                rest,
                            ));
                        }
                    }
                }
                assert forall|rest: Seq<u8>| #[trigger]
                    self.result(rest) == old(self).result(rest) by {
                    lemma_poll(links0, pipes0, links1, pipes1, k, rest, kept);
                    lemma_can_come(links0, pipes0, k, rest);
                    let j = n - 1;
                    assert(reader_matches(links0[j], pipes0[j]));
                    if j == k {
                        let c = coming(links0, pipes0, k, rest);
                        assert(links1[k].result(left(pipes1[k], c)) == links0[k].result(
                            left(pipes0[k], c),
                        ));
                    } else if j != k + 1 {
                        assert(coming(links1, pipes1, j, rest) == coming(links0, pipes0, j, rest));
                    }
                }
                let e = Seq::<u8>::empty();
                lemma_poll(links0, pipes0, links1, pipes1, k, e, kept);
                lemma_work(links0, pipes0, links1, pipes1, k, n as int, e);
                let c0 = coming(links0, pipes0, k + 1, e);
                let c1 = coming(links1, pipes1, k + 1, e);
                if kept {
                    assert(left(pipes1[k + 1], c1).len() == pipes1[k + 1].contents().len()
                        + c1.len());
                    assert(left(pipes0[k + 1], c0).len() == pipes0[k + 1].contents().len()
                        + c0.len());
                } else {
                    assert(c1.len() == 0);
                }
            }
        }
        r
    }

    /// Runs one round: every stage that is not over is polled once, from the last to the first.
    pub fn round(&mut self) -> (r: Round)
        requires
            old(self).wf(),
        ensures
            final(self).links@.len() == old(self).links@.len(),
            forall|rest: Seq<u8>| #[trigger] old(self).takes(rest) ==> r != Round::Stuck,
            r != Round::Stuck ==> {
                &&& final(self).wf()
                &&& input_shrinks(old(self).pipes@[0], final(self).pipes@[0])
                &&& forall|rest: Seq<u8>| #[trigger]
                    old(self).takes(rest) ==> final(self).takes(rest)
                &&& forall|rest: Seq<u8>| #[trigger]
                    final(self).result(rest) == old(self).result(rest)
                &&& final(self).closed() == old(self).closed()
                &&& forall|rest: Seq<u8>| #[trigger]
                    final(self).future(rest) == old(self).future(rest)
                &&& same_stages(
                    old(self).links@,
                    old(self).pipes@,
                    final(self).links@,
                    final(self).pipes@,
                )
                &&& if r == Round::Progressed {
                    final(self).work_left() < old(self).work_left()
                } else {
                    &&& final(self).work_left() <= old(self).work_left()
                    &&& idle_from(final(self).links@, final(self).pipes@, 0)
                    &&& final(self).pipes@[final(self).links@.len() as int].contents() == old(
                        self,
                    ).pipes@[old(self).links@.len() as int].contents()
                    &&& forall|k: int|
                        0 <= k < old(self).links@.len() ==> #[trigger] final(self).links@[k].exited
                            == old(self).links@[k].exited
                }
            },
    {
        let n: usize = self.links.len();
        let mut progressed: bool = false;
        let mut i: usize = n;
        while i > 0
            invariant
                i <= n,
                n == self.links@.len(),
                n == old(self).links@.len(),
                self.wf(),
                input_shrinks(old(self).pipes@[0], self.pipes@[0]),
                self.closed() == old(self).closed(),
                forall|rest: Seq<u8>| #[trigger]
                    self.future(rest) == old(self).future(rest),
                forall|rest: Seq<u8>| #[trigger] old(self).takes(rest) ==> self.takes(rest),
                forall|rest: Seq<u8>| #[trigger] self.result(rest) == old(self).result(rest),
                same_stages(old(self).links@, old(self).pipes@, self.links@, self.pipes@),
                self.work_left() <= old(self).work_left(),
                progressed ==> self.work_left() < old(self).work_left(),
                !progressed ==> idle_from(self.links@, self.pipes@, i as int),
                !progressed ==> forall|k: int|
                    0 <= k < n ==> (#[trigger] self.links@[k]).exited == old(self).links@[k].exited,
                !progressed ==> self.pipes@[n as int].contents() == old(self).pipes@[
                    n as int
                ].contents(),
            decreases i,
        {
            i = i - 1;
            if !self.links[i].exited {
                let ghost before = *self;
                let r = self.poll_stage(i);
                proof {
                    if r != LinkPoll::Stuck {
                        lemma_same_stages_chain(
                            old(self).links@,
                            old(self).pipes@,
                            before.links@,
                            before.pipes@,
                            self.links@,
                            self.pipes@,
                        );
                    }
                }
                match r {
                    LinkPoll::Stuck => {
                        return Round::Stuck;
                    },
                    LinkPoll::Pending => {
                        proof {
                            if !progressed {
                                assert forall|k: int| i <= k < n implies (
                                #[trigger] self.links@[k]).exited || starving(self.pipes@, k)
                                    || blocked(self.pipes@, k) by {
                                    if k > i {
                                        assert(self.links@[k] == before.links@[k]);
                                        if k > i + 1 {
                                            assert(self.pipes@[k] == before.pipes@[k]);
                                        }
                                        assert(self.pipes@[k + 1] == before.pipes@[k + 1]);
                                    }
                                }
                                if i + 1 < n {
                                    assert(self.pipes@[n as int] == before.pipes@[n as int]);
                                }
                            }
                        }
                    },
                    _ => {
                        progressed = true;
                    },
                }
            }
        }
        if progressed {
            Round::Progressed
        } else {
            Round::Idle
        }
    }

    /// Takes the output that has arrived.
    pub fn drain(&mut self) -> (r: Vec<u8>)
        requires
            old(self).wf(),
        ensures
            final(self).wf(),
            final(self).links@ == old(self).links@,
            same_stages(
                old(self).links@,
                old(self).pipes@,
                final(self).links@,
                final(self).pipes@,
            ),
            final(self).closed() == old(self).closed(),
            final(self).over() == old(self).over(),
            final(self).pipes@[0] == old(self).pipes@[0],
            forall|rest: Seq<u8>| #[trigger] old(self).takes(rest) ==> final(self).takes(rest),
            forall|rest: Seq<u8>| #[trigger] final(self).result(rest) == old(self).result(rest),
            final(self).work_left() == old(self).work_left(),
            final(self).pipes@[final(self).links@.len() as int].contents().len() == 0,
            r@ == old(self).pipes@[old(self).links@.len() as int].contents(),
            final(self).pipes@.len() == old(self).pipes@.len(),
            forall|k: int|
                0 <= k < old(self).links@.len() ==> #[trigger] final(self).pipes@[k] == old(
                    self,
                ).pipes@[k],
            final(self).pipes@[final(self).links@.len() as int].capacity() == old(
                self,
            ).pipes@[old(self).links@.len() as int].capacity(),
            forall|rest: Seq<u8>| r@ + #[trigger] final(self).future(rest) == old(self).future(
                rest,
            ),
    {
        let ghost links0 = self.links@;
        let ghost pipes0 = self.pipes@;
        let n: usize = self.links.len();
        let waiting: usize = self.pipes[n].len();
        let data = self.pipes[n].read(waiting);
        proof {
            let pipes1 = self.pipes@;
            assert(pipes1 =~= pipes0.update(n as int, pipes1[n as int]));
            lemma_output_read(links0, pipes0, pipes1);
            lemma_output_recorded(links0, pipes0, pipes1);
            assert(data@ =~= pipes0[n as int].contents());
            assert forall|rest: Seq<u8>| data@ + #[trigger] self.future(rest) == old(self).future(
                rest,
            ) by {
                lemma_coming_same(links0, pipes0, pipes1, n as int, rest);
                assert(data@ + self.future(rest) =~= (data@ + pipes1[n as int].contents())
                    + coming(links0, pipes1, n as int, rest));
            }
            lemma_work_same(links0, pipes0, pipes1, n as int);
            assert forall|rest: Seq<u8>| #[trigger]
                self.result(rest) == old(self).result(rest) by {
                lemma_coming_same(links0, pipes0, pipes1, n - 1, rest);
            }
            assert forall|rest: Seq<u8>| #[trigger] old(self).takes(rest) implies self.takes(
                rest,
            ) by {
                assert forall|j: int| 0 <= j < n implies (#[trigger] links0[j]).takes(
                    left(pipes1[j], coming(links0, pipes1, j, rest)),
                ) by {
                    lemma_coming_same(links0, pipes0, pipes1, j, rest);
                }
            }
        }
        data
    }

    /// Reads output of a pipeline whose input is closed, up to so many bytes, running it as long as
    /// there is none. No bytes mean the end of the output. It fails only where a stage cannot take
    /// its input.
    pub fn read_output(&mut self, max: usize) -> (r: Result<Vec<u8>, ()>)
        requires
            old(self).wf(),
            old(self).closed(),
            max > 0,
        ensures
            r matches Ok(data) ==> {
                &&& final(self).wf()
                &&& final(self).closed()
                &&& data@.len() <= max
                &&& data@ + final(self).future(Seq::empty()) == old(self).future(Seq::empty())
                &&& data@.len() == 0 <==> old(self).future(Seq::empty()).len() == 0
                &&& old(self).takes(Seq::empty()) ==> final(self).takes(Seq::empty())
                &&& final(self).result(Seq::empty()) == old(self).result(Seq::empty())
            },
            old(self).takes(Seq::empty()) ==> r is Ok,
    {
        let ghost e = Seq::<u8>::empty();
        let n: usize = self.links.len();
        loop
            invariant
                self.wf(),
                self.closed(),
                n == self.links@.len(),
                max > 0,
                e == Seq::<u8>::empty(),
                self.future(e) == old(self).future(e),
                old(self).takes(e) ==> self.takes(e),
                self.result(e) == old(self).result(e),
            decreases self.work_left(),
        {
            let ghost links0 = self.links@;
            let ghost pipes0 = self.pipes@;
            if self.pipes[n].len() > 0 {
                let ghost before = *self;
                let data = self.pipes[n].read(max);
                proof {
                    let pipes1 = self.pipes@;
                    lemma_output_read(links0, pipes0, pipes1);
                    lemma_output_recorded(links0, pipes0, pipes1);
                    lemma_coming_same(links0, pipes0, pipes1, n as int, e);
                    lemma_coming_same(links0, pipes0, pipes1, n - 1, e);
                    assert(data@ + self.future(e) =~= (data@ + pipes1[n as int].contents())
                        + coming(links0, pipes1, n as int, e));
                    if before.takes(e) {
                        assert forall|j: int| 0 <= j < n implies (#[trigger] links0[j]).takes(
                            left(pipes1[j], coming(links0, pipes1, j, e)),
                        ) by {
                            lemma_coming_same(links0, pipes0, pipes1, j, e);
                        }
                    }
                }
                return Ok(data);
            }
            match self.round() {
                Round::Stuck => {
                    return Err(());
                },
                Round::Idle => {
                    proof {
                        law_pipeline_never_deadlocks(self.links@, self.pipes@);
                        assert(self.links@[n - 1].exited);
                        assert(self.future(e) =~= Seq::<u8>::empty());
                    }
                    let none: Vec<u8> = Vec::new();
                    assert(none@ + self.future(e) =~= self.future(e));
                    return Ok(none);
                },
                Round::Progressed => {},
            }
        }
    }

    /// Runs the pipeline to its end and takes all its output and the exit status of its last stage.
    /// It always ends; it fails only where a stage cannot take its input.
    pub fn run(&mut self) -> (r: Result<PipelineOutput, ()>)
        requires
            old(self).wf(),
            old(self).closed(),
        ensures
            r matches Ok(out) ==> {
                &&& out.stdout@ == old(self).future(Seq::empty())
                &&& out.status == old(self).result(Seq::empty())
                &&& final(self).wf()
                &&& final(self).over()
                &&& same_stages(
                    old(self).links@,
                    old(self).pipes@,
                    final(self).links@,
                    final(self).pipes@,
                )
            },
            old(self).takes(Seq::empty()) ==> r is Ok,
    {
        let ghost e = Seq::<u8>::empty();
        let mut out = self.drain();
        loop
            invariant
                self.wf(),
                self.closed(),
                e == Seq::<u8>::empty(),
                self.pipes@[self.links@.len() as int].contents().len() == 0,
                out@ + self.future(e) == old(self).future(e),
                old(self).takes(e) ==> self.takes(e),
                self.result(e) == old(self).result(e),
                same_stages(old(self).links@, old(self).pipes@, self.links@, self.pipes@),
            ensures
                self.wf(),
                self.over(),
                same_stages(old(self).links@, old(self).pipes@, self.links@, self.pipes@),
                out@ + self.future(e) == old(self).future(e),
                self.future(e).len() == 0,
                self.result(e) == old(self).result(e),
                self.links@[self.links@.len() - 1].exited,
            decreases self.work_left(),
        {
            let ghost before = *self;
            match self.round() {
                Round::Stuck => {
                    return Err(());
                },
                Round::Idle => {
                    proof {
                        lemma_same_stages_chain(
                            old(self).links@,
                            old(self).pipes@,
                            before.links@,
                            before.pipes@,
                            self.links@,
                            self.pipes@,
                        );
                        law_pipeline_never_deadlocks(self.links@, self.pipes@);
                        let n = self.links@.len() as int;
                        assert(self.links@[n - 1].exited);
                        assert(coming(self.links@, self.pipes@, n, e).len() == 0);
                        assert(self.future(e) == before.future(e));
                    }
                    break;
                },
                Round::Progressed => {
                    let ghost mid = *self;
                    let ghost so_far = out@;
                    let more = self.drain();
                    out.extend_from_slice(more.as_slice());
                    proof {
                        lemma_same_stages_chain(
                            old(self).links@,
                            old(self).pipes@,
                            before.links@,
                            before.pipes@,
                            mid.links@,
                            mid.pipes@,
                        );
                        lemma_same_stages_chain(
                            old(self).links@,
                            old(self).pipes@,
                            mid.links@,
                            mid.pipes@,
                            self.links@,
                            self.pipes@,
                        );
                        assert(out@ =~= so_far + more@);
                        assert(more@ + self.future(e) == mid.future(e));
                        assert(so_far + (more@ + self.future(e)) =~= (so_far + more@)
                            + self.future(e));
                    }
                },
            }
        }
        proof {
            assert(self.future(e) =~= Seq::<u8>::empty());
            assert(out@ + self.future(e) =~= out@);
            assert(self.links.len() > 0);
        }
        let status: i32 = self.links[self.links.len() - 1].status();
        Ok(PipelineOutput { stdout: out, status })
    }
}

/// Reading the last pipe leaves the stages and pipes fitting together.
proof fn lemma_output_read(links: Seq<StageLink>, pipes: Seq<Pipe>, after: Seq<Pipe>)
    requires
        connected(links, pipes),
        after.len() == pipes.len(),
        forall|k: int| 0 <= k < links.len() ==> #[trigger] after[k] == pipes[k],
        after[links.len() as int].capacity() == pipes[links.len() as int].capacity(),
        after[links.len() as int].read_closed() == pipes[links.len() as int].read_closed(),
        after[links.len() as int].write_closed() == pipes[links.len() as int].write_closed(),
    ensures
        connected(links, after),
{
    assert forall|j: int| 0 <= j < links.len() implies (#[trigger] links[j]).exited == after[j
        + 1].write_closed() by {
        assert(links[j].exited == pipes[j + 1].write_closed());
    }
    assert forall|j: int| 0 <= j < links.len() implies reader_matches(
        #[trigger] links[j],
        after[j],
    ) by {
        assert(reader_matches(links[j], pipes[j]));
    }
    assert forall|j: int| 1 <= j < after.len() implies (#[trigger] after[j]).capacity() > 0 by {
        assert(pipes[j].capacity() > 0);
    }
}

/// Reading the last pipe leaves the record and every stage the same.
proof fn lemma_output_recorded(links: Seq<StageLink>, pipes: Seq<Pipe>, after: Seq<Pipe>)
    requires
        connected(links, pipes),
        recorded(links, pipes),
        after.len() == pipes.len(),
        forall|k: int| 0 <= k < links.len() ==> #[trigger] after[k] == pipes[k],
        after[links.len() as int].capacity() == pipes[links.len() as int].capacity(),
        after[links.len() as int].read_closed() == pipes[links.len() as int].read_closed(),
        after[links.len() as int].written() == pipes[links.len() as int].written(),
        after[links.len() as int].contents().len() <= pipes[links.len() as int].contents().len(),
    ensures
        recorded(links, after),
        same_stages(links, pipes, links, after),
{
    reveal(recorded);
    let n = links.len() as int;
    assert forall|j: int| 0 <= j < links.len() implies logged(
        #[trigger] links[j],
        after[j],
        after[j + 1],
    ) by {
        assert(logged(links[j], pipes[j], pipes[j + 1]));
        assert(after[j] == pipes[j]);
        assert(after[j + 1].written() == pipes[j + 1].written());
    }
    assert forall|j: int| 0 <= j < after.len() implies (#[trigger] after[j]).contents().len()
        <= after[j].capacity() by {
        assert(pipes[j].contents().len() <= pipes[j].capacity());
    }
    assert forall|k: int| 0 <= k < links.len() implies #[trigger] same_stage(
        links,
        pipes,
        links,
        after,
        k,
    ) by {
        assert(after[k] == pipes[k]);
        assert(after[k + 1].written() == pipes[k + 1].written());
        assert forall|rest: Seq<u8>|
            result_at(links, after, k, rest) == result_at(links, pipes, k, rest) by {
            lemma_coming_same(links, pipes, after, k, rest);
        }
        assert forall|rest: Seq<u8>|
            #![trigger stream_at(links, after, k, rest)]
            stream_at(links, after, k, rest) == stream_at(links, pipes, k, rest) by {
            lemma_coming_same(links, pipes, after, k + 1, rest);
        }
    }
}

proof fn lemma_coming_same(
    links: Seq<StageLink>,
    pipes: Seq<Pipe>,
    after: Seq<Pipe>,
    j: int,
    rest: Seq<u8>,
)
    requires
        0 <= j <= links.len(),
        links.len() > 0,
        pipes.len() == links.len() + 1,
        after.len() == pipes.len(),
        forall|k: int| 0 <= k < links.len() ==> #[trigger] after[k] == pipes[k],
    ensures
        coming(links, after, j, rest) == coming(links, pipes, j, rest),
    decreases j,
{
    assert(after[0] == pipes[0]);
    if j > 0 {
        lemma_coming_same(links, pipes, after, j - 1, rest);
        assert(after[j - 1] == pipes[j - 1]);
    }
}

proof fn lemma_work_same(links: Seq<StageLink>, pipes: Seq<Pipe>, after: Seq<Pipe>, n: int)
    requires
        0 <= n <= links.len(),
        links.len() > 0,
        pipes.len() == links.len() + 1,
        after.len() == pipes.len(),
        forall|k: int| 0 <= k < links.len() ==> #[trigger] after[k] == pipes[k],
    ensures
        work(links, after, n, Seq::empty()) == work(links, pipes, n, Seq::empty()),
    decreases n,
{
    if n > 0 {
        lemma_work_same(links, pipes, after, n - 1);
        lemma_coming_same(links, pipes, after, n, Seq::empty());
    }
}

/// Whether a stage passes its input on through a filter or as it is.
pub open spec fn is_link(stage: StreamingPipelineStage) -> bool {
    is_filter(stage) || stage is Tee
}

/// Whether all stages pass their input on.
pub open spec fn all_filters(stages: Seq<StreamingPipelineStage>) -> bool {
    forall|i: int| 0 <= i < stages.len() ==> is_link(#[trigger] stages[i])
}

/// Whether every stage of a pipeline can take what the stages before it write for an input.
pub open spec fn pipeline_takes(
    stages: Seq<StreamingPipelineStage>,
    fed: bool,
    input: Seq<u8>,
) -> bool {
    forall|i: int|
        0 <= i < stages.len() ==> link_takes(
            #[trigger] stages[i],
            fed && i == 0,
            composed(stages.take(i), fed, input),
        )
}

/// A pipeline of two parts works as the second part on what the first one writes.
pub proof fn law_pipelines_compose(
    a: Seq<StreamingPipelineStage>,
    b: Seq<StreamingPipelineStage>,
    fed: bool,
    input: Seq<u8>,
)
    requires
        a.len() > 0 || !fed,
    ensures
        composed(a + b, fed, input) == composed(b, false, composed(a, fed, input)),
    decreases b.len(),
{
    if b.len() == 0 {
        assert(a + b =~= a);
    } else {
        law_pipelines_compose(a, b.drop_last(), fed, input);
        assert((a + b).drop_last() =~= a + b.drop_last());
        assert((a + b).last() == b.last());
    }
}

/// `cat` and `tee` in a pipeline change nothing of what it writes.
pub proof fn law_cat_and_tee_are_neutral(
    a: Seq<StreamingPipelineStage>,
    stage: StreamingPipelineStage,
    b: Seq<StreamingPipelineStage>,
    input: Seq<u8>,
)
    requires
        stage is Cat || stage is Tee,
    ensures
        composed(a.push(stage) + b, false, input) == composed(a + b, false, input),
{
    let c = a.push(stage);
    law_pipelines_compose(c, b, false, input);
    law_pipelines_compose(a, b, false, input);
    assert(c.drop_last() =~= a);
    crate::pipeline::reader::law_cat_is_identity(composed(a, false, input));
}

proof fn lemma_fresh(
    stages: Seq<StreamingPipelineStage>,
    links: Seq<StageLink>,
    pipes: Seq<Pipe>,
    fed: bool,
    j: int,
    rest: Seq<u8>,
)
    requires
        links.len() > 0,
        links.len() == stages.len(),
        pipes.len() == links.len() + 1,
        0 <= j <= links.len(),
        forall|k: int|
            1 <= k < pipes.len() ==> (#[trigger] pipes[k]).contents() == Seq::<u8>::empty(),
        forall|k: int, input: Seq<u8>|
            0 <= k < links.len() ==> #[trigger] links[k].future(input) == link_output(
                stages[k],
                fed && k == 0,
                input,
            ),
    ensures
        left(pipes[j], coming(links, pipes, j, rest)) == composed(
            stages.take(j),
            fed,
            left(pipes[0], coming(links, pipes, 0, rest)),
        ),
    decreases j,
{
    let first = left(pipes[0], coming(links, pipes, 0, rest));
    if j == 0 {
        assert(stages.take(0).len() == 0);
    } else {
        lemma_fresh(stages, links, pipes, fed, j - 1, rest);
        let input = left(pipes[j - 1], coming(links, pipes, j - 1, rest));
        assert(stages.take(j).drop_last() =~= stages.take(j - 1));
        assert(stages.take(j).last() == stages[j - 1]);
        assert(links[j - 1].future(input) == link_output(stages[j - 1], fed && j == 1, input));
        assert(left(pipes[j], coming(links, pipes, j, rest)) =~= coming(links, pipes, j, rest));
    }
}

/// The exit status of a pipeline for an input: that of its last stage.
pub open spec fn composed_status(
    stages: Seq<StreamingPipelineStage>,
    fed: bool,
    input: Seq<u8>,
) -> i32 {
    if stages.len() == 0 {
        0
    } else {
        link_status(stages.last(), composed(stages.drop_last(), fed, input))
    }
}

/// An input: what is there, and where more may come the rest.
pub open spec fn given(source: Seq<u8>, open: bool, rest: Seq<u8>) -> Seq<u8> {
    source + (if open {
        rest
    } else {
        Seq::empty()
    })
}

/// Whether a pipeline stands for stages on an input and no byte of it has moved: what each stage
/// writes and its exit status are those of the stage for what comes to it.
pub open spec fn is_fresh(
    net: Network,
    stages: Seq<StreamingPipelineStage>,
    fed: bool,
    source: Seq<u8>,
    open: bool,
) -> bool {
    let links = net.links@;
    let pipes = net.pipes@;
    &&& links.len() == stages.len()
    &&& forall|k: int|
        0 <= k < links.len() ==> (#[trigger] links[k]).tee == (stages[k] is Tee) && !links[k].exited
            && (links[k].tee ==> links[k].body is Relay) && links[k].body is Head == (stages[k]
            is Head && !(fed && k == 0)) && links[k].body.stderr() == Seq::<u8>::empty()
            && !links[k].body.failed() && begins_as(links[k].begun@, stages[k])
    &&& forall|k: int, rest: Seq<u8>|
        0 <= k < stages.len() ==> #[trigger] result_at(links, pipes, k, rest) == link_status(
            stages[k],
            composed(stages.take(k), fed, given(source, open, rest)),
        )
    &&& forall|k: int, rest: Seq<u8>|
        0 <= k < stages.len() ==> #[trigger] stream_at(links, pipes, k, rest) == composed(
            stages.take(k + 1),
            fed,
            given(source, open, rest),
        )
}

/// Whether each stage sends its standard error to its output where `both` says so of it, except
/// for `head`, which writes none. The first stage is number `first`.
pub open spec fn pipe_where(links: Seq<StageLink>, both: Seq<bool>, first: int) -> bool {
    forall|k: int|
        0 <= k < links.len() ==> (#[trigger] links[k]).body.pipes_stderr() == (links[k].body
            is Relay && both[first + k])
}

/// So many times no.
pub fn none_of(n: usize) -> (r: Vec<bool>)
    ensures
        r@ == Seq::new(n as nat, |i: int| false),
{
    let mut r: Vec<bool> = Vec::new();
    let mut i: usize = 0;
    while i < n
        invariant
            i <= n,
            r@ == Seq::new(i as nat, |k: int| false),
        decreases n - i,
    {
        r.push(false);
        i = i + 1;
        assert(r@ =~= Seq::new(i as nat, |k: int| false));
    }
    r
}

/// Makes a stage a link of a pipeline.
fn make_link(stage: StreamingPipelineStage, relayed: bool, pipe_stderr: bool) -> (r: Option<
    StageLink,
>)
    ensures
        match r {
            Some(link) => {
                &&& is_link(stage)
                &&& link.wf()
                &&& !link.exited
                &&& link.tee == (stage is Tee)
                &&& link.tee ==> link.body is Relay
                &&& link.body is Head == (stage is Head && !relayed)
                &&& link.body.stderr() == Seq::<u8>::empty()
                &&& link.body.pipes_stderr() == (pipe_stderr && link.body is Relay)
                &&& !link.body.failed()
                &&& begins_as(link.begun@, stage)
                &&& forall|input: Pipe, output: Pipe|
                    input.taken().len() == 0 && output.written().len() == 0 ==> #[trigger] logged(
                        link,
                        input,
                        output,
                    )
                &&& forall|input: Seq<u8>| #[trigger]
                    link.future(input) == link_output(stage, relayed, input)
                &&& forall|input: Seq<u8>| #[trigger]
                    link.takes(input) == link_takes(stage, relayed, input)
                &&& forall|input: Seq<u8>| #[trigger]
                    link.result(input) == link_status(stage, input)
            },
            None => !is_link(stage),
        },
{
    match stage {
        StreamingPipelineStage::Tee(_) => {
            match wrap_non_tee_streaming_stage(StreamingPipelineStage::Cat) {
                Some(reader) => {
                    proof {
                        assert forall|input: Seq<u8>| #[trigger] reader.future(input) == input by {
                            crate::pipeline::reader::law_cat_is_identity(input);
                        }
                    }
                    let link = StageLink::relay(reader, "tee".to_owned(), true, pipe_stderr);
                    proof {
                        reveal(begins_as);
                        assert forall|input: Pipe, output: Pipe|
                            input.taken().len() == 0 && output.written().len()
                                == 0 implies #[trigger] logged(link, input, output) by {
                            assert(link.copied@ =~= link.body.sent());
                            assert(link.body.sent() =~= output.written());
                        }
                    }
                    Some(link)
                },
                None => None,
            }
        },
        StreamingPipelineStage::Head(mode) if !relayed => {
            let link = StageLink::head(mode);
            proof {
                reveal(begins_as);
            }
            Some(link)
        },
        other => match wrap_non_tee_streaming_stage(other) {
            Some(reader) => {
                let link = StageLink::relay(reader, "stage".to_owned(), false, pipe_stderr);
                proof {
                    assert forall|input: Pipe, output: Pipe|
                        input.taken().len() == 0 && output.written().len()
                            == 0 implies #[trigger] logged(link, input, output) by {
                        assert(link.body.sent() =~= output.written());
                    }
                    reveal(begins_as);
                }
                Some(link)
            },
            None => None,
        },
    }
}

impl Network {
    /// A pipeline of stages with the pipe that its input is written to or stands in. Its pipes
    /// hold `capacity` bytes. Stages that do not pass their input on make no pipeline.
    fn build(
        source: Pipe,
        stages: Vec<StreamingPipelineStage>,
        fed: bool,
        capacity: usize,
        pipe_stderr: &Vec<bool>,
        first: usize,
    ) -> (r: Option<Network>)
        requires
            capacity > 0,
            stages@.len() > 0,
            first + stages@.len() <= pipe_stderr@.len(),
            !source.read_closed(),
            source.taken().len() == 0,
            source.contents().len() <= source.capacity(),
        ensures
            match r {
                Some(net) => {
                    &&& all_filters(stages@)
                    &&& is_fresh(
                        net,
                        stages@,
                        fed,
                        source.contents(),
                        !source.write_closed(),
                    )
                    &&& pipe_where(net.links@, pipe_stderr@, first as int)
                    &&& net.wf()
                    &&& net.closed() == source.write_closed()
                    &&& net.links@.len() == stages@.len()
                    &&& forall|k: int|
                        1 <= k < net.pipes@.len() ==> (#[trigger] net.pipes@[k]).capacity()
                            == capacity
                    &&& net.pipes@[0] == source
                    &&& forall|rest: Seq<u8>| #[trigger]
                        net.future(rest) == composed(
                            stages@,
                            fed,
                            source.contents() + (if source.write_closed() {
                                Seq::empty()
                            } else {
                                rest
                            }),
                        )
                    &&& forall|rest: Seq<u8>| #[trigger]
                        net.takes(rest) == pipeline_takes(
                            stages@,
                            fed,
                            source.contents() + (if source.write_closed() {
                                Seq::empty()
                            } else {
                                rest
                            }),
                        )
                    &&& forall|rest: Seq<u8>| #[trigger]
                        net.result(rest) == composed_status(
                            stages@,
                            fed,
                            source.contents() + (if source.write_closed() {
                                Seq::empty()
                            } else {
                                rest
                            }),
                        )
                },
                None => !all_filters(stages@),
            },
    {
        let ghost all = stages@;
        let count: usize = stages.len();
        let mut todo = stages;
        let mut links: Vec<StageLink> = Vec::new();
        let mut pipes: Vec<Pipe> = Vec::new();
        let ghost source0 = source;
        pipes.push(source);
        let mut i: usize = 0;
        while todo.len() > 0
            invariant
                i + todo@.len() == all.len(),
                count == all.len(),
                all == stages@,
                first + all.len() <= pipe_stderr@.len(),
                pipe_where(links@, pipe_stderr@, first as int),
                todo@ == all.skip(i as int),
                links@.len() == i,
                pipes@.len() == i + 1,
                pipes@[0] == source0,
                capacity > 0,
                forall|k: int| 0 <= k < i ==> is_link(#[trigger] all[k]),
                forall|k: int| 0 <= k < i ==> (#[trigger] links@[k]).wf() && !links@[k].exited,
                forall|k: int|
                    0 <= k < i ==> (#[trigger] links@[k]).tee == (all[k] is Tee)
                        && (links@[k].tee ==> links@[k].body is Relay) && links@[k].body is Head
                        == (all[k] is Head && !(fed && k == 0)) && links@[k].body.stderr() == Seq::<
                        u8,
                    >::empty() && !links@[k].body.failed() && begins_as(links@[k].begun@, all[k]),
                forall|k: int, x: Pipe, y: Pipe|
                    0 <= k < i && x.taken().len() == 0 && y.written().len() == 0
                        ==> #[trigger] logged(links@[k], x, y),
                forall|k: int, input: Seq<u8>|
                    0 <= k < i ==> #[trigger] links@[k].future(input) == link_output(
                        all[k],
                        fed && k == 0,
                        input,
                    ),
                forall|k: int, input: Seq<u8>|
                    0 <= k < i ==> #[trigger] links@[k].takes(input) == link_takes(
                        all[k],
                        fed && k == 0,
                        input,
                    ),
                forall|k: int, input: Seq<u8>|
                    0 <= k < i ==> #[trigger] links@[k].result(input) == link_status(
                        all[k],
                        input,
                    ),
                forall|k: int|
                    1 <= k < pipes@.len() ==> (#[trigger] pipes@[k]).contents() == Seq::<
                        u8,
                    >::empty() && pipes@[k].capacity() == capacity && !pipes@[k].read_closed()
                        && !pipes@[k].write_closed() && pipes@[k].taken() == Seq::<u8>::empty(),
                source0.taken().len() == 0,
                source0.contents().len() <= source0.capacity(),
            decreases todo@.len(),
        {
            let stage = todo.remove(0);
            proof {
                assert(stage == all[i as int]);
                assert(todo@ =~= all.skip(i + 1));
            }
            assert(pipe_stderr.len() == pipe_stderr@.len());
            let piped: bool = pipe_stderr[first + i];
            match make_link(stage, fed && i == 0, piped) {
                Some(link) => {
                    let ghost before = links@;
                    links.push(link);
                    assert forall|k: int| 0 <= k < links@.len() implies (
                    #[trigger] links@[k]).body.pipes_stderr() == (links@[k].body is Relay
                        && pipe_stderr@[first + k]) by {
                        if k < before.len() {
                            assert(links@[k] == before[k]);
                        }
                    }
                    pipes.push(Pipe::new(capacity));
                },
                None => {
                    assert(!is_link(all[i as int]));
                    return None;
                },
            }
            i = i + 1;
        }
        let net = Network { links, pipes };
        proof {
            let n = all.len() as int;
            let ls = net.links@;
            let ps = net.pipes@;
            assert(recorded(ls, ps)) by {
                reveal(recorded);
                assert forall|k: int| 0 <= k < ls.len() implies logged(
                    #[trigger] ls[k],
                    ps[k],
                    ps[k + 1],
                ) by {
                    assert(ps[k].taken().len() == 0);
                    assert(ps[k + 1].written().len() == 0);
                }
                assert forall|k: int| 0 <= k < ps.len() implies (#[trigger] ps[k]).contents().len()
                    <= ps[k].capacity() by {}
            }
            let open = !source0.write_closed();
            assert forall|k: int, rest: Seq<u8>|
                0 <= k < all.len() implies #[trigger] result_at(ls, ps, k, rest) == link_status(
                all[k],
                composed(all.take(k), fed, given(source0.contents(), open, rest)),
            ) by {
                lemma_fresh(all, ls, ps, fed, k, rest);
            }
            assert forall|k: int, rest: Seq<u8>|
                0 <= k < all.len() implies #[trigger] stream_at(ls, ps, k, rest) == composed(
                all.take(k + 1),
                fed,
                given(source0.contents(), open, rest),
            ) by {
                lemma_fresh(all, ls, ps, fed, k + 1, rest);
                assert(ps[k + 1].contents() =~= Seq::<u8>::empty());
                assert(stream_at(ls, ps, k, rest) =~= left(
                    ps[k + 1],
                    coming(ls, ps, k + 1, rest),
                ));
            }
            assert forall|rest: Seq<u8>| #[trigger]
                net.future(rest) == composed(
                    all,
                    fed,
                    source0.contents() + (if source0.write_closed() {
                        Seq::empty()
                    } else {
                        rest
                    }),
                ) by {
                lemma_fresh(all, ls, ps, fed, n, rest);
                assert(all.take(n) =~= all);
            }
            assert forall|rest: Seq<u8>| #[trigger]
                net.result(rest) == composed_status(
                    all,
                    fed,
                    source0.contents() + (if source0.write_closed() {
                        Seq::empty()
                    } else {
                        rest
                    }),
                ) by {
                lemma_fresh(all, ls, ps, fed, n - 1, rest);
                assert(all.take(n - 1) =~= all.drop_last());
            }
            assert forall|rest: Seq<u8>| #[trigger]
                net.takes(rest) == pipeline_takes(
                    all,
                    fed,
                    source0.contents() + (if source0.write_closed() {
                        Seq::empty()
                    } else {
                        rest
                    }),
                ) by {
                let first = left(ps[0], coming(ls, ps, 0, rest));
                assert forall|k: int| 0 <= k < n implies (#[trigger] ls[k]).takes(
                    left(ps[k], coming(ls, ps, k, rest)),
                ) == link_takes(all[k], fed && k == 0, composed(all.take(k), fed, first)) by {
                    lemma_fresh(all, ls, ps, fed, k, rest);
                }
                if net.takes(rest) {
                    assert forall|k: int| 0 <= k < n implies link_takes(
                        #[trigger] all[k],
                        fed && k == 0,
                        composed(all.take(k), fed, first),
                    ) by {
                        assert(ls[k].takes(left(ps[k], coming(ls, ps, k, rest))));
                    }
                }
                if pipeline_takes(all, fed, first) {
                    assert forall|k: int| 0 <= k < n implies (#[trigger] ls[k]).takes(
                        left(ps[k], coming(ls, ps, k, rest)),
                    ) by {
                        assert(link_takes(all[k], fed && k == 0, composed(all.take(k), fed, first)));
                    }
                }
            }
        }
        Some(net)
    }

    /// A pipeline whose input is written to it bit by bit.
    pub fn open(stages: Vec<StreamingPipelineStage>, capacity: usize) -> (r: Option<Network>)
        requires
            capacity > 0,
            stages@.len() > 0,
        ensures
            match r {
                Some(net) => {
                    &&& all_filters(stages@)
                    &&& net.wf()
                    &&& !net.closed()
                    &&& net.pipes@[0].capacity() > 0
                    &&& is_fresh(net, stages@, true, Seq::empty(), true)
                    &&& forall|rest: Seq<u8>| #[trigger]
                        net.future(rest) == composed(stages@, true, rest)
                    &&& forall|rest: Seq<u8>| #[trigger]
                        net.takes(rest) == pipeline_takes(stages@, true, rest)
                    &&& forall|rest: Seq<u8>| #[trigger]
                        net.result(rest) == composed_status(stages@, true, rest)
                },
                None => !all_filters(stages@),
            },
    {
        let both = none_of(stages.len());
        Network::open_behind(stages, true, capacity, &both, 0)
    }

    /// A pipeline whose input is written to it bit by bit: from outside where `fed` says so, and by
    /// a process of the same pipeline otherwise.
    pub fn open_behind(
        stages: Vec<StreamingPipelineStage>,
        fed: bool,
        capacity: usize,
        pipe_stderr: &Vec<bool>,
        first: usize,
    ) -> (r: Option<Network>)
        requires
            capacity > 0,
            stages@.len() > 0,
            first + stages@.len() <= pipe_stderr@.len(),
        ensures
            match r {
                Some(net) => {
                    &&& all_filters(stages@)
                    &&& net.wf()
                    &&& !net.closed()
                    &&& net.links@.len() == stages@.len()
                    &&& pipe_where(net.links@, pipe_stderr@, first as int)
                    &&& net.pipes@[0].capacity() > 0
                    &&& net.pipes@[0].contents().len() == 0
                    &&& net.pipes@[0].written().len() == 0
                    &&& !net.pipes@[0].read_closed()
                    &&& forall|k: int|
                        1 <= k < net.pipes@.len() ==> (#[trigger] net.pipes@[k]).capacity()
                            == capacity
                    &&& is_fresh(net, stages@, fed, Seq::empty(), true)
                    &&& forall|rest: Seq<u8>| #[trigger]
                        net.future(rest) == composed(stages@, fed, rest)
                    &&& forall|rest: Seq<u8>| #[trigger]
                        net.takes(rest) == pipeline_takes(stages@, fed, rest)
                    &&& forall|rest: Seq<u8>| #[trigger]
                        net.result(rest) == composed_status(stages@, fed, rest)
                },
                None => !all_filters(stages@),
            },
    {
        let source = Pipe::new(capacity);
        proof {
            assert forall|rest: Seq<u8>| #[trigger] (source.contents() + rest) == rest by {
                assert(source.contents() + rest =~= rest);
            }
        }
        Network::build(source, stages, fed, capacity, pipe_stderr, first)
    }

    /// Takes note that a file of a `tee` that is not over could not be written: the stage complains,
    /// and its status is one. Where its standard error goes to its output, the complaint comes
    /// there behind what waits, and the stages behind it read it. Nothing else changes.
    pub fn target_failed(&mut self, k: usize, path: &str, err: &str)
        requires
            old(self).wf(),
            k < old(self).links@.len(),
            old(self).links@[k as int].body is Relay,
            !old(self).links@[k as int].exited,
        ensures
            final(self).wf(),
            final(self).pipes@ == old(self).pipes@,
            final(self).links@.len() == old(self).links@.len(),
            forall|j: int|
                0 <= j < old(self).links@.len() && j != k ==> #[trigger] final(self).links@[j]
                    == old(self).links@[j],
            complained(
                old(self).links@[k as int],
                final(self).links@[k as int],
                tee_error_message(path@, err@),
            ),
            final(self).closed() == old(self).closed(),
            !old(self).links@[k as int].body.pipes_stderr() ==> {
                &&& idle_from(old(self).links@, old(self).pipes@, 0) ==> idle_from(
                    final(self).links@,
                    final(self).pipes@,
                    0,
                )
                &&& final(self).work_left() == old(self).work_left()
                &&& forall|rest: Seq<u8>| #[trigger]
                    final(self).future(rest) == old(self).future(rest)
                &&& forall|rest: Seq<u8>| #[trigger] final(self).takes(rest) == old(self).takes(rest)
            },
            forall|j: int, rest: Seq<u8>|
                0 <= j < old(self).links@.len() && (j <= k || !old(
                    self,
                ).links@[k as int].body.pipes_stderr()) ==> #[trigger] stream_at(
                    final(self).links@,
                    final(self).pipes@,
                    j,
                    rest,
                ) == if j == k && old(self).links@[k as int].body.pipes_stderr() {
                    with_message(
                        stream_at(old(self).links@, old(self).pipes@, j, rest),
                        reached(old(self).links@, old(self).pipes@, j),
                        encode_utf8(tee_error_message(path@, err@)),
                    )
                } else {
                    stream_at(old(self).links@, old(self).pipes@, j, rest)
                },
            forall|j: int, rest: Seq<u8>|
                0 <= j < old(self).links@.len() && (j <= k || !old(
                    self,
                ).links@[k as int].body.pipes_stderr()) ==> #[trigger] result_at(
                    final(self).links@,
                    final(self).pipes@,
                    j,
                    rest,
                ) == if j == k {
                    1
                } else {
                    result_at(old(self).links@, old(self).pipes@, j, rest)
                },
    {
        let ghost links0 = self.links@;
        let ghost pipes = self.pipes@;
        let ghost piped = self.links@[k as int].body.pipes_stderr();
        assert(links0[k as int].wf());
        self.links[k].target_failed(path, err);
        proof {
            let links1 = self.links@;
            let n = links0.len() as int;
            assert(links1 =~= links0.update(k as int, links1[k as int]));
            assert(connected(links1, pipes)) by {
                assert forall|j: int| 0 <= j < links1.len() implies (#[trigger] links1[j]).exited
                    == pipes[j + 1].write_closed() by {
                    assert(links0[j].exited == pipes[j + 1].write_closed());
                }
                assert forall|j: int| 0 <= j < links1.len() implies reader_matches(
                    #[trigger] links1[j],
                    pipes[j],
                ) by {
                    assert(reader_matches(links0[j], pipes[j]));
                }
                assert forall|j: int| 0 <= j < links1.len() implies (
                #[trigger] links1[j]).wf() by {
                    assert(links0[j].wf());
                }
            }
            assert(recorded(links1, pipes)) by {
                reveal(recorded);
                assert forall|j: int| 0 <= j < links1.len() implies logged(
                    #[trigger] links1[j],
                    pipes[j],
                    pipes[j + 1],
                ) by {
                    assert(logged(links0[j], pipes[j], pipes[j + 1]));
                }
            }
            assert forall|j: int, rest: Seq<u8>|
                0 <= j <= n && (j <= k || !piped) implies #[trigger] coming(
                links1,
                pipes,
                j,
                rest,
            ) == coming(links0, pipes, j, rest) by {
                if j <= k {
                    lemma_coming_before(links0, links1, pipes, k as int, j, rest);
                } else {
                    lemma_coming_alike(links0, links1, pipes, k as int, j, rest);
                }
            }
            assert forall|rest: Seq<u8>| piped implies #[trigger] stream_at(
                links1,
                pipes,
                k as int,
                rest,
            ) == with_message(
                stream_at(links0, pipes, k as int, rest),
                reached(links0, pipes, k as int),
                encode_utf8(tee_error_message(path@, err@)),
            ) by {
                let m = encode_utf8(tee_error_message(path@, err@));
                let w = pipes[k + 1].written();
                let v = links0[k as int].body.waiting();
                let u = links0[k as int].body.unread(
                    left(pipes[k as int], coming(links0, pipes, k as int, rest)),
                );
                assert(coming(links1, pipes, k as int, rest) == coming(
                    links0,
                    pipes,
                    k as int,
                    rest,
                ));
                let a = stream_at(links0, pipes, k as int, rest);
                assert(a =~= w + (v + u));
                assert(a.take((w + v).len() as int) =~= w + v);
                assert(a.skip((w + v).len() as int) =~= u);
                assert(stream_at(links1, pipes, k as int, rest) =~= (w + v) + m + u);
            }
            if !piped {
                assert forall|rest: Seq<u8>| #[trigger] self.takes(rest) == old(self).takes(
                    rest,
                ) by {
                    if old(self).takes(rest) {
                        assert forall|j: int| 0 <= j < n implies (#[trigger] links1[j]).takes(
                            left(pipes[j], coming(links1, pipes, j, rest)),
                        ) by {
                            assert(links0[j].takes(
                                left(pipes[j], coming(links0, pipes, j, rest)),
                            ));
                        }
                    }
                    if self.takes(rest) {
                        assert forall|j: int| 0 <= j < n implies (#[trigger] links0[j]).takes(
                            left(pipes[j], coming(links0, pipes, j, rest)),
                        ) by {
                            assert(links1[j].takes(
                                left(pipes[j], coming(links1, pipes, j, rest)),
                            ));
                        }
                    }
                }
                lemma_work_alike(links0, links1, pipes, k as int, n);
            }
            if !piped && idle_from(links0, pipes, 0) {
                assert forall|j: int| 0 <= j < n implies (#[trigger] links1[j]).exited || starving(
                    pipes,
                    j,
                ) || blocked(pipes, j) by {
                    assert(links0[j].exited || starving(pipes, j) || blocked(pipes, j));
                }
            }
        }
    }

    /// Whether all stages are over.
    pub fn is_over(&self) -> (r: bool)
        ensures
            r == self.over(),
    {
        let mut i: usize = 0;
        while i < self.links.len()
            invariant
                i <= self.links@.len(),
                forall|k: int| 0 <= k < i ==> (#[trigger] self.links@[k]).exited,
            decreases self.links@.len() - i,
        {
            if !self.links[i].exited {
                assert(!self.links@[i as int].exited);
                return false;
            }
            i = i + 1;
        }
        true
    }

    /// Whether the last stage is over and its output was taken.
    pub fn is_ended(&self) -> (r: bool)
        requires
            self.wf(),
        ensures
            r == (self.links@[self.links@.len() - 1].exited && self.pipes@[
                self.links@.len() as int
            ].contents().len() == 0),
            r ==> forall|rest: Seq<u8>| #[trigger] self.future(rest) == Seq::<u8>::empty(),
    {
        let n: usize = self.links.len();
        proof {
            assert forall|rest: Seq<u8>|
                self.links@[n - 1].exited && self.pipes@[n as int].contents().len()
                    == 0 implies #[trigger] self.future(rest) == Seq::<u8>::empty() by {
                assert(self.future(rest) =~= Seq::<u8>::empty());
            }
        }
        self.links[n - 1].exited && self.pipes[n].len() == 0
    }

    /// A pipeline whose input is there from the beginning.
    pub fn with_source(source: Vec<u8>, stages: Vec<StreamingPipelineStage>, capacity: usize) -> (r:
        Option<Network>)
        requires
            capacity > 0,
            stages@.len() > 0,
        ensures
            match r {
                Some(net) => {
                    &&& all_filters(stages@)
                    &&& net.wf()
                    &&& net.closed()
                    &&& is_fresh(net, stages@, false, source@, false)
                    &&& forall|rest: Seq<u8>| #[trigger]
                        net.future(rest) == composed(stages@, false, source@)
                    &&& forall|rest: Seq<u8>| #[trigger]
                        net.takes(rest) == pipeline_takes(stages@, false, source@)
                    &&& forall|rest: Seq<u8>| #[trigger]
                        net.result(rest) == composed_status(stages@, false, source@)
                },
                None => !all_filters(stages@),
            },
    {
        let pipe = Pipe::filled(source);
        assert(pipe.contents() + Seq::<u8>::empty() =~= source@);
        let both = none_of(stages.len());
        Network::build(pipe, stages, false, capacity, &both, 0)
    }

    /// Writes input, as much as there is room for.
    pub fn feed(&mut self, data: &[u8]) -> (r: WriteResult)
        requires
            old(self).wf(),
            !old(self).closed(),
        ensures
            final(self).wf(),
            !final(self).closed(),
            final(self).links@ == old(self).links@,
            crate::pipeline::process::write_fits(r, data@.len() as int),
            r is Written ==> crate::pipeline::process::taken_by(r) == data@.len(),
            forall|rest: Seq<u8>| #[trigger]
                final(self).future(rest) == old(self).future(
                    data@.take(crate::pipeline::process::taken_by(r)) + rest,
                ),
            forall|rest: Seq<u8>| #[trigger]
                final(self).takes(rest) == old(self).takes(
                    data@.take(crate::pipeline::process::taken_by(r)) + rest,
                ),
            forall|rest: Seq<u8>| #[trigger]
                final(self).result(rest) == old(self).result(
                    data@.take(crate::pipeline::process::taken_by(r)) + rest,
                ),
            r is BrokenPipe ==> old(self).links@[0].ignores(),
            !(r is BrokenPipe) ==> !old(self).links@[0].exited,
            final(self).pipes@.len() == old(self).pipes@.len(),
            final(self).pipes@[final(self).links@.len() as int] == old(self).pipes@[old(
                self,
            ).links@.len() as int],
            crate::pipeline::process::taken_by(r) == 0 && data@.len() > 0 ==> {
                &&& final(self).work_left() == old(self).work_left()
                &&& final(self).pipes@[0].contents() == old(self).pipes@[0].contents()
                &&& r is BrokenPipe || final(self).pipes@[0].contents().len()
                    >= final(self).pipes@[0].capacity()
            },
            final(self).pipes@[0].capacity() == old(self).pipes@[0].capacity(),
            final(self).pipes@[0].written() == old(self).pipes@[0].written() + data@.take(
                crate::pipeline::process::taken_by(r),
            ),
            final(self).pipes@[0].read_closed() == old(self).pipes@[0].read_closed(),
            r is BrokenPipe == old(self).pipes@[0].read_closed(),
            forall|k: int|
                1 <= k < old(self).pipes@.len() ==> #[trigger] final(self).pipes@[k] == old(
                    self,
                ).pipes@[k],
            forall|k: int, rest: Seq<u8>|
                0 <= k < old(self).links@.len() ==> #[trigger] result_at(
                    final(self).links@,
                    final(self).pipes@,
                    k,
                    rest,
                ) == result_at(
                    old(self).links@,
                    old(self).pipes@,
                    k,
                    data@.take(crate::pipeline::process::taken_by(r)) + rest,
                ),
            forall|k: int, rest: Seq<u8>|
                0 <= k < old(self).links@.len() ==> #[trigger] stream_at(
                    final(self).links@,
                    final(self).pipes@,
                    k,
                    rest,
                ) == stream_at(
                    old(self).links@,
                    old(self).pipes@,
                    k,
                    data@.take(crate::pipeline::process::taken_by(r)) + rest,
                ),
            r is BrokenPipe ==> {
                &&& forall|k: int, rest: Seq<u8>|
                    0 <= k < old(self).links@.len() ==> #[trigger] result_at(
                        final(self).links@,
                        final(self).pipes@,
                        k,
                        rest,
                    ) == result_at(old(self).links@, old(self).pipes@, k, Seq::empty())
                &&& forall|k: int, rest: Seq<u8>|
                    0 <= k < old(self).links@.len() ==> #[trigger] stream_at(
                        final(self).links@,
                        final(self).pipes@,
                        k,
                        rest,
                    ) == stream_at(old(self).links@, old(self).pipes@, k, Seq::empty())
            },
            r is BrokenPipe ==> {
                &&& forall|rest: Seq<u8>| #[trigger]
                    final(self).future(rest) == old(self).future(Seq::empty())
                &&& forall|rest: Seq<u8>| #[trigger]
                    final(self).takes(rest) == old(self).takes(Seq::empty())
                &&& forall|rest: Seq<u8>| #[trigger]
                    final(self).result(rest) == old(self).result(Seq::empty())
            },
    {
        let ghost links0 = self.links@;
        let ghost pipes0 = self.pipes@;
        let r = self.pipes[0].write(data);
        proof {
            let pipes1 = self.pipes@;
            let n = links0.len() as int;
            reveal(recorded);
            assert(data.len() == data@.len());
            assert(pipes1 =~= pipes0.update(0, pipes1[0]));
            lemma_has_read_kept(links0[0].body, links0[0].begun@, pipes0[0], pipes1[0]);
            assert(connected(links0, pipes1)) by {
                assert forall|j: int| 0 <= j < links0.len() implies (#[trigger] links0[j]).exited
                    == pipes1[j + 1].write_closed() by {
                    assert(links0[j].exited == pipes0[j + 1].write_closed());
                }
                assert forall|j: int| 0 <= j < links0.len() implies reader_matches(
                    #[trigger] links0[j],
                    pipes1[j],
                ) by {
                    assert(reader_matches(links0[j], pipes0[j]));
                }
                assert forall|j: int| 1 <= j < pipes1.len() implies (
                #[trigger] pipes1[j]).capacity() > 0 by {
                    assert(pipes0[j].capacity() > 0);
                }
            }
            let taken = data@.take(crate::pipeline::process::taken_by(r));
            assert forall|rest: Seq<u8>| #[trigger]
                self.future(rest) == old(self).future(taken + rest) by {
                assert(reader_matches(links0[0], pipes0[0]));
                if !pipes0[0].read_closed() {
                    assert(left(pipes1[0], rest) =~= left(pipes0[0], taken + rest));
                }
                lemma_source(links0, pipes0, pipes1, taken + rest, rest, n);
            }
            assert forall|rest: Seq<u8>| #[trigger]
                self.takes(rest) == old(self).takes(taken + rest) by {
                assert(reader_matches(links0[0], pipes0[0]));
                if !pipes0[0].read_closed() {
                    assert(left(pipes1[0], rest) =~= left(pipes0[0], taken + rest));
                }
                lemma_source_takes(links0, pipes0, pipes1, taken + rest, rest);
            }
            assert forall|rest: Seq<u8>| #[trigger]
                self.result(rest) == old(self).result(taken + rest) by {
                assert(reader_matches(links0[0], pipes0[0]));
                if !pipes0[0].read_closed() {
                    assert(left(pipes1[0], rest) =~= left(pipes0[0], taken + rest));
                }
                if n > 1 {
                    lemma_source(links0, pipes0, pipes1, taken + rest, rest, n - 1);
                    assert(pipes1[n - 1] == pipes0[n - 1]);
                }
            }
            assert(reader_matches(links0[0], pipes0[0]));
            assert forall|rest: Seq<u8>|
                #![trigger left(pipes1[0], rest)]
                !pipes0[0].read_closed() implies left(pipes1[0], rest) == left(
                pipes0[0],
                taken + rest,
            ) by {
                assert(left(pipes1[0], rest) =~= left(pipes0[0], taken + rest));
            }
            assert forall|k: int, rest: Seq<u8>|
                0 <= k < n implies #[trigger] result_at(links0, pipes1, k, rest) == result_at(
                links0,
                pipes0,
                k,
                taken + rest,
            ) by {
                let l = left(pipes1[0], rest);
                lemma_source_at(links0, pipes0, pipes1, taken + rest, rest, k);
            }
            assert forall|k: int, rest: Seq<u8>|
                0 <= k < n implies #[trigger] stream_at(links0, pipes1, k, rest) == stream_at(
                links0,
                pipes0,
                k,
                taken + rest,
            ) by {
                let l = left(pipes1[0], rest);
                lemma_source_at(links0, pipes0, pipes1, taken + rest, rest, k);
            }
            if r is BrokenPipe {
                let e = Seq::<u8>::empty();
                assert forall|k: int, rest: Seq<u8>|
                    0 <= k < n implies #[trigger] result_at(links0, pipes1, k, rest) == result_at(
                    links0,
                    pipes0,
                    k,
                    e,
                ) by {
                    lemma_source_at(links0, pipes0, pipes1, e, rest, k);
                }
                assert forall|k: int, rest: Seq<u8>|
                    0 <= k < n implies #[trigger] stream_at(links0, pipes1, k, rest) == stream_at(
                    links0,
                    pipes0,
                    k,
                    e,
                ) by {
                    lemma_source_at(links0, pipes0, pipes1, e, rest, k);
                }
            }
            if taken.len() == 0 {
                assert(pipes1[0].contents() =~= pipes0[0].contents());
                lemma_work_source(links0, pipes0, pipes1, n);
            }
            if r is BrokenPipe {
                let e = Seq::<u8>::empty();
                assert forall|rest: Seq<u8>| #[trigger]
                    self.future(rest) == old(self).future(e) by {
                    lemma_source(links0, pipes0, pipes1, e, rest, n);
                }
                assert forall|rest: Seq<u8>| #[trigger]
                    self.takes(rest) == old(self).takes(e) by {
                    lemma_source_takes(links0, pipes0, pipes1, e, rest);
                }
                assert forall|rest: Seq<u8>| #[trigger]
                    self.result(rest) == old(self).result(e) by {
                    if n > 1 {
                        lemma_source(links0, pipes0, pipes1, e, rest, n - 1);
                        assert(pipes1[n - 1] == pipes0[n - 1]);
                    }
                }
            }
        }
        r
    }

    /// Ends the input.
    pub fn close_source(&mut self)
        requires
            old(self).wf(),
            !old(self).closed(),
        ensures
            final(self).wf(),
            final(self).closed(),
            final(self).pipes@[0].capacity() == old(self).pipes@[0].capacity(),
            final(self).pipes@[0].written() == old(self).pipes@[0].written(),
            final(self).pipes@[0].read_closed() == old(self).pipes@[0].read_closed(),
            final(self).links@ == old(self).links@,
            final(self).pipes@.len() == old(self).pipes@.len(),
            forall|k: int|
                1 <= k < old(self).pipes@.len() ==> #[trigger] final(self).pipes@[k] == old(
                    self,
                ).pipes@[k],
            forall|k: int, rest: Seq<u8>|
                0 <= k < old(self).links@.len() ==> #[trigger] result_at(
                    final(self).links@,
                    final(self).pipes@,
                    k,
                    rest,
                ) == result_at(old(self).links@, old(self).pipes@, k, Seq::empty()),
            forall|k: int, rest: Seq<u8>|
                0 <= k < old(self).links@.len() ==> #[trigger] stream_at(
                    final(self).links@,
                    final(self).pipes@,
                    k,
                    rest,
                ) == stream_at(old(self).links@, old(self).pipes@, k, Seq::empty()),
            forall|rest: Seq<u8>| #[trigger]
                final(self).future(rest) == old(self).future(Seq::empty()),
            forall|rest: Seq<u8>| #[trigger]
                final(self).takes(rest) == old(self).takes(Seq::empty()),
            forall|rest: Seq<u8>| #[trigger]
                final(self).result(rest) == old(self).result(Seq::empty()),
    {
        let ghost links0 = self.links@;
        let ghost pipes0 = self.pipes@;
        self.pipes[0].close_write();
        proof {
            reveal(recorded);
            let pipes1 = self.pipes@;
            let n = links0.len() as int;
            assert(pipes1 =~= pipes0.update(0, pipes1[0]));
            assert(logged(links0[0], pipes0[0], pipes0[1]));
            lemma_has_read_kept(links0[0].body, links0[0].begun@, pipes0[0], pipes1[0]);
            assert(connected(links0, pipes1)) by {
                assert forall|j: int| 0 <= j < links0.len() implies (#[trigger] links0[j]).exited
                    == pipes1[j + 1].write_closed() by {
                    assert(links0[j].exited == pipes0[j + 1].write_closed());
                }
                assert forall|j: int| 0 <= j < links0.len() implies reader_matches(
                    #[trigger] links0[j],
                    pipes1[j],
                ) by {
                    assert(reader_matches(links0[j], pipes0[j]));
                }
                assert forall|j: int| 1 <= j < pipes1.len() implies (
                #[trigger] pipes1[j]).capacity() > 0 by {
                    assert(pipes0[j].capacity() > 0);
                }
            }
            let e = Seq::<u8>::empty();
            assert forall|k: int, rest: Seq<u8>|
                0 <= k < n implies #[trigger] result_at(links0, pipes1, k, rest) == result_at(
                links0,
                pipes0,
                k,
                e,
            ) by {
                lemma_source_at(links0, pipes0, pipes1, e, rest, k);
            }
            assert forall|k: int, rest: Seq<u8>|
                0 <= k < n implies #[trigger] stream_at(links0, pipes1, k, rest) == stream_at(
                links0,
                pipes0,
                k,
                e,
            ) by {
                lemma_source_at(links0, pipes0, pipes1, e, rest, k);
            }
            assert forall|rest: Seq<u8>| #[trigger]
                self.future(rest) == old(self).future(Seq::empty()) by {
                lemma_source(links0, pipes0, pipes1, Seq::empty(), rest, n);
            }
            assert forall|rest: Seq<u8>| #[trigger]
                self.takes(rest) == old(self).takes(Seq::empty()) by {
                lemma_source_takes(links0, pipes0, pipes1, Seq::empty(), rest);
            }
            assert forall|rest: Seq<u8>| #[trigger]
                self.result(rest) == old(self).result(Seq::empty()) by {
                if n > 1 {
                    lemma_source(links0, pipes0, pipes1, Seq::empty(), rest, n - 1);
                    assert(pipes1[n - 1] == pipes0[n - 1]);
                }
            }
        }
    }

    /// Writes input and runs the pipeline until it has taken it, or until its first stage is over.
    /// What comes out is added to `captured`. It fails only where a stage cannot take its input.
    pub fn write_input(&mut self, data: &[u8], captured: &mut Vec<u8>) -> (r: Result<(), ()>)
        requires
            old(self).wf(),
            !old(self).closed(),
            old(self).pipes@[0].capacity() > 0,
        ensures
            r is Ok ==> {
                &&& final(self).wf()
                &&& !final(self).closed()
                &&& final(self).pipes@[0].capacity() > 0
                &&& forall|rest: Seq<u8>|
                    final(captured)@ + #[trigger] final(self).future(rest) == old(captured)@
                        + old(self).future(data@ + rest)
                &&& forall|rest: Seq<u8>| #[trigger]
                    old(self).takes(data@ + rest) ==> final(self).takes(rest)
                &&& forall|rest: Seq<u8>| #[trigger]
                    final(self).result(rest) == old(self).result(data@ + rest)
            },
            forall|rest: Seq<u8>| #[trigger] old(self).takes(data@ + rest) ==> r is Ok,
    {
        let ghost first = captured@;
        let more = self.drain();
        captured.extend_from_slice(more.as_slice());
        let mut offset: usize = 0;
        proof {
            assert(captured@ =~= first + more@);
            assert(data@.skip(0) =~= data@);
            assert forall|rest: Seq<u8>| #[trigger]
                self.result(data@.skip(0) + rest) == old(self).result(data@ + rest) by {}
            assert forall|rest: Seq<u8>|
                captured@ + #[trigger] self.future(data@.skip(0) + rest) == first + old(
                    self,
                ).future(data@ + rest) by {
                assert(captured@ + self.future(data@ + rest) =~= first + (more@ + self.future(
                    data@ + rest,
                )));
            }
        }
        while offset < data.len()
            invariant
                offset <= data@.len(),
                first == old(captured)@,
                self.wf(),
                !self.closed(),
                self.pipes@[0].capacity() > 0,
                self.pipes@[self.links@.len() as int].contents().len() == 0,
                forall|rest: Seq<u8>|
                    captured@ + #[trigger] self.future(data@.skip(offset as int) + rest) == first
                        + old(self).future(data@ + rest),
                forall|rest: Seq<u8>| #[trigger]
                    old(self).takes(data@ + rest) ==> self.takes(
                        data@.skip(offset as int) + rest,
                    ),
                forall|rest: Seq<u8>| #[trigger]
                    self.result(data@.skip(offset as int) + rest) == old(self).result(
                        data@ + rest,
                    ),
            decreases
                    data@.len() - offset,
                    self.work_left(),
                    self.pipes@[0].contents().len() + (if self.links@[0].exited {
                        0int
                    } else {
                        1
                    }),
        {
            let ghost net0 = *self;
            let ghost todo = data@.skip(offset as int);
            let ghost so_far = captured@;
            let chunk = vstd::slice::slice_subrange(data, offset, data.len());
            assert(chunk@ =~= todo);
            let w = self.feed(chunk);
            let ghost net1 = *self;
            let n: usize = match w {
                WriteResult::Written(n) => n,
                WriteResult::WouldBlock(n) => n,
                WriteResult::BrokenPipe => {
                    proof {
                        assert(todo.take(0) =~= Seq::<u8>::empty());
                        assert forall|rest: Seq<u8>|
                            captured@ + #[trigger] self.future(rest) == first + old(self).future(
                                data@ + rest,
                            ) by {
                            assert(todo.take(0) + rest =~= rest);
                            lemma_over_first(net0.links@, net0.pipes@, rest, todo + rest);
                            assert(captured@ + net0.future(todo + rest) == first + old(
                                self,
                            ).future(data@ + rest));
                        }
                        assert forall|rest: Seq<u8>| #[trigger]
                            self.result(rest) == old(self).result(data@ + rest) by {
                            assert(todo.take(0) + rest =~= rest);
                            let k = net0.links@.len() - 1;
                            if k > 0 {
                                lemma_source(
                                    net0.links@,
                                    net0.pipes@,
                                    net0.pipes@,
                                    todo + rest,
                                    rest,
                                    k,
                                );
                            }
                            assert(net0.result(rest) == net0.result(todo + rest));
                        }
                        assert forall|rest: Seq<u8>| #[trigger]
                            old(self).takes(data@ + rest) implies self.takes(rest) by {
                            assert(todo.take(0) + rest =~= rest);
                            lemma_over_first_takes(net0.links@, net0.pipes@, rest, todo + rest);
                            assert(net0.takes(todo + rest));
                        }
                    }
                    return Ok(());
                },
            };
            offset = offset + n;
            let ghost left_over = data@.skip(offset as int);
            proof {
                assert forall|rest: Seq<u8>| #[trigger]
                    self.future(left_over + rest) == net0.future(todo + rest) by {
                    assert(todo.take(n as int) + (left_over + rest) =~= todo + rest);
                    assert(self.future(left_over + rest) == net0.future(
                        todo.take(n as int) + (left_over + rest),
                    ));
                }
                assert forall|rest: Seq<u8>| #[trigger]
                    self.result(left_over + rest) == old(self).result(data@ + rest) by {
                    assert(todo.take(n as int) + (left_over + rest) =~= todo + rest);
                    assert(self.result(left_over + rest) == net0.result(
                        todo.take(n as int) + (left_over + rest),
                    ));
                    assert(net0.result(todo + rest) == old(self).result(data@ + rest));
                }
                assert forall|rest: Seq<u8>| #[trigger]
                    old(self).takes(data@ + rest) implies self.takes(left_over + rest) by {
                    assert(todo.take(n as int) + (left_over + rest) =~= todo + rest);
                    assert(net0.takes(todo + rest));
                    assert(self.takes(left_over + rest) == net0.takes(
                        todo.take(n as int) + (left_over + rest),
                    ));
                }
            }
            match self.round() {
                Round::Stuck => {
                    proof {
                        assert forall|rest: Seq<u8>| !(#[trigger] old(self).takes(data@ + rest)) by {
                            if old(self).takes(data@ + rest) {
                                assert(net1.takes(left_over + rest));
                            }
                        }
                    }
                    return Err(());
                },
                Round::Idle => {
                    proof {
                        if n == 0 {
                            lemma_takes_input(self.links@, self.pipes@);
                        }
                    }
                },
                Round::Progressed => {},
            }
            let ghost mid = *self;
            let out = self.drain();
            captured.extend_from_slice(out.as_slice());
            proof {
                assert(captured@ =~= so_far + out@);
                assert forall|rest: Seq<u8>|
                    captured@ + #[trigger] self.future(left_over + rest) == first + old(
                        self,
                    ).future(data@ + rest) by {
                    let x = left_over + rest;
                    assert(out@ + self.future(x) == mid.future(x));
                    assert(mid.future(x) == net1.future(x));
                    assert(net1.future(x) == net0.future(todo + rest));
                    assert(captured@ + self.future(x) =~= so_far + (out@ + self.future(x)));
                    assert(so_far + net0.future(todo + rest) == first + old(self).future(
                        data@ + rest,
                    ));
                }
            }
        }
        proof {
            assert forall|rest: Seq<u8>|
                captured@ + #[trigger] self.future(rest) == first + old(self).future(
                    data@ + rest,
                ) by {
                assert(data@.skip(offset as int) + rest =~= rest);
            }
            assert forall|rest: Seq<u8>| #[trigger]
                old(self).takes(data@ + rest) implies self.takes(rest) by {
                assert(data@.skip(offset as int) + rest =~= rest);
            }
            assert forall|rest: Seq<u8>| #[trigger]
                self.result(rest) == old(self).result(data@ + rest) by {
                assert(data@.skip(offset as int) + rest =~= rest);
            }
        }
        Ok(())
    }

    /// Ends the input and runs the pipeline to its end. What comes out is added to `captured`; the
    /// exit status of the last stage is returned.
    pub fn finish(&mut self, captured: &mut Vec<u8>) -> (r: Result<i32, ()>)
        requires
            old(self).wf(),
            !old(self).closed(),
        ensures
            r matches Ok(status) ==> {
                &&& final(captured)@ == old(captured)@ + old(self).future(Seq::empty())
                &&& status == old(self).result(Seq::empty())
            },
            old(self).takes(Seq::empty()) ==> r is Ok,
    {
        self.close_source();
        let ghost closed = *self;
        proof {
            let e = Seq::<u8>::empty();
            assert(closed.future(e) == old(self).future(e));
            assert(closed.takes(e) == old(self).takes(e));
            assert(closed.result(e) == old(self).result(e));
        }
        match self.run() {
            Ok(out) => {
                captured.extend_from_slice(out.stdout.as_slice());
                assert(captured@ =~= old(captured)@ + out.stdout@);
                Ok(out.status)
            },
            Err(()) => Err(()),
        }
    }
}

/// The rest of the input does not matter when it does not matter to the first stage.
proof fn lemma_over_first(links: Seq<StageLink>, pipes: Seq<Pipe>, a: Seq<u8>, b: Seq<u8>)
    requires
        links.len() > 0,
        pipes.len() == links.len() + 1,
        links[0].ignores(),
    ensures
        coming(links, pipes, links.len() as int, a) == coming(
            links,
            pipes,
            links.len() as int,
            b,
        ),
{
    lemma_source(links, pipes, pipes, b, a, links.len() as int);
}

proof fn lemma_over_first_takes(links: Seq<StageLink>, pipes: Seq<Pipe>, a: Seq<u8>, b: Seq<u8>)
    requires
        links.len() > 0,
        pipes.len() == links.len() + 1,
        links[0].ignores(),
    ensures
        all_take(links, pipes, a) == all_take(links, pipes, b),
{
    lemma_source_takes(links, pipes, pipes, b, a);
}

/// When nothing moves and the output was taken, the first stage is over or has read all its input.
pub proof fn lemma_takes_input(links: Seq<StageLink>, pipes: Seq<Pipe>)
    requires
        connected(links, pipes),
        idle_from(links, pipes, 0),
        pipes[links.len() as int].contents().len() == 0,
    ensures
        links[0].exited || starving(pipes, 0),
{
    if !links[0].exited {
        lemma_not_blocked(links, pipes, 0);
    }
}

/// What arrives behind the first stage depends on the input pipe only through what is left in it,
/// and not at all once that does not matter to the stage.
proof fn lemma_source(
    links: Seq<StageLink>,
    pipes: Seq<Pipe>,
    after: Seq<Pipe>,
    before_rest: Seq<u8>,
    rest: Seq<u8>,
    j: int,
)
    requires
        links.len() > 0,
        pipes.len() == links.len() + 1,
        after.len() == pipes.len(),
        1 <= j <= links.len(),
        forall|k: int| 1 <= k < pipes.len() ==> #[trigger] after[k] == pipes[k],
        links[0].ignores() || left(after[0], coming(links, after, 0, rest)) == left(
            pipes[0],
            coming(links, pipes, 0, before_rest),
        ),
    ensures
        coming(links, after, j, rest) == coming(links, pipes, j, before_rest),
    decreases j,
{
    if j > 1 {
        lemma_source(links, pipes, after, before_rest, rest, j - 1);
        assert(after[j - 1] == pipes[j - 1]);
    }
}

proof fn lemma_source_at(
    links: Seq<StageLink>,
    pipes: Seq<Pipe>,
    after: Seq<Pipe>,
    before_rest: Seq<u8>,
    rest: Seq<u8>,
    k: int,
)
    requires
        links.len() > 0,
        pipes.len() == links.len() + 1,
        after.len() == pipes.len(),
        0 <= k < links.len(),
        forall|j: int| 1 <= j < pipes.len() ==> #[trigger] after[j] == pipes[j],
        links[0].ignores() || left(after[0], coming(links, after, 0, rest)) == left(
            pipes[0],
            coming(links, pipes, 0, before_rest),
        ),
    ensures
        result_at(links, after, k, rest) == result_at(links, pipes, k, before_rest),
        stream_at(links, after, k, rest) == stream_at(links, pipes, k, before_rest),
{
    lemma_source(links, pipes, after, before_rest, rest, k + 1);
    assert(after[k + 1] == pipes[k + 1]);
    if k > 0 {
        lemma_source(links, pipes, after, before_rest, rest, k);
        assert(after[k] == pipes[k]);
    }
}

/// Each stage works on what the one before it writes: what it has still to read is what that writes
/// in all without what was taken already.
pub proof fn law_stage_works_on_what_comes_before(net: Network, k: int, rest: Seq<u8>)
    requires
        0 < k < net.links@.len(),
    ensures
        ({
            let unread = stream_at(net.links@, net.pipes@, k - 1, rest).skip(
                net.pipes@[k].taken().len() as int,
            );
            &&& stream_at(net.links@, net.pipes@, k, rest) == net.pipes@[k + 1].written()
                + net.links@[k].future(unread)
            &&& result_at(net.links@, net.pipes@, k, rest) == net.links@[k].result(unread)
        }),
{
    let before = stream_at(net.links@, net.pipes@, k - 1, rest);
    let taken = net.pipes@[k].taken();
    let next = left(net.pipes@[k], coming(net.links@, net.pipes@, k, rest));
    assert(before =~= taken + next);
    assert(before.skip(taken.len() as int) =~= next);
}

/// The exit status of a stage is at any time that of what it has read, whether or not it was cut
/// off.
pub proof fn law_status_is_that_of_what_was_read(
    net: Network,
    stage: StreamingPipelineStage,
    k: int,
)
    requires
        net.wf(),
        0 <= k < net.links@.len(),
        begins_as(net.links@[k].begun@, stage),
        !net.links@[k].body.failed(),
        net.links@[k].body is Head ==> stage is Head,
    ensures
        is_status_read(stage, net.pipes@[k], net.links@[k].body.status_now()),
{
    reveal(recorded);
    reveal(begins_as);
    let link = net.links@[k];
    assert(logged(link, net.pipes@[k], net.pipes@[k + 1]));
    assert(link.wf());
    if let LinkBody::Relay { relay, reader } = link.body {
        lemma_status_upto(link.begun@->Some_0, reader, relay.out.taken(), net.pipes@[k]);
    }
}

/// Once a stage is over, what it has written is all that it writes; where it is `tee` and none of
/// its standard error went to its output, that is what it has copied. So the copy of a `tee` that
/// was not cut off is what its stage passes on, and one that was cut off has the beginning of that.
pub proof fn law_tee_copies_what_it_passes_on(net: Network, k: int, rest: Seq<u8>)
    requires
        net.wf(),
        0 <= k < net.links@.len(),
        net.links@[k].exited,
        net.links@[k].tee,
        !net.links@[k].body.stderr_begun(),
    ensures
        net.links@[k].copied@ == stream_at(net.links@, net.pipes@, k, rest),
{
    reveal(recorded);
    assert(logged(net.links@[k], net.pipes@[k], net.pipes@[k + 1]));
    assert(stream_at(net.links@, net.pipes@, k, rest) =~= net.pipes@[k + 1].written());
}

/// Whether or not its files can be written and whatever it complains about in its output, `tee` has
/// copied the beginning of what it has read. Once it is over and was not cut off, it has copied all
/// that was written into its input.
pub proof fn law_tee_copies_what_it_reads(net: Network, stage: StreamingPipelineStage, k: int)
    requires
        net.wf(),
        0 <= k < net.links@.len(),
        net.links@[k].tee,
        net.links@[k].body is Relay,
        stage is Tee,
        begins_as(net.links@[k].begun@, stage),
    ensures
        begins(net.links@[k].copied@, net.pipes@[k].taken()),
        net.links@[k].exited && !cut_at(net.links@, net.pipes@, k) ==> net.links@[k].copied@
            == net.pipes@[k].written() && net.pipes@[k].write_closed(),
{
    reveal(recorded);
    reveal(begins_as);
    let link = net.links@[k];
    let input = net.pipes@[k];
    assert(logged(link, input, net.pipes@[k + 1]));
    assert(link.wf());
    if let LinkBody::Relay { relay, reader } = link.body {
        let first = link.begun@->Some_0;
        let passed = relay.out.taken();
        lemma_passed_upto(first, reader, passed, input);
        assert(link.copied@ =~= passed.take(link.copied@.len() as int));
        assert(link.copied@ =~= input.taken().take(link.copied@.len() as int));
        if link.exited && !cut_at(net.links@, net.pipes@, k) {
            let more = seq![0u8];
            assert((input.taken() + more).len() == input.taken().len() + 1);
            lemma_all_passed(first, reader, passed, input, more);
            assert(relay.out.waiting().len() == 0);
            assert(relay.out.sent() + relay.out.waiting() =~= relay.out.sent());
            assert(input.written() =~= input.taken());
        }
    }
}

/// `tee` in front of `head`, with a pipe of one byte between them, has copied just what `head` has
/// written once both are over and `head` was not cut off itself.
pub proof fn law_tee_before_head_copies_what_head_keeps(net: Network, k: int, rest: Seq<u8>)
    requires
        net.wf(),
        0 <= k < net.links@.len() - 1,
        net.links@[k].tee,
        !net.links@[k].body.stderr_begun(),
        net.links@[k + 1].body is Head,
        net.links@[k].exited,
        net.links@[k + 1].exited,
        !cut_at(net.links@, net.pipes@, k + 1),
        net.pipes@[k + 1].capacity() == 1,
    ensures
        net.links@[k].copied@ == stream_at(net.links@, net.pipes@, k + 1, rest),
{
    reveal(recorded);
    let links = net.links@;
    let pipes = net.pipes@;
    assert(logged(links[k], pipes[k], pipes[k + 1]));
    assert(logged(links[k + 1], pipes[k + 1], pipes[k + 2]));
    match links[k + 1].body {
        LinkBody::Head(h) => {
            assert(pipes[k + 1].written() =~= pipes[k + 1].taken());
            assert(h.out.taken() =~= h.out.sent());
        },
        LinkBody::Relay { relay, reader } => {},
    }
    assert(stream_at(links, pipes, k + 1, rest) =~= pipes[k + 2].written());
}

/// What a pipeline leaves.
#[derive(Debug, PartialEq, Eq)]
pub struct PipelineOutput {
    pub stdout: Vec<u8>,
    /// The exit status of the last stage.
    pub status: i32,
}

/// Why a pipeline gave no output.
#[derive(Clone, Copy, Debug, PartialEq, Eq, Structural)]
pub enum PipelineFault {
    /// A stage does not pass its input on.
    NotAFilter,
    /// A stage cannot take its input.
    Stuck,
}

/// Runs a pipeline of filters on an input. The status is that of the last stage; the output is what
/// the stages make of it one after the other, however much the pipes between them hold and in
/// whatever pieces the bytes pass.
pub fn run_pipeline(source: Vec<u8>, stages: Vec<StreamingPipelineStage>, capacity: usize) -> (r:
    Result<PipelineOutput, PipelineFault>)
    requires
        capacity > 0,
    ensures
        match r {
            Ok(out) => {
                &&& all_filters(stages@)
                &&& out.stdout@ == composed(stages@, false, source@)
                &&& out.status == composed_status(stages@, false, source@)
            },
            Err(PipelineFault::NotAFilter) => !all_filters(stages@),
            Err(PipelineFault::Stuck) => all_filters(stages@) && !pipeline_takes(
                stages@,
                false,
                source@,
            ),
        },
{
    if stages.len() == 0 {
        return Ok(PipelineOutput { stdout: source, status: 0 });
    }
    match Network::with_source(source, stages, capacity) {
        Some(net) => {
            let mut net = net;
            let ghost before = net;
            proof {
                let e = Seq::<u8>::empty();
                assert(before.future(e) == composed(stages@, false, source@));
                assert(before.takes(e) == pipeline_takes(stages@, false, source@));
                assert(before.result(e) == composed_status(stages@, false, source@));
            }
            match net.run() {
                Ok(out) => Ok(out),
                Err(()) => Err(PipelineFault::Stuck),
            }
        },
        None => Err(PipelineFault::NotAFilter),
    }
}


proof fn lemma_source_takes(
    links: Seq<StageLink>,
    pipes: Seq<Pipe>,
    after: Seq<Pipe>,
    before_rest: Seq<u8>,
    rest: Seq<u8>,
)
    requires
        links.len() > 0,
        pipes.len() == links.len() + 1,
        after.len() == pipes.len(),
        forall|k: int| 1 <= k < pipes.len() ==> #[trigger] after[k] == pipes[k],
        links[0].ignores() || left(after[0], coming(links, after, 0, rest)) == left(
            pipes[0],
            coming(links, pipes, 0, before_rest),
        ),
    ensures
        all_take(links, after, rest) == all_take(links, pipes, before_rest),
{
    assert forall|k: int| 0 <= k < links.len() implies (#[trigger] links[k]).takes(
        left(after[k], coming(links, after, k, rest)),
    ) == links[k].takes(left(pipes[k], coming(links, pipes, k, before_rest))) by {
        if k > 0 {
            lemma_source(links, pipes, after, before_rest, rest, k);
            assert(after[k] == pipes[k]);
        }
    }
}

proof fn lemma_work_source(links: Seq<StageLink>, pipes: Seq<Pipe>, after: Seq<Pipe>, n: int)
    requires
        0 <= n <= links.len(),
        links.len() > 0,
        pipes.len() == links.len() + 1,
        after.len() == pipes.len(),
        forall|k: int| 1 <= k < pipes.len() ==> #[trigger] after[k] == pipes[k],
        after[0].contents() == pipes[0].contents(),
        after[0].write_closed() == pipes[0].write_closed(),
    ensures
        work(links, after, n, Seq::empty()) == work(links, pipes, n, Seq::empty()),
    decreases n,
{
    if n > 0 {
        lemma_work_source(links, pipes, after, n - 1);
        lemma_source(links, pipes, after, Seq::empty(), Seq::empty(), n);
    }
}

} // verus!
