//! Making the stages of a pipeline a schedule, and what each of them writes.
use crate::pipeline::body::Body;
use crate::pipeline::network::{
    all_filters, begins_as, composed, given, is_link, link_output, link_status, link_takes, none_of,
    pipe_where, pipeline_takes, Network,
};
use crate::pipeline::pipe::Pipe;
use crate::pipeline::process::{BufferedProcess, RelayProcess};
use crate::pipeline::schedule::{all_take, in_line, is_fed, total, Schedule};
use crate::pipeline::stage::StreamingPipelineStage;
use crate::pipeline::stretch::{Feeder, SourceReader, Stretch};
use crate::stream::simple::{copies, YesStreamReader, STREAMING_YES_MAX_LINES};
use vstd::prelude::*;

verus! {

/// What a stage writes: a source its bytes, a command what it prints according to `outs`, and a
/// filter what it makes of the stage before it. The first filter works on the source from outside.
pub open spec fn stage_writes(
    stages: Seq<StreamingPipelineStage>,
    source: Seq<u8>,
    outs: Seq<Seq<u8>>,
    i: int,
) -> Seq<u8>
    decreases i + 1,
{
    if i < 0 {
        source
    } else {
        match stages[i] {
            StreamingPipelineStage::Literal(data) => data@,
            StreamingPipelineStage::Yes(line) => copies(line@, STREAMING_YES_MAX_LINES as nat),
            StreamingPipelineStage::BufferedCommand(_) => outs[i],
            _ => link_output(stages[i], i == 0, stage_writes(stages, source, outs, i - 1)),
        }
    }
}

/// Whether a stage can stand at its place: the first one starts the pipeline unless there is a
/// source from outside, and every other one passes its input on or is a command.
pub open spec fn in_place(stage: StreamingPipelineStage, first: bool) -> bool {
    match stage {
        StreamingPipelineStage::BufferedCommand(_) => true,
        StreamingPipelineStage::Literal(_) => first,
        StreamingPipelineStage::Yes(_) => first,
        _ => !first && is_link(stage),
    }
}

/// Whether the stages make a pipeline. A file has to be read before.
pub open spec fn makes_pipeline(stages: Seq<StreamingPipelineStage>, from_outside: bool) -> bool {
    stages.len() > 0 && forall|i: int|
        0 <= i < stages.len() ==> in_place(#[trigger] stages[i], i == 0 && !from_outside)
}

/// Filters in a row write what the last of them writes as a stage.
proof fn lemma_row(
    stages: Seq<StreamingPipelineStage>,
    source: Seq<u8>,
    outs: Seq<Seq<u8>>,
    f: int,
    e: int,
)
    requires
        0 <= f <= e <= stages.len(),
        forall|i: int| f <= i < e ==> is_link(#[trigger] stages[i]),
    ensures
        composed(stages.subrange(f, e), f == 0, stage_writes(stages, source, outs, f - 1))
            == stage_writes(stages, source, outs, e - 1),
    decreases e - f,
{
    let row = stages.subrange(f, e);
    if e > f {
        lemma_row(stages, source, outs, f, e - 1);
        assert(row.drop_last() =~= stages.subrange(f, e - 1));
        assert(row.last() == stages[e - 1]);
    }
}

/// Whether every filter among the stages from `a` to `b` can take its input.
pub open spec fn stages_take(
    stages: Seq<StreamingPipelineStage>,
    source: Seq<u8>,
    outs: Seq<Seq<u8>>,
    a: int,
    b: int,
) -> bool {
    forall|i: int|
        a <= i < b && is_link(stages[i]) ==> link_takes(
            #[trigger] stages[i],
            i == 0,
            stage_writes(stages, source, outs, i - 1),
        )
}

/// Filters in a row take their input exactly when each of them does as a stage, and a stage before
/// them that is no filter changes nothing.
proof fn lemma_row_takes(
    stages: Seq<StreamingPipelineStage>,
    source: Seq<u8>,
    outs: Seq<Seq<u8>>,
    from: int,
    f: int,
    e: int,
)
    requires
        0 <= from <= f <= e <= stages.len(),
        forall|i: int| f <= i < e ==> is_link(#[trigger] stages[i]),
        forall|i: int| from <= i < f ==> !is_link(#[trigger] stages[i]),
    ensures
        pipeline_takes(stages.subrange(f, e), f == 0, stage_writes(stages, source, outs, f - 1))
            == stages_take(stages, source, outs, from, e),
{
    let row = stages.subrange(f, e);
    let input = stage_writes(stages, source, outs, f - 1);
    if pipeline_takes(row, f == 0, input) {
        assert forall|i: int| from <= i < e && is_link(stages[i]) implies link_takes(
            #[trigger] stages[i],
            i == 0,
            stage_writes(stages, source, outs, i - 1),
        ) by {
            lemma_row_at(stages, source, outs, f, e, i);
            assert(row[i - f] == stages[i]);
        }
    }
    if stages_take(stages, source, outs, from, e) {
        assert forall|j: int| 0 <= j < row.len() implies link_takes(
            #[trigger] row[j],
            f == 0 && j == 0,
            composed(row.take(j), f == 0, input),
        ) by {
            lemma_row_at(stages, source, outs, f, e, f + j);
            assert(row[j] == stages[f + j]);
            assert(is_link(stages[f + j]));
        }
    }
}

proof fn lemma_row_at(
    stages: Seq<StreamingPipelineStage>,
    source: Seq<u8>,
    outs: Seq<Seq<u8>>,
    f: int,
    e: int,
    i: int,
)
    requires
        0 <= f <= i < e <= stages.len(),
        forall|k: int| f <= k < e ==> is_link(#[trigger] stages[k]),
    ensures
        composed(
            stages.subrange(f, e).take(i - f),
            f == 0,
            stage_writes(stages, source, outs, f - 1),
        ) == stage_writes(stages, source, outs, i - 1),
{
    assert(stages.subrange(f, e).take(i - f) =~= stages.subrange(f, i));
    lemma_row(stages, source, outs, f, i);
}

/// The input from outside: the bytes that are there, and where it is open what is added to them.
pub open spec fn outside(source: Seq<u8>, open: bool, outs: Seq<Seq<u8>>) -> Seq<u8> {
    source + if open {
        outs.last()
    } else {
        Seq::empty()
    }
}

/// Whether a stretch stands for the stages from `from` to its end and no byte of it has moved.
#[verifier::opaque]
pub open spec fn stands_for(
    s: Stretch,
    stages: Seq<StreamingPipelineStage>,
    source: Seq<u8>,
    open: bool,
    from: int,
) -> bool {
    &&& s.wf()
    &&& !s.over
    &&& s.feeder.staged().len() == 0
    &&& from <= s.end <= stages.len()
    &&& s.stage matches Some(i) ==> i == from && i < s.end && !is_link(stages[from])
        && !(stages[from] is File)
    &&& forall|i: int|
        first_filter(s, from) <= i < s.end ==> is_link(#[trigger] stages[i])
    &&& s.stage is None ==> from == 0
    &&& s.feeder is Command ==> !s.feeder.known() && s.stage is Some
        && stages[from] is BufferedCommand
    &&& s.feeder is Source ==> from == 0
    &&& forall|outs: Seq<Seq<u8>>| #[trigger]
        s.flow(outs) == stage_writes(stages, outside(source, open, outs), outs, s.end - 1)
    &&& forall|outs: Seq<Seq<u8>>| #[trigger]
        s.takes(outs) == stages_take(stages, outside(source, open, outs), outs, from, s.end as int)
    &&& s.body is Filters ==> forall|outs: Seq<Seq<u8>>| #[trigger]
        s.result(outs) == link_status(
            stages[s.end - 1],
            stage_writes(stages, outside(source, open, outs), outs, s.end - 2),
        )
    &&& s.body is Direct ==> s.end <= from + 1
    &&& s.body.links().len() == s.end - first_filter(s, from)
    &&& filters_stand(s, stages, source, open, first_filter(s, from))
}

/// The number of the first filter of a stretch that starts at a stage.
pub open spec fn first_filter(s: Stretch, from: int) -> int {
    if s.stage is Some {
        from + 1
    } else {
        from
    }
}

/// Whether the filters of a stretch are the stages from `first` on: what each of them writes and its
/// exit status are those of its stage, and what comes into the first one is what the stage before
/// it writes.
#[verifier::opaque]
pub open spec fn filters_stand(
    s: Stretch,
    stages: Seq<StreamingPipelineStage>,
    source: Seq<u8>,
    open: bool,
    first: int,
) -> bool {
    &&& forall|k: int|
        0 <= k < s.body.links().len() ==> (#[trigger] s.body.links()[k]).tee == (stages[first + k]
            is Tee) && !s.body.links()[k].exited && s.body.links()[k].body is Head == (stages[first
            + k] is Head && first + k > 0) && s.body.links()[k].body.stderr() == Seq::<u8>::empty()
            && !s.body.links()[k].body.failed() && begins_as(
            s.body.links()[k].begun@,
            stages[first + k],
        )
    &&& forall|k: int, outs: Seq<Seq<u8>>|
        0 <= k < s.body.links().len() ==> #[trigger] s.body.result_at(k, s.rest(outs))
            == link_status(
            stages[first + k],
            stage_writes(stages, outside(source, open, outs), outs, first + k - 1),
        )
    &&& forall|k: int, outs: Seq<Seq<u8>>|
        0 <= k < s.body.links().len() ==> #[trigger] s.body.stream_at(k, s.rest(outs))
            == stage_writes(stages, outside(source, open, outs), outs, first + k)
    &&& s.body.links().len() > 0 ==> forall|outs: Seq<Seq<u8>>| #[trigger]
        s.body.inflow(s.rest(outs)) == stage_writes(
            stages,
            outside(source, open, outs),
            outs,
            first - 1,
        )
}

/// Whether a process has printed nothing, has the status zero and sends its standard error on as its
/// stage says.
pub open spec fn is_set_up(feeder: Feeder, stage: Option<usize>, both: Seq<bool>) -> bool {
    match feeder {
        Feeder::Source { reader: _, relay } => relay.status == 0 && relay.stderr@.len() == 0
            && relay.pipe_stderr == (stage matches Some(i) && i < both.len() && both[i as int]),
        Feeder::Command { process, staged: _ } => process.status == 0 && process.stderr@.len() == 0
            && (stage matches Some(i) && i < both.len() && process.pipe_stderr == both[i as int]),
    }
}

/// Whether a stretch is set up: its process is, and its filters send their standard errors on as
/// their stages say.
pub open spec fn is_stretch_set_up(s: Stretch, both: Seq<bool>) -> bool {
    &&& is_set_up(s.feeder, s.stage, both)
    &&& pipe_where(s.body.links(), both, s.end - s.body.links().len())
}

/// Whether the pipes that the filters of a stretch write to hold so many bytes.
pub open spec fn holds(s: Stretch, capacity: nat) -> bool {
    forall|j: int|
        0 <= j < s.body.links().len() ==> (#[trigger] s.body.pipes()[j + 1]).capacity() == capacity
}

/// Whether this holds of the pipes of every stretch.
pub open spec fn all_hold(s: Seq<Stretch>, capacity: nat) -> bool {
    forall|k: int| 0 <= k < s.len() ==> holds(#[trigger] s[k], capacity)
}

/// Whether this holds of every stretch.
pub open spec fn are_set_up(s: Seq<Stretch>, both: Seq<bool>) -> bool {
    forall|k: int| 0 <= k < s.len() ==> is_stretch_set_up(#[trigger] s[k], both)
}

/// Whether a process that has done nothing writes what the stages before `first` write, the last of
/// which it is unless it is a source from outside.
#[verifier::opaque]
pub open spec fn feeds(
    feeder: Feeder,
    stage: Option<usize>,
    stages: Seq<StreamingPipelineStage>,
    source: Seq<u8>,
    open: bool,
    first: int,
) -> bool {
    &&& feeder.wf()
    &&& !feeder.finished()
    &&& feeder.staged().len() == 0
    &&& match stage {
        Some(i) => i + 1 == first && first <= stages.len() && !is_link(stages[i as int]) && !(
        stages[i as int] is File),
        None => first == 0 && feeder is Source,
    }
    &&& feeder is Command ==> !feeder.known() && (stage matches Some(i) && stages[i as int]
        is BufferedCommand)
    &&& feeder is Source ==> first <= 1 && (stage is Some ==> !feeder->reader.open())
    &&& forall|outs: Seq<Seq<u8>>|
        feeder.rest(
            match stage {
                Some(i) => outs[i as int],
                None => outs.last(),
            },
        ) == #[trigger] stage_writes(stages, outside(source, open, outs), outs, first - 1)
}

/// Makes a process and the filters behind it a stretch. The filters are the stages from `first` to
/// `end`.
fn make_stretch(
    feeder: Feeder,
    stage: Option<usize>,
    filters: Vec<StreamingPipelineStage>,
    first: usize,
    end: usize,
    capacity: usize,
    pipe_stderr: &Vec<bool>,
    Ghost(stages): Ghost<Seq<StreamingPipelineStage>>,
    Ghost(source): Ghost<Seq<u8>>,
    Ghost(open): Ghost<bool>,
) -> (r: Stretch)
    requires
        capacity > 0,
        first <= end <= stages.len(),
        filters@ == stages.subrange(first as int, end as int),
        all_filters(filters@),
        feeds(feeder, stage, stages, source, open, first as int),
        pipe_stderr@.len() == stages.len(),
        is_set_up(feeder, stage, pipe_stderr@),
    ensures
        is_stretch_set_up(r, pipe_stderr@),
        stands_for(
            r,
            stages,
            source,
            open,
            match stage {
                Some(i) => i as int,
                None => 0,
            },
        ),
        r.feeder == feeder,
        r.stage == stage,
        r.end == end,
        holds(r, capacity as nat),
{
    let ghost row = filters@;
    let ghost direct = filters@.len() == 0;
    proof {
        reveal(feeds);
    }
    let body = if filters.len() == 0 {
        Body::Direct(Pipe::new(capacity))
    } else {
        match Network::open_behind(filters, first == 0, capacity, pipe_stderr, first) {
            Some(net) => Body::Filters(net),
            None => Body::Direct(Pipe::new(capacity)),
        }
    };
    let r = Stretch { feeder, body, over: false, stage, end };
    proof {
        reveal(stands_for);
        let from = match stage {
            Some(i) => i as int,
            None => 0,
        };
        assert forall|i: int| first <= i < end implies is_link(#[trigger] stages[i]) by {
            assert(row[i - first] == stages[i]);
        }
        assert forall|outs: Seq<Seq<u8>>| #[trigger]
            r.flow(outs) == stage_writes(stages, outside(source, open, outs), outs, r.end - 1) by {
            let input = stage_writes(stages, outside(source, open, outs), outs, first - 1);
            assert(r.rest(outs) == input);
            lemma_row(stages, outside(source, open, outs), outs, first as int, end as int);
            if direct {
                assert(Seq::<u8>::empty() + input =~= input);
            }
        }
        assert forall|outs: Seq<Seq<u8>>| #[trigger]
            r.takes(outs) == stages_take(
                stages,
                outside(source, open, outs),
                outs,
                from,
                r.end as int,
            ) by {
            let input = stage_writes(stages, outside(source, open, outs), outs, first - 1);
            assert(r.rest(outs) == input);
            lemma_row_takes(
                stages,
                outside(source, open, outs),
                outs,
                from,
                first as int,
                end as int,
            );
        }
        assert(first_filter(r, from) == first);
        assert(filters_stand(r, stages, source, open, first as int)) by {
            reveal(filters_stand);
            if !direct {
                let net = r.body->Filters_0;
                assert forall|k: int|
                    0 <= k < net.links@.len() implies (#[trigger] net.links@[k]).tee == (stages[
                first + k] is Tee) && !net.links@[k].exited && net.links@[k].body is Head == (
                stages[first + k] is Head && first + k > 0) && net.links@[k].body.stderr() == Seq::<
                    u8,
                >::empty() by {
                    assert(row[k] == stages[first + k]);
                }
                assert forall|outs: Seq<Seq<u8>>| #[trigger]
                    r.body.inflow(r.rest(outs)) == stage_writes(
                        stages,
                        outside(source, open, outs),
                        outs,
                        first - 1,
                    ) by {
                    let input = stage_writes(stages, outside(source, open, outs), outs, first - 1);
                    assert(r.rest(outs) == input);
                    assert(net.pipes@[0].written() + input =~= input);
                }
                assert forall|k: int, outs: Seq<Seq<u8>>|
                    0 <= k < net.links@.len() implies #[trigger] r.body.result_at(
                    k,
                    r.rest(outs),
                ) == link_status(
                    stages[first + k],
                    stage_writes(stages, outside(source, open, outs), outs, first + k - 1),
                ) by {
                    let input = stage_writes(stages, outside(source, open, outs), outs, first - 1);
                    assert(r.rest(outs) == input);
                    assert(given(Seq::<u8>::empty(), true, input) =~= input);
                    lemma_row(stages, outside(source, open, outs), outs, first as int, first + k);
                    assert(row.take(k) =~= stages.subrange(first as int, first + k));
                    assert(row[k] == stages[first + k]);
                }
                assert forall|k: int, outs: Seq<Seq<u8>>|
                    0 <= k < net.links@.len() implies #[trigger] r.body.stream_at(
                    k,
                    r.rest(outs),
                ) == stage_writes(stages, outside(source, open, outs), outs, first + k) by {
                    let input = stage_writes(stages, outside(source, open, outs), outs, first - 1);
                    assert(r.rest(outs) == input);
                    assert(given(Seq::<u8>::empty(), true, input) =~= input);
                    lemma_row(
                        stages,
                        outside(source, open, outs),
                        outs,
                        first as int,
                        first + k + 1,
                    );
                    assert(row.take(k + 1) =~= stages.subrange(first as int, first + k + 1));
                }
            }
        }
        if r.body is Filters {
            assert forall|outs: Seq<Seq<u8>>| #[trigger]
                r.result(outs) == link_status(
                    stages[r.end - 1],
                    stage_writes(stages, outside(source, open, outs), outs, r.end - 2),
                ) by {
                let input = stage_writes(stages, outside(source, open, outs), outs, first - 1);
                assert(r.rest(outs) == input);
                lemma_row(stages, outside(source, open, outs), outs, first as int, end - 1);
                assert(row.drop_last() =~= stages.subrange(first as int, end - 1));
                assert(row.last() == stages[end - 1]);
            }
        }
    }
    r
}

/// The number of the first stage of a stretch.
pub open spec fn starts_at(s: Seq<Stretch>, k: int) -> int {
    if k <= 0 {
        0
    } else {
        s[k - 1].end as int
    }
}

/// Whether stretches stand for stages one after the other and no byte has moved.
pub open spec fn stand_for(
    s: Seq<Stretch>,
    stages: Seq<StreamingPipelineStage>,
    source: Seq<u8>,
    open: bool,
) -> bool {
    &&& forall|k: int|
        0 <= k < s.len() ==> stands_for(#[trigger] s[k], stages, source, open, starts_at(s, k))
    &&& forall|k: int|
        0 <= k < s.len() ==> match (#[trigger] s[k]).feeder {
            Feeder::Source { reader: _, relay: _ } => k == 0,
            Feeder::Command { process, staged: _ } => process.has_input == (k > 0),
        }
}

proof fn lemma_all_take(
    s: Seq<Stretch>,
    stages: Seq<StreamingPipelineStage>,
    source: Seq<u8>,
    open: bool,
    outs: Seq<Seq<u8>>,
    n: int,
)
    requires
        stand_for(s, stages, source, open),
        0 <= n <= s.len(),
    ensures
        (forall|k: int| 0 <= k < n ==> (#[trigger] s[k]).takes(outs)) == stages_take(
            stages,
            outside(source, open, outs),
            outs,
            0,
            starts_at(s, n),
        ),
    decreases n,
{
    if n > 0 {
        lemma_all_take(s, stages, source, open, outs, n - 1);
        let from = starts_at(s, n - 1);
        assert(stands_for(s[n - 1], stages, source, open, from));
        if n > 1 {
            assert(stands_for(s[n - 2], stages, source, open, starts_at(s, n - 2)));
        }
        lemma_takes_of(s[n - 1], stages, source, open, from, outs);
        assert(0 <= from);
        lemma_take_union(stages, outside(source, open, outs), outs, from, s[n - 1].end as int);
    }
}

proof fn lemma_takes_of(
    s: Stretch,
    stages: Seq<StreamingPipelineStage>,
    source: Seq<u8>,
    open: bool,
    from: int,
    outs: Seq<Seq<u8>>,
)
    requires
        stands_for(s, stages, source, open, from),
    ensures
        s.takes(outs) == stages_take(
            stages,
            outside(source, open, outs),
            outs,
            from,
            s.end as int,
        ),
        from <= s.end <= stages.len(),
{
    reveal(stands_for);
}

proof fn lemma_take_union(
    stages: Seq<StreamingPipelineStage>,
    source: Seq<u8>,
    outs: Seq<Seq<u8>>,
    b: int,
    c: int,
)
    requires
        0 <= b <= c,
    ensures
        stages_take(stages, source, outs, 0, c) == (stages_take(stages, source, outs, 0, b)
            && stages_take(stages, source, outs, b, c)),
{
}

fn is_link_stage(stage: &StreamingPipelineStage) -> (r: bool)
    ensures
        r == is_link(*stage),
{
    match stage {
        StreamingPipelineStage::BufferedCommand(_)
        | StreamingPipelineStage::Literal(_)
        | StreamingPipelineStage::File(_)
        | StreamingPipelineStage::Yes(_) => false,
        _ => true,
    }
}

fn stages_in_place(stages: &Vec<StreamingPipelineStage>, from_outside: bool) -> (r: bool)
    ensures
        r == makes_pipeline(stages@, from_outside),
{
    let mut i: usize = 0;
    while i < stages.len()
        invariant
            i <= stages@.len(),
            forall|k: int|
                0 <= k < i ==> in_place(#[trigger] stages@[k], k == 0 && !from_outside),
        decreases stages@.len() - i,
    {
        let first: bool = i == 0 && !from_outside;
        let fits: bool = match &stages[i] {
            StreamingPipelineStage::BufferedCommand(_) => true,
            StreamingPipelineStage::Literal(_) => first,
            StreamingPipelineStage::Yes(_) => first,
            other => !first && is_link_stage(other),
        };
        if !fits {
            assert(!in_place(stages@[i as int], i == 0 && !from_outside));
            return false;
        }
        i = i + 1;
    }
    stages.len() > 0
}

fn source_of(data: Vec<u8>, open: bool, pipe_stderr: bool) -> (r: Feeder)
    ensures
        r.wf(),
        !r.finished(),
        r is Source,
        r->reader.open() == open,
        r->relay.status == 0,
        r->relay.pipe_stderr == pipe_stderr,
        r->relay.stderr@.len() == 0,
        r.staged().len() == 0,
        forall|out: Seq<u8>| #[trigger]
            r.rest(out) == data@ + if open {
                out
            } else {
                Seq::empty()
            },
{
    let relay = RelayProcess::new("source".to_owned(), 0, pipe_stderr);
    let r = Feeder::Source { reader: SourceReader::Bytes { data, start: 0, open }, relay };
    assert(Seq::<u8>::empty() + data@.skip(0) =~= data@);
    r
}

fn command_of(has_input: bool, pipe_stderr: bool) -> (r: Feeder)
    ensures
        r.wf(),
        !r.finished(),
        !r.known(),
        r.staged().len() == 0,
        r matches Feeder::Command { process, staged: _ } && process.has_input == has_input
            && process.pipe_stderr == pipe_stderr && process.status == 0 && process.stderr@.len()
            == 0,
        forall|out: Seq<u8>| #[trigger] r.rest(out) == out,
{
    Feeder::Command {
        process: BufferedProcess::new(has_input, 0, pipe_stderr),
        staged: Vec::new(),
    }
}

fn first_feeder(stage: StreamingPipelineStage, pipe_stderr: bool) -> (r: Feeder)
    requires
        in_place(stage, true),
    ensures
        r.wf(),
        !r.finished(),
        r.staged().len() == 0,
        is_set_up(r, Some(0), seq![pipe_stderr]),
        match stage {
            StreamingPipelineStage::Literal(data) => r is Source && !r->reader.open() && forall|
                out: Seq<u8>,
            | #[trigger]
                r.rest(out) == data@,
            StreamingPipelineStage::Yes(line) => r is Source && !r->reader.open() && forall|
                out: Seq<u8>,
            | #[trigger]
                r.rest(out) == copies(line@, STREAMING_YES_MAX_LINES as nat),
            _ => !r.known() && (r matches Feeder::Command { process, staged: _ }
                && !process.has_input) && forall|out: Seq<u8>| #[trigger] r.rest(out) == out,
        },
{
    match stage {
        StreamingPipelineStage::Literal(data) => {
            assert(data@ + Seq::<u8>::empty() =~= data@);
            source_of(data, false, pipe_stderr)
        },
        StreamingPipelineStage::Yes(line) => {
            let reader = YesStreamReader::new(line, STREAMING_YES_MAX_LINES);
            let relay = RelayProcess::new("source".to_owned(), 0, pipe_stderr);
            let r = Feeder::Source { reader: SourceReader::Yes(reader), relay };
            assert(Seq::<u8>::empty() + reader.remaining() + Seq::<u8>::empty()
                =~= reader.remaining());
            r
        },
        _ => command_of(false, pipe_stderr),
    }
}

/// The bytes of a source from outside, if there is one.
pub open spec fn from_outside(source: Option<Vec<u8>>) -> Seq<u8> {
    match source {
        Some(data) => data@,
        None => Seq::empty(),
    }
}

/// Stretches that stand for stages, with one more behind them.
proof fn lemma_one_more(
    s: Seq<Stretch>,
    more: Stretch,
    stages: Seq<StreamingPipelineStage>,
    source: Seq<u8>,
    open: bool,
)
    requires
        stand_for(s, stages, source, open),
        stands_for(more, stages, source, open, starts_at(s, s.len() as int)),
        match more.feeder {
            Feeder::Source { reader: _, relay: _ } => s.len() == 0,
            Feeder::Command { process, staged: _ } => process.has_input == (s.len() > 0),
        },
    ensures
        stand_for(s.push(more), stages, source, open),
{
    let t = s.push(more);
    assert forall|k: int| 0 <= k < t.len() implies stands_for(
        #[trigger] t[k],
        stages,
        source,
        open,
        starts_at(t, k),
    ) by {
        if k < s.len() {
            assert(t[k] == s[k]);
            assert(starts_at(t, k) == starts_at(s, k));
        } else {
            assert(starts_at(t, k) == starts_at(s, k));
        }
    }
    assert forall|k: int| 0 <= k < t.len() implies match (#[trigger] t[k]).feeder {
        Feeder::Source { reader: _, relay: _ } => k == 0,
        Feeder::Command { process, staged: _ } => process.has_input == (k > 0),
    } by {
        if k < s.len() {
            assert(t[k] == s[k]);
            let f = s[k].feeder;
        }
    }
}

/// Whether a schedule stands for stages and no byte of it has moved.
pub open spec fn is_ready(
    sched: Schedule,
    stages: Seq<StreamingPipelineStage>,
    source: Seq<u8>,
    open: bool,
) -> bool {
    let s = sched.stretches@;
    &&& sched.wf()
    &&& stand_for(s, stages, source, open)
    &&& s[s.len() - 1].end == stages.len()
    &&& forall|k: int, outs: Seq<Seq<u8>>|
        0 <= k < s.len() ==> #[trigger] total(s, k, outs) == stage_writes(
            stages,
            outside(source, open, outs),
            outs,
            s[k].end - 1,
        )
    &&& forall|outs: Seq<Seq<u8>>| #[trigger]
        all_take(s, outs) == stages_take(
            stages,
            outside(source, open, outs),
            outs,
            0,
            stages.len() as int,
        )
}

impl Schedule {
    /// Makes stages a pipeline, with a source from outside where there is one. The pipes hold
    /// `capacity` bytes. A file that starts the pipeline has to be read before.
    pub fn assemble(
        source: Option<Vec<u8>>,
        stages: Vec<StreamingPipelineStage>,
        pipe_stderr: &Vec<bool>,
        capacity: usize,
    ) -> (r: Option<Schedule>)
        requires
            capacity > 0,
            pipe_stderr@.len() == stages@.len(),
        ensures
            match r {
                Some(sched) => makes_pipeline(stages@, source is Some) && is_ready(
                    sched,
                    stages@,
                    from_outside(source),
                    false,
                ) && are_set_up(sched.stretches@, pipe_stderr@) && all_hold(
                    sched.stretches@,
                    capacity as nat,
                ),
                None => !makes_pipeline(stages@, source is Some),
            },
    {
        Schedule::assemble_from(source, false, stages, pipe_stderr, capacity)
    }

    /// Makes stages a pipeline whose input is added to it bit by bit. None of them sends its
    /// standard error to the next one.
    pub fn assemble_open(stages: Vec<StreamingPipelineStage>, capacity: usize) -> (r: Option<
        Schedule,
    >)
        requires
            capacity > 0,
        ensures
            match r {
                Some(sched) => makes_pipeline(stages@, true) && is_fed(sched.stretches@)
                    && is_ready(sched, stages@, Seq::empty(), true) && are_set_up(
                    sched.stretches@,
                    Seq::new(stages@.len(), |i: int| false),
                ) && all_hold(sched.stretches@, capacity as nat),
                None => !makes_pipeline(stages@, true),
            },
    {
        let none: Vec<u8> = Vec::new();
        assert(none@ =~= Seq::<u8>::empty());
        let both = none_of(stages.len());
        Schedule::assemble_from(Some(none), true, stages, &both, capacity)
    }

    fn assemble_from(
        source: Option<Vec<u8>>,
        open: bool,
        stages: Vec<StreamingPipelineStage>,
        pipe_stderr: &Vec<bool>,
        capacity: usize,
    ) -> (r: Option<Schedule>)
        requires
            capacity > 0,
            pipe_stderr@.len() == stages@.len(),
            open ==> source is Some,
        ensures
            match r {
                Some(sched) => {
                    &&& makes_pipeline(stages@, source is Some)
                    &&& is_ready(sched, stages@, from_outside(source), open)
                    &&& are_set_up(sched.stretches@, pipe_stderr@)
                    &&& all_hold(sched.stretches@, capacity as nat)
                    &&& open ==> is_fed(sched.stretches@)
                },
                None => !makes_pipeline(stages@, source is Some),
            },
    {
        let ghost all = stages@;
        let ghost start = from_outside(source);
        let ghost fed = source is Some;
        if !stages_in_place(&stages, source.is_some()) {
            return None;
        }
        let count: usize = stages.len();
        let mut todo = stages;
        let (begun, place) = begin(source, open, &mut todo, pipe_stderr[0]);
        let mut feeder = begun;
        let mut stage: Option<usize> = place;
        let mut i: usize = if stage.is_some() {
            1
        } else {
            0
        };
        let mut stretches: Vec<Stretch> = Vec::new();
        let mut filters: Vec<StreamingPipelineStage> = Vec::new();
        let mut first: usize = i;
        assert(filters@ =~= all.subrange(first as int, i as int));
        while todo.len() > 0
            invariant
                capacity > 0,
                pipe_stderr@.len() == all.len(),
                makes_pipeline(all, fed),
                i + todo@.len() == count,
                count == all.len(),
                todo@ == all.skip(i as int),
                first <= i,
                !fed ==> i > 0,
                filters@ == all.subrange(first as int, i as int),
                all_filters(filters@),
                stand_for(stretches@, all, start, open),
                feeds(feeder, stage, all, start, open, first as int),
                match stage {
                    Some(x) => x == starts_at(stretches@, stretches@.len() as int),
                    None => stretches@.len() == 0,
                },
                has_place(feeder, stretches@.len()),
                is_set_up(feeder, stage, pipe_stderr@),
                are_set_up(stretches@, pipe_stderr@),
                all_hold(stretches@, capacity as nat),
                open ==> if stretches@.len() == 0 {
                    waits_for_input(feeder, stage)
                } else {
                    waits_for_input(stretches@[0].feeder, stretches@[0].stage)
                },
            decreases todo@.len(),
        {
            let next = todo.remove(0);
            proof {
                assert(next == all[i as int]);
                assert(todo@ =~= all.skip(i + 1));
                assert(in_place(all[i as int], i == 0 && !fed));
            }
            if is_link_stage(&next) {
                let ghost before = filters@;
                filters.push(next);
                proof {
                    assert(filters@ =~= all.subrange(first as int, i + 1));
                    assert forall|k: int| 0 <= k < filters@.len() implies is_link(
                        #[trigger] filters@[k],
                    ) by {
                        if k < before.len() {
                            assert(filters@[k] == before[k]);
                        }
                    }
                }
            } else {
                let ghost s0 = stretches@;
                let made = make_stretch(
                    feeder,
                    stage,
                    filters,
                    first,
                    i,
                    capacity,
                    pipe_stderr,
                    Ghost(all),
                    Ghost(start),
                    Ghost(open),
                );
                proof {
                    lemma_one_more(s0, made, all, start, open);
                }
                stretches.push(made);
                assert(are_set_up(stretches@, pipe_stderr@));
                assert(all_hold(stretches@, capacity as nat));
                feeder = command_of(true, pipe_stderr[i]);
                stage = Some(i);
                first = i + 1;
                filters = Vec::new();
                proof {
                    assert(filters@ =~= all.subrange(first as int, i + 1));
                    lemma_command_feeds(feeder, i, all, start, open);
                }
            }
            i = i + 1;
        }
        let ghost s0 = stretches@;
        let made = make_stretch(
            feeder,
            stage,
            filters,
            first,
            i,
            capacity,
            pipe_stderr,
            Ghost(all),
            Ghost(start),
            Ghost(open),
        );
        proof {
            lemma_one_more(s0, made, all, start, open);
        }
        stretches.push(made);
        assert(are_set_up(stretches@, pipe_stderr@));
        assert(all_hold(stretches@, capacity as nat));
        let cursor: usize = stretches.len();
        let sched = Schedule { stretches, cursor, progressed: false };
        proof {
            lemma_ready(sched, all, start, open);
        }
        Some(sched)
    }
}

/// Whether a process can feed the stretch that comes after `n` others.
pub open spec fn has_place(feeder: Feeder, n: nat) -> bool {
    match feeder {
        Feeder::Source { reader: _, relay: _ } => n == 0,
        Feeder::Command { process, staged: _ } => process.has_input == (n > 0),
    }
}

/// Whether a process is a source from outside that more can be added to.
pub open spec fn waits_for_input(feeder: Feeder, stage: Option<usize>) -> bool {
    stage is None && (feeder matches Feeder::Source { reader, relay: _ } && reader.open())
}

/// The process that starts a pipeline, and its stage, which is taken out of the others.
fn begin(
    source: Option<Vec<u8>>,
    open: bool,
    todo: &mut Vec<StreamingPipelineStage>,
    pipe_stderr: bool,
) -> (r: (Feeder, Option<usize>))
    requires
        makes_pipeline(old(todo)@, source is Some),
        open ==> source is Some,
    ensures
        r.1 == (if source is Some {
            None::<usize>
        } else {
            Some(0usize)
        }),
        final(todo)@ == old(todo)@.skip(
            if source is Some {
                0
            } else {
                1
            },
        ),
        has_place(r.0, 0),
        is_set_up(r.0, r.1, seq![pipe_stderr]),
        open ==> waits_for_input(r.0, r.1),
        feeds(
            r.0,
            r.1,
            old(todo)@,
            from_outside(source),
            open,
            if source is Some {
                0
            } else {
                1
            },
        ),
{
    let ghost all = todo@;
    proof {
        reveal(feeds);
    }
    match source {
        Some(data) => {
            assert(todo@ =~= all.skip(0));
            let feeder = source_of(data, open, false);
            assert forall|outs: Seq<Seq<u8>>|
                feeder.rest(outs.last()) == #[trigger] stage_writes(
                    all,
                    outside(data@, open, outs),
                    outs,
                    -1,
                ) by {}
            (feeder, None)
        },
        None => {
            let first = todo.remove(0);
            assert(in_place(all[0], true));
            assert(todo@ =~= all.skip(1));
            (first_feeder(first, pipe_stderr), Some(0))
        },
    }
}

proof fn lemma_command_feeds(
    feeder: Feeder,
    i: usize,
    stages: Seq<StreamingPipelineStage>,
    source: Seq<u8>,
    open: bool,
)
    requires
        i < stages.len(),
        stages[i as int] is BufferedCommand,
        feeder is Command,
        feeder.wf(),
        !feeder.finished(),
        !feeder.known(),
        feeder.staged().len() == 0,
        forall|out: Seq<u8>| #[trigger] feeder.rest(out) == out,
    ensures
        feeds(feeder, Some(i), stages, source, open, i + 1),
{
    reveal(feeds);
}

proof fn lemma_ready(
    sched: Schedule,
    stages: Seq<StreamingPipelineStage>,
    source: Seq<u8>,
    open: bool,
)
    requires
        sched.stretches@.len() > 0,
        sched.cursor == sched.stretches@.len(),
        stand_for(sched.stretches@, stages, source, open),
        sched.stretches@[sched.stretches@.len() - 1].end == stages.len(),
    ensures
        is_ready(sched, stages, source, open),
{
    let s = sched.stretches@;
    lemma_standing(s, stages, source, open);
    assert forall|outs: Seq<Seq<u8>>| #[trigger]
        all_take(s, outs) == stages_take(
            stages,
            outside(source, open, outs),
            outs,
            0,
            stages.len() as int,
        ) by {
        lemma_all_take(s, stages, source, open, outs, s.len() as int);
    }
}

proof fn lemma_standing(
    s: Seq<Stretch>,
    stages: Seq<StreamingPipelineStage>,
    source: Seq<u8>,
    open: bool,
)
    requires
        s.len() > 0,
        stand_for(s, stages, source, open),
    ensures
        in_line(s),
        forall|k: int, outs: Seq<Seq<u8>>|
            0 <= k < s.len() ==> #[trigger] total(s, k, outs) == stage_writes(
                stages,
                outside(source, open, outs),
                outs,
                s[k].end - 1,
            ),
{
    reveal(stands_for);
    assert forall|k: int| 0 <= k < s.len() implies (#[trigger] s[k]).wf() by {
        assert(stands_for(s[k], stages, source, open, starts_at(s, k)));
    }
    assert forall|k: int| 0 <= k < s.len() implies match (#[trigger] s[k]).feeder {
        Feeder::Source { reader: _, relay: _ } => k == 0,
        Feeder::Command { process, staged } => process.has_input == (k > 0) && (k == 0
            ==> staged@.len() == 0) && s[k].stage is Some,
    } by {
        assert(stands_for(s[k], stages, source, open, starts_at(s, k)));
    }
    assert forall|k: int| 1 <= k < s.len() && (#[trigger] s[k]).feeder.known() implies s[k
        - 1].body.dry() by {
        assert(stands_for(s[k], stages, source, open, starts_at(s, k)));
        let f = s[k].feeder;
    }
    assert forall|k: int, outs: Seq<Seq<u8>>| 0 <= k < s.len() implies #[trigger] total(
        s,
        k,
        outs,
    ) == stage_writes(stages, outside(source, open, outs), outs, s[k].end - 1) by {
        assert(stands_for(s[k], stages, source, open, starts_at(s, k)));
        if k + 1 < s.len() {
            assert(stands_for(s[k + 1], stages, source, open, starts_at(s, k + 1)));
        }
        assert(total(s, k, outs) =~= s[k].flow(outs));
    }
}

} // verus!
