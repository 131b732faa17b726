//! What a pipeline has come to in the end: the status of each stage, and what `tee` has copied.
use crate::pipeline::assemble::{
    all_hold, filters_stand, first_filter, is_ready, outside, stage_writes, stands_for, starts_at,
};
use crate::pipeline::body::{same_filter, same_filters, Body};
use crate::pipeline::network::{
    begins, begins_as, is_status_read, law_status_is_that_of_what_was_read,
    law_tee_before_head_copies_what_head_keeps, law_tee_copies_what_it_passes_on,
    law_tee_copies_what_it_reads, link_status,
};
use crate::pipeline::schedule::{
    all_over, follows, in_line, same_filters_in, statuses_of, statuses_upto, Schedule,
};
use crate::pipeline::stage::StreamingPipelineStage;
use crate::pipeline::stretch::{Feeder, Stretch};
use vstd::prelude::*;

verus! {

/// The exit status of a stage: a filter comes to that of its stage for what the stage before it
/// writes, a source or a command to what `codes` says.
pub open spec fn stage_code(
    stages: Seq<StreamingPipelineStage>,
    source: Seq<u8>,
    outs: Seq<Seq<u8>>,
    codes: Seq<i32>,
    i: int,
) -> i32 {
    match stages[i] {
        StreamingPipelineStage::Literal(_) => codes[i],
        StreamingPipelineStage::Yes(_) => codes[i],
        StreamingPipelineStage::BufferedCommand(_) => codes[i],
        _ => link_status(stages[i], stage_writes(stages, source, outs, i - 1)),
    }
}

/// The number of the first filter of a stretch.
pub open spec fn filter_start(s: Stretch) -> int {
    s.end - s.body.links().len()
}

proof fn lemma_stage(
    ready: Schedule,
    stages: Seq<StreamingPipelineStage>,
    source: Seq<u8>,
    open: bool,
    s: Seq<Stretch>,
    outs: Seq<Seq<u8>>,
    k: int,
    j: int,
)
    requires
        is_ready(ready, stages, source, open),
        follows(ready.stretches@, s, outs),
        0 <= k < s.len(),
        0 <= j < s[k].body.links().len(),
    ensures
        ({
            let i = filter_start(s[k]) + j;
            let b = s[k].body;
            let rest = s[k].rest(outs);
            let input = outside(source, open, outs);
            &&& 0 <= i < stages.len()
            &&& b.links().len() == ready.stretches@[k].body.links().len()
            &&& b.links()[j].tee == (stages[i] is Tee)
            &&& b.links()[j].body is Head == (stages[i] is Head && i > 0)
            &&& !b.links()[j].body.failed()
            &&& b.links()[j].body.stderr() == Seq::<u8>::empty()
            &&& begins_as(b.links()[j].begun@, stages[i])
            &&& b.pipes()[j + 1].capacity() == ready.stretches@[k].body.pipes()[j + 1].capacity()
            &&& b.result_at(j, rest) == link_status(
                stages[i],
                stage_writes(stages, input, outs, i - 1),
            ) || b.cut_at(j)
            &&& b.stream_at(j, rest) == stage_writes(stages, input, outs, i) || (b.cut_at(j)
                && begins(b.stream_at(j, rest), stage_writes(stages, input, outs, i)))
            &&& begins(
                b.inflow(rest),
                stage_writes(stages, input, outs, filter_start(s[k]) - 1),
            )
        }),
{
    reveal(follows);
    reveal(stands_for);
    reveal(filters_stand);
    reveal(same_filters);
    let r = ready.stretches@;
    let from = starts_at(r, k);
    assert(stands_for(r[k], stages, source, open, from));
    assert(same_filters_in(r, s, k, outs));
    let first = first_filter(r[k], from);
    if k > 0 {
        assert(stands_for(r[k - 1], stages, source, open, starts_at(r, k - 1)));
    }
    assert(s[k].same_place(&r[k]));
    assert(same_filter(r[k].body, s[k].body, j, r[k].rest(outs), s[k].rest(outs)));
    assert(filter_start(s[k]) == first);
    let link = r[k].body.links()[j];
    let x = r[k].body.result_at(j, r[k].rest(outs));
    let y = r[k].body.stream_at(j, r[k].rest(outs));
    let w = r[k].body.inflow(r[k].rest(outs));
    assert(w.take(w.len() as int) =~= w);
}

/// Once a pipeline is over, each filter that was not cut off has the exit status of its stage for
/// what the stage before it writes, and each `tee` that was not cut off has copied what its stage
/// passes on; one that was cut off has copied the beginning of that.
pub proof fn law_stage_in_the_end(
    ready: Schedule,
    stages: Seq<StreamingPipelineStage>,
    source: Seq<u8>,
    open: bool,
    s: Seq<Stretch>,
    outs: Seq<Seq<u8>>,
    k: int,
    j: int,
)
    requires
        is_ready(ready, stages, source, open),
        follows(ready.stretches@, s, outs),
        in_line(s),
        all_over(s),
        0 <= k < s.len(),
        0 <= j < s[k].body.links().len(),
    ensures
        ({
            let i = filter_start(s[k]) + j;
            let link = s[k].body.links()[j];
            let input = outside(source, open, outs);
            &&& !s[k].body.cut_at(j) ==> link.body.status_now() == link_status(
                stages[i],
                stage_writes(stages, input, outs, i - 1),
            )
            &&& stages[i] is Tee ==> {
                &&& begins(link.copied@, stage_writes(stages, input, outs, i))
                &&& !s[k].body.cut_at(j) ==> link.copied@ == stage_writes(stages, input, outs, i)
            }
        }),
{
    lemma_stage(ready, stages, source, open, s, outs, k, j);
    let i = filter_start(s[k]) + j;
    let w = stage_writes(stages, outside(source, open, outs), outs, i);
    assert(s[k].wf());
    assert(s[k].over && s[k].body.over());
    match s[k].body {
        Body::Direct(_) => {},
        Body::Filters(net) => {
            assert(net.links@[j].exited);
            if stages[i] is Tee {
                assert(net.links@[j].wf());
                law_tee_copies_what_it_passes_on(net, j, s[k].rest(outs));
                assert(w.take(w.len() as int) =~= w);
            }
        },
    }
}

/// Once a pipeline is over, each filter that was not cut off has the exit status that it was to come
/// to at any time before, and has written what it was to write then. So does a pipeline end in which
/// a file of `tee` could not be written: the filters come to what they were to come to after that.
pub proof fn law_filters_end_as_they_stood(
    a: Seq<Stretch>,
    s: Seq<Stretch>,
    outs: Seq<Seq<u8>>,
    k: int,
    j: int,
)
    requires
        follows(a, s, outs),
        in_line(s),
        all_over(s),
        0 <= k < s.len(),
        0 <= j < s[k].body.links().len(),
        !s[k].body.cut_at(j),
    ensures
        s[k].body.links()[j].body.status_now() == a[k].body.result_at(j, a[k].rest(outs)),
        s[k].body.pipes()[j + 1].written() == a[k].body.stream_at(j, a[k].rest(outs)),
{
    reveal(follows);
    reveal(same_filters);
    assert(same_filters_in(a, s, k, outs));
    assert(same_filter(a[k].body, s[k].body, j, a[k].rest(outs), s[k].rest(outs)));
    assert(s[k].wf());
    assert(s[k].over && s[k].body.over());
    match s[k].body {
        Body::Direct(_) => {},
        Body::Filters(net) => {
            assert(net.links@[j].exited);
            let w = net.pipes@[j + 1].written();
            assert(w + Seq::<u8>::empty() =~= w);
            assert(s[k].body.stream_at(j, s[k].rest(outs)) == w);
        },
    }
}

/// Whatever files failed before, `tee` has copied the beginning of what it has read; its complaints
/// are not copied. Once it is over and was not cut off, it has copied all that came to it.
pub proof fn law_tee_copies_its_input(
    a: Seq<Stretch>,
    s: Seq<Stretch>,
    outs: Seq<Seq<u8>>,
    stage: StreamingPipelineStage,
    k: int,
    j: int,
)
    requires
        follows(a, s, outs),
        in_line(s),
        0 <= k < s.len(),
        0 <= j < s[k].body.links().len(),
        stage is Tee,
        a[k].body.links()[j].tee,
        a[k].body.links()[j].body is Relay,
        begins_as(a[k].body.links()[j].begun@, stage),
    ensures
        ({
            let link = s[k].body.links()[j];
            let input = s[k].body.pipes()[j];
            &&& begins(link.copied@, input.taken())
            &&& link.exited && !s[k].body.cut_at(j) ==> link.copied@ == input.written()
                && input.write_closed()
        }),
{
    reveal(follows);
    reveal(same_filters);
    assert(same_filters_in(a, s, k, outs));
    assert(same_filter(a[k].body, s[k].body, j, a[k].rest(outs), s[k].rest(outs)));
    assert(s[k].wf());
    match s[k].body {
        Body::Direct(_) => {},
        Body::Filters(net) => {
            law_tee_copies_what_it_reads(net, stage, j);
        },
    }
}

/// The exit status of a filter is at any time that of what it has read, which is the beginning of
/// what the stage before it writes. So has a filter that was cut off the status that it had then:
/// `grep` in front of `head` has succeeded if it had found something.
pub proof fn law_status_of_what_was_read(
    ready: Schedule,
    stages: Seq<StreamingPipelineStage>,
    source: Seq<u8>,
    open: bool,
    s: Seq<Stretch>,
    outs: Seq<Seq<u8>>,
    k: int,
    j: int,
)
    requires
        is_ready(ready, stages, source, open),
        follows(ready.stretches@, s, outs),
        in_line(s),
        0 <= k < s.len(),
        0 <= j < s[k].body.links().len(),
    ensures
        ({
            let i = filter_start(s[k]) + j;
            let link = s[k].body.links()[j];
            let input = s[k].body.pipes()[j];
            &&& is_status_read(stages[i], input, link.body.status_now())
            &&& begins(
                input.taken(),
                stage_writes(stages, outside(source, open, outs), outs, i - 1),
            )
        }),
{
    lemma_stage(ready, stages, source, open, s, outs, k, j);
    let i = filter_start(s[k]) + j;
    assert(s[k].wf());
    match s[k].body {
        Body::Direct(_) => {},
        Body::Filters(net) => {
            law_status_is_that_of_what_was_read(net, stages[i], j);
            if j > 0 {
                lemma_stage(ready, stages, source, open, s, outs, k, j - 1);
                let input = net.pipes@[j];
                let all = s[k].body.stream_at(j - 1, s[k].rest(outs));
                let w = stage_writes(stages, outside(source, open, outs), outs, i - 1);
                assert(input.taken() =~= all.take(input.taken().len() as int));
                assert(input.taken() =~= w.take(input.taken().len() as int));
            } else {
                let input = net.pipes@[0];
                let all = s[k].body.inflow(s[k].rest(outs));
                let w = stage_writes(stages, outside(source, open, outs), outs, i - 1);
                assert(input.taken() =~= all.take(input.taken().len() as int));
                assert(input.taken() =~= w.take(input.taken().len() as int));
            }
        },
    }
}

/// `tee` in front of `head` has copied just what `head` keeps, where the pipes hold one byte and
/// `head` was not cut off itself: `yes | tee file | head` ends, and the file holds what was
/// printed.
pub proof fn law_tee_before_head(
    ready: Schedule,
    stages: Seq<StreamingPipelineStage>,
    source: Seq<u8>,
    open: bool,
    s: Seq<Stretch>,
    outs: Seq<Seq<u8>>,
    k: int,
    j: int,
)
    requires
        is_ready(ready, stages, source, open),
        all_hold(ready.stretches@, 1),
        follows(ready.stretches@, s, outs),
        in_line(s),
        all_over(s),
        0 <= k < s.len(),
        0 <= j < s[k].body.links().len() - 1,
        stages[filter_start(s[k]) + j] is Tee,
        stages[filter_start(s[k]) + j + 1] is Head,
        !s[k].body.cut_at(j + 1),
    ensures
        s[k].body.links()[j].copied@ == stage_writes(
            stages,
            outside(source, open, outs),
            outs,
            filter_start(s[k]) + j + 1,
        ),
{
    lemma_stage(ready, stages, source, open, s, outs, k, j);
    lemma_stage(ready, stages, source, open, s, outs, k, j + 1);
    assert(s[k].wf());
    assert(s[k].over && s[k].body.over());
    match s[k].body {
        Body::Direct(_) => {},
        Body::Filters(net) => {
            assert(net.links@[j].exited);
            assert(net.links@[j + 1].exited);
            let r = ready.stretches@;
            assert(r.len() == s.len()) by {
                reveal(follows);
            }
            assert(crate::pipeline::assemble::holds(r[k], 1));
            assert(r[k].body.pipes()[j + 1].capacity() == 1);
            assert(net.links@[j].wf());
            law_tee_before_head_copies_what_head_keeps(net, j, s[k].rest(outs));
        },
    }
}

/// Whether the sources and commands have come to these statuses.
pub open spec fn came_to(s: Seq<Stretch>, codes: Seq<i32>) -> bool {
    forall|k: int|
        0 <= k < s.len() ==> ((#[trigger] s[k]).stage matches Some(i) ==> (match s[k].feeder {
            Feeder::Source { reader: _, relay } => relay.status,
            Feeder::Command { process, staged: _ } => process.status,
        }) == codes[i as int])
}

/// Whether no filter was cut off.
pub open spec fn none_cut(s: Seq<Stretch>) -> bool {
    forall|k: int, j: int|
        0 <= k < s.len() && 0 <= j < s[k].body.links().len() ==> !#[trigger] s[k].body.cut_at(j)
}

/// Once a pipeline is over and no filter was cut off, the statuses are those of the stages, one
/// after the other: these are what `PIPESTATUS` and `pipefail` go by.
pub proof fn law_statuses_of_stages(
    ready: Schedule,
    stages: Seq<StreamingPipelineStage>,
    source: Seq<u8>,
    open: bool,
    s: Seq<Stretch>,
    outs: Seq<Seq<u8>>,
    codes: Seq<i32>,
)
    requires
        is_ready(ready, stages, source, open),
        follows(ready.stretches@, s, outs),
        in_line(s),
        all_over(s),
        none_cut(s),
        came_to(s, codes),
    ensures
        statuses_upto(s, s.len() as int) == Seq::new(
            stages.len(),
            |i: int| stage_code(stages, outside(source, open, outs), outs, codes, i),
        ),
{
    lemma_statuses(ready, stages, source, open, s, outs, codes, s.len() as int);
    let r = ready.stretches@;
    assert(r.len() == s.len() && s[s.len() - 1].end == r[r.len() - 1].end) by {
        reveal(follows);
        assert(same_filters_in(r, s, s.len() - 1, outs));
        assert(s[s.len() - 1].same_place(&r[r.len() - 1]));
    }
    let all = Seq::new(
        stages.len(),
        |i: int| stage_code(stages, outside(source, open, outs), outs, codes, i),
    );
    assert(statuses_upto(s, s.len() as int) =~= all);
}

proof fn lemma_statuses(
    ready: Schedule,
    stages: Seq<StreamingPipelineStage>,
    source: Seq<u8>,
    open: bool,
    s: Seq<Stretch>,
    outs: Seq<Seq<u8>>,
    codes: Seq<i32>,
    n: int,
)
    requires
        is_ready(ready, stages, source, open),
        follows(ready.stretches@, s, outs),
        in_line(s),
        all_over(s),
        none_cut(s),
        came_to(s, codes),
        0 <= n <= s.len(),
    ensures
        0 <= starts_at(s, n) <= stages.len(),
        statuses_upto(s, n).len() == starts_at(s, n),
        forall|i: int|
            0 <= i < starts_at(s, n) ==> #[trigger] statuses_upto(s, n)[i] == stage_code(
                stages,
                outside(source, open, outs),
                outs,
                codes,
                i,
            ),
    decreases n,
{
    if n > 0 {
        lemma_statuses(ready, stages, source, open, s, outs, codes, n - 1);
        let k = n - 1;
        let from = starts_at(s, k);
        let before = statuses_upto(s, k);
        let here = statuses_of(s[k]);
        lemma_place_of(ready, stages, source, open, s, outs, k);
        lemma_statuses_len(s[k]);
        assert(statuses_upto(s, n) == before + here);
        assert forall|i: int| 0 <= i < s[k].end implies #[trigger] statuses_upto(s, n)[i]
            == stage_code(stages, outside(source, open, outs), outs, codes, i) by {
            if i < from {
                assert(statuses_upto(s, n)[i] == before[i]);
            } else {
                lemma_status_at(ready, stages, source, open, s, outs, codes, k, i);
                assert(statuses_upto(s, n)[i] == here[i - from]);
            }
        }
    }
}

proof fn lemma_statuses_len(s: Stretch)
    ensures
        statuses_of(s).len() == s.body.links().len() + if s.stage is Some {
            1int
        } else {
            0
        },
{
    assert(s.body.statuses().len() == s.body.links().len());
}

proof fn lemma_status_at(
    ready: Schedule,
    stages: Seq<StreamingPipelineStage>,
    source: Seq<u8>,
    open: bool,
    s: Seq<Stretch>,
    outs: Seq<Seq<u8>>,
    codes: Seq<i32>,
    k: int,
    i: int,
)
    requires
        is_ready(ready, stages, source, open),
        follows(ready.stretches@, s, outs),
        in_line(s),
        all_over(s),
        none_cut(s),
        came_to(s, codes),
        0 <= k < s.len(),
        starts_at(s, k) <= i < s[k].end,
    ensures
        statuses_of(s[k])[i - starts_at(s, k)] == stage_code(
            stages,
            outside(source, open, outs),
            outs,
            codes,
            i,
        ),
{
    lemma_place_of(ready, stages, source, open, s, outs, k);
    let from = starts_at(s, k);
    let first = filter_start(s[k]);
    let here = statuses_of(s[k]);
    if i < first {
        assert(s[k].stage == Some(from as usize));
        lemma_start_is_no_filter(ready, stages, source, open, s, outs, k);
    } else {
        let j = i - first;
        lemma_is_filter(ready, stages, source, open, s, outs, k, j);
        assert(!s[k].body.cut_at(j));
        law_stage_in_the_end(ready, stages, source, open, s, outs, k, j);
        lemma_status_of_filter(s[k], j);
        if s[k].stage is Some {
            assert(here[i - from] == s[k].body.statuses()[j]);
        } else {
            assert(here[i - from] == s[k].body.statuses()[j]);
        }
    }
}

proof fn lemma_status_of_filter(s: Stretch, j: int)
    requires
        0 <= j < s.body.links().len(),
    ensures
        s.body.statuses().len() == s.body.links().len(),
        s.body.statuses()[j] == s.body.links()[j].body.status_now(),
{
}

/// The stage that a source or a command is starts a pipeline or is a command.
proof fn lemma_start_is_no_filter(
    ready: Schedule,
    stages: Seq<StreamingPipelineStage>,
    source: Seq<u8>,
    open: bool,
    s: Seq<Stretch>,
    outs: Seq<Seq<u8>>,
    k: int,
)
    requires
        is_ready(ready, stages, source, open),
        follows(ready.stretches@, s, outs),
        0 <= k < s.len(),
        s[k].stage is Some,
    ensures
        ({
            let stage = stages[starts_at(s, k)];
            stage is Literal || stage is Yes || stage is BufferedCommand
        }),
{
    reveal(follows);
    reveal(stands_for);
    let r = ready.stretches@;
    assert(stands_for(r[k], stages, source, open, starts_at(r, k)));
    assert(same_filters_in(r, s, k, outs));
    assert(s[k].same_place(&r[k]));
    if k > 0 {
        assert(same_filters_in(r, s, k - 1, outs));
        assert(s[k - 1].same_place(&r[k - 1]));
    }
}

/// A stretch starts where the one before it ends, with its own process where that is a stage.
proof fn lemma_place_of(
    ready: Schedule,
    stages: Seq<StreamingPipelineStage>,
    source: Seq<u8>,
    open: bool,
    s: Seq<Stretch>,
    outs: Seq<Seq<u8>>,
    k: int,
)
    requires
        is_ready(ready, stages, source, open),
        follows(ready.stretches@, s, outs),
        0 <= k < s.len(),
    ensures
        starts_at(s, k) <= s[k].end <= stages.len(),
        s[k].stage is Some ==> s[k].stage == Some(starts_at(s, k) as usize) && filter_start(s[k])
            == starts_at(s, k) + 1 && 0 <= starts_at(s, k) < stages.len() && !(
        crate::pipeline::network::is_link(stages[starts_at(s, k)])),
        s[k].stage is None ==> filter_start(s[k]) == starts_at(s, k),
{
    reveal(follows);
    reveal(stands_for);
    reveal(same_filters);
    let r = ready.stretches@;
    assert(stands_for(r[k], stages, source, open, starts_at(r, k)));
    assert(same_filters_in(r, s, k, outs));
    assert(s[k].same_place(&r[k]));
    if k > 0 {
        assert(stands_for(r[k - 1], stages, source, open, starts_at(r, k - 1)));
        assert(same_filters_in(r, s, k - 1, outs));
        assert(s[k - 1].same_place(&r[k - 1]));
    }
}

proof fn lemma_is_filter(
    ready: Schedule,
    stages: Seq<StreamingPipelineStage>,
    source: Seq<u8>,
    open: bool,
    s: Seq<Stretch>,
    outs: Seq<Seq<u8>>,
    k: int,
    j: int,
)
    requires
        is_ready(ready, stages, source, open),
        follows(ready.stretches@, s, outs),
        0 <= k < s.len(),
        0 <= j < s[k].body.links().len(),
    ensures
        crate::pipeline::network::is_link(stages[filter_start(s[k]) + j]),
{
    reveal(follows);
    reveal(stands_for);
    reveal(same_filters);
    let r = ready.stretches@;
    assert(stands_for(r[k], stages, source, open, starts_at(r, k)));
    assert(same_filters_in(r, s, k, outs));
    assert(s[k].same_place(&r[k]));
}

} // verus!
