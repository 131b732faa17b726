//! What holds of the output of a shell.
use crate::fd_table::{FdView, OutputTarget, OutputView};
use crate::pipeline::process::{poll_after_write, taken_by, WriteResult};
use crate::pipeline::stage::StreamingPipelineStage;
use crate::redirect::{
    input_collected, redirected, taken_for_file, ResolvedRedirection, FD_BOTH,
};
use crate::runtime::control_laws::law_merged_events;
use crate::runtime::isolated::{goes_elsewhere, isolated_answer, merged};
use crate::runtime::output::{
    active_stderr, active_stdout, builtin_written_to, collector, collects, cut_stdout,
    handed_back, no_stderr, passed_to, routed, stored, streams_written, written_to, BudgetCategory, CaptureView,
    ConsoleView, ExhaustionReason, StopReason,
};
use crate::runtime::protocol::{
    buffer_event, poll_answer, poll_events, EventView, ExecutionPoll,
};
use crate::runtime::run::{advanced, lists_from, run_ok, ActiveRun};
use crate::runtime::single::{repeated_to, single_output};
use crate::runtime::subst::{sink_index, sink_scope, SubstSink};
use crate::runtime::worker::{drained, output_events, stop_reason_of};
use vstd::prelude::*;

verus! {

/// Of the places that collect a stream the innermost one gets it; others get nothing.
pub proof fn law_innermost_collects(captures: Seq<CaptureView>, stdout: bool)
    ensures
        ({
            let i = collector(captures, stdout);
            &&& -1 <= i < captures.len()
            &&& i >= 0 ==> if stdout {
                captures[i].capture_stdout
            } else {
                captures[i].capture_stderr
            }
            &&& forall|j: int|
                i < j < captures.len() ==> !(if stdout {
                    (#[trigger] captures[j]).capture_stdout
                } else {
                    captures[j].capture_stderr
                })
        }),
    decreases captures.len(),
{
    if captures.len() > 0 && !collects(captures.last(), stdout) {
        law_innermost_collects(captures.drop_last(), stdout);
        assert forall|j: int|
            collector(captures, stdout) < j < captures.len() implies !(if stdout {
            (#[trigger] captures[j]).capture_stdout
        } else {
            captures[j].capture_stderr
        }) by {
            if j < captures.len() - 1 {
                assert(captures.drop_last()[j] == captures[j]);
            }
        }
    }
}

proof fn lemma_same_collector(a: Seq<CaptureView>, b: Seq<CaptureView>, stdout: bool)
    requires
        a.len() == b.len(),
        forall|i: int|
            0 <= i < a.len() ==> (#[trigger] a[i]).capture_stdout == b[i].capture_stdout
                && a[i].capture_stderr == b[i].capture_stderr,
    ensures
        collector(a, stdout) == collector(b, stdout),
    decreases a.len(),
{
    if a.len() > 0 {
        let n = a.len() - 1;
        assert(a[n].capture_stdout == b[n].capture_stdout);
        assert forall|i: int| 0 <= i < a.drop_last().len() implies (
        #[trigger] a.drop_last()[i]).capture_stdout == b.drop_last()[i].capture_stdout
            && a.drop_last()[i].capture_stderr == b.drop_last()[i].capture_stderr by {
            assert(a[i].capture_stdout == b[i].capture_stdout);
        }
        lemma_same_collector(a.drop_last(), b.drop_last(), stdout);
    }
}

/// What is written to a stream is added behind what there is of that stream, and the other stream stays
/// as it is.
pub proof fn law_written_data_is_added(c: ConsoleView, data: Seq<u8>)
    ensures
        active_stdout(stored(c, data, true)) == active_stdout(c) + data,
        active_stderr(stored(c, data, true)) == active_stderr(c),
        active_stderr(stored(c, data, false)) == active_stderr(c) + data,
        active_stdout(stored(c, data, false)) == active_stdout(c),
        stored(c, data, true).output_bytes == c.output_bytes,
        stored(c, data, false).output_bytes == c.output_bytes,
{
    law_innermost_collects(c.captures, true);
    law_innermost_collects(c.captures, false);
    lemma_same_collector(c.captures, stored(c, data, true).captures, true);
    lemma_same_collector(c.captures, stored(c, data, true).captures, false);
    lemma_same_collector(c.captures, stored(c, data, false).captures, true);
    lemma_same_collector(c.captures, stored(c, data, false).captures, false);
}

/// A stream without a redirection goes where it always goes; `2>&1` and `1>&2` send one to the other.
/// What is sent elsewhere leaves the console alone.
pub proof fn law_streams_are_routed(c: ConsoleView, t: FdView, data: Seq<u8>, stdout: bool)
    ensures
        written_to(c, None, data, true) == written_to(
            c,
            Some(FdView { stdout: OutputView::InheritStdout, ..t }),
            data,
            true,
        ),
        written_to(c, None, data, false) == written_to(
            c,
            Some(FdView { stderr: OutputView::InheritStderr, ..t }),
            data,
            false,
        ),
        written_to(c, None, data, true) == written_to(
            c,
            Some(FdView { stderr: OutputView::InheritStdout, ..t }),
            data,
            false,
        ),
        written_to(c, None, data, false) == written_to(
            c,
            Some(FdView { stdout: OutputView::InheritStderr, ..t }),
            data,
            true,
        ),
        !(t.stdout is InheritStdout) && !(t.stdout is InheritStderr) ==> written_to(
            c,
            Some(t),
            data,
            true,
        ) == c && builtin_written_to(c, Some(t), data, true) == c && routed(Some(t), true) == Err::<
            bool,
            OutputView,
        >(t.stdout),
        !(t.stderr is InheritStdout) && !(t.stderr is InheritStderr) ==> written_to(
            c,
            Some(t),
            data,
            false,
        ) == c && builtin_written_to(c, Some(t), data, false) == c && routed(Some(t), false)
            == Err::<bool, OutputView>(t.stderr),
{
}

/// Output that nothing collects is counted, byte by byte; what is collected is not. The limit is passed
/// exactly where the count is greater, and stays passed.
pub proof fn law_visible_output_is_counted(c: ConsoleView, data: Seq<u8>, stdout: bool)
    ensures
        ({
            let after = written_to(c, None, data, stdout);
            let seen = collector(c.captures, stdout) < 0;
            &&& seen ==> after.output_bytes == c.output_bytes + data.len()
            &&& !seen ==> after.output_bytes == c.output_bytes
            &&& seen ==> (after.resource_exhausted <==> c.resource_exhausted || (c.output_limit > 0
                && c.output_bytes + data.len() > c.output_limit))
            &&& !seen ==> after.resource_exhausted == c.resource_exhausted
            &&& after.output_limit == c.output_limit
        }),
{
}

/// Where a builtin passes the limit, the reason says how much was written and how much was allowed.
pub proof fn law_reason_of_too_much_output(c: ConsoleView, data: Seq<u8>, stdout: bool)
    requires
        collector(c.captures, stdout) < 0,
        c.output_bytes + data.len() <= u64::MAX,
        c.output_limit <= u64::MAX,
    ensures
        ({
            let after = builtin_written_to(c, None, data, stdout);
            let used = c.output_bytes + data.len();
            &&& !c.resource_exhausted && c.output_limit > 0 && used > c.output_limit
                ==> after.stop_reason == Some(
                StopReason::Exhausted(
                    ExhaustionReason {
                        category: BudgetCategory::VisibleOutputBytes,
                        used: used as u64,
                        limit: c.output_limit as u64,
                    },
                ),
            )
            &&& after.stop_reason is Some ==> used > c.output_limit && c.output_limit > 0
            &&& after.output_bytes == used
        }),
{
}

/// Both streams of a command are written at once as they are one after the other, the standard output
/// first, and all that is seen of them is counted.
pub proof fn law_both_streams(c: ConsoleView, out: Seq<u8>, err: Seq<u8>)
    ensures
        ({
            let after = streams_written(c, None, out, err);
            &&& active_stdout(after) == active_stdout(c) + out
            &&& active_stderr(after) == active_stderr(c) + err
            &&& collector(c.captures, true) < 0 && collector(c.captures, false) < 0
                ==> after.output_bytes == c.output_bytes + out.len() + err.len()
            &&& collector(c.captures, true) >= 0 && collector(c.captures, false) >= 0
                ==> after.output_bytes == c.output_bytes
        }),
{
    let one = passed_to(c, None, out, true);
    law_written_data_is_added(c, out);
    law_written_data_is_added(one, err);
    law_innermost_collects(c.captures, true);
    lemma_same_collector(c.captures, one.captures, false);
}

/// Output can be cut back to an earlier length, and the standard error emptied; neither touches the
/// other stream.
pub proof fn law_output_is_cut_back(c: ConsoleView, data: Seq<u8>)
    ensures
        active_stdout(cut_stdout(stored(c, data, true), active_stdout(c).len() as int))
            == active_stdout(c),
        active_stderr(cut_stdout(c, 0)) == active_stderr(c),
        active_stderr(no_stderr(c)).len() == 0,
        active_stdout(no_stderr(c)) == active_stdout(c),
{
    let s = stored(c, data, true);
    let n = active_stdout(c).len() as int;
    law_written_data_is_added(c, data);
    law_innermost_collects(c.captures, true);
    law_innermost_collects(c.captures, false);
    law_innermost_collects(s.captures, true);
    lemma_same_collector(c.captures, s.captures, true);
    lemma_same_collector(s.captures, cut_stdout(s, n).captures, true);
    lemma_same_collector(c.captures, cut_stdout(c, 0).captures, false);
    lemma_same_collector(c.captures, no_stderr(c).captures, false);
    lemma_same_collector(c.captures, no_stderr(c).captures, true);
    assert((active_stdout(c) + data).take(n) =~= active_stdout(c));
}

/// What is printed is told to the host, each stream in one event and the standard output first; a
/// stream without output has none. Then there is nothing left to tell.
pub proof fn law_output_is_told(c: ConsoleView)
    ensures
        c.stdout.len() > 0 && c.stderr.len() > 0 ==> output_events(c) == seq![
            EventView::Stdout(c.stdout),
            EventView::Stderr(c.stderr),
        ],
        c.stdout.len() > 0 && c.stderr.len() == 0 ==> output_events(c) == seq![
            EventView::Stdout(c.stdout),
        ],
        c.stdout.len() == 0 && c.stderr.len() > 0 ==> output_events(c) == seq![
            EventView::Stderr(c.stderr),
        ],
        output_events(drained(c)).len() == 0,
        drained(c).output_bytes == c.output_bytes,
{
    assert(c.stdout.len() > 0 && c.stderr.len() > 0 ==> output_events(c) =~= seq![
        EventView::Stdout(c.stdout),
        EventView::Stderr(c.stderr),
    ]);
    assert(c.stdout.len() > 0 && c.stderr.len() == 0 ==> output_events(c) =~= seq![
        EventView::Stdout(c.stdout),
    ]);
    assert(c.stdout.len() == 0 && c.stderr.len() > 0 ==> output_events(c) =~= seq![
        EventView::Stderr(c.stderr),
    ]);
}

/// A poll that leaves more to do says so behind its events, one that does not says nothing more, and
/// without a script there is an error.
pub proof fn law_polls_are_answered(p: ExecutionPoll)
    ensures
        p is Yield ==> poll_answer(Some(p)) == poll_events(p).push(EventView::Yielded),
        p is Done ==> poll_answer(Some(p)) == poll_events(p),
        poll_answer(None).len() == 1 && poll_answer(None)[0] is Diagnostic,
{
}

/// Why a run stopped: the reason that is known, else that it was cancelled, else the budget that ran
/// out, else the limit of output. A run that has not stopped has no new reason.
pub proof fn law_reason_of_a_stop(c: ConsoleView, cancelled: bool, budget: Option<StopReason>)
    ensures
        !c.resource_exhausted || c.stop_reason is Some ==> stop_reason_of(c, cancelled, budget)
            == c.stop_reason,
        c.resource_exhausted && c.stop_reason is None ==> {
            &&& cancelled ==> stop_reason_of(c, cancelled, budget) == Some(StopReason::Cancelled)
            &&& !cancelled && budget is Some ==> stop_reason_of(c, cancelled, budget) == budget
            &&& !cancelled && budget is None ==> (stop_reason_of(c, cancelled, budget) is Some
                <==> c.output_limit > 0 && c.output_bytes > c.output_limit)
        },
{
}

/// A line that is written many times over appears that often, where no limit is set.
pub proof fn law_repeated_line(c: ConsoleView, line: Seq<u8>, n: nat)
    requires
        c.captures.len() == 0,
        c.output_limit == 0,
        !c.resource_exhausted,
    ensures
        repeated_to(c, None, line, n).stdout.len() == c.stdout.len() + n * line.len(),
        repeated_to(c, None, line, n).stdout.take(c.stdout.len() as int) == c.stdout,
        repeated_to(c, None, line, n).output_bytes == c.output_bytes + n * line.len(),
        repeated_to(c, None, line, n).stderr == c.stderr,
        n > 0 ==> repeated_to(c, None, line, n) == repeated_to(
            written_to(c, None, line, true),
            None,
            line,
            (n - 1) as nat,
        ),
    decreases n,
{
    if n == 0 {
        assert(c.stdout.take(c.stdout.len() as int) =~= c.stdout);
    } else {
        let one = written_to(c, None, line, true);
        law_repeated_line(one, line, (n - 1) as nat);
        assert(n * line.len() == line.len() + (n - 1) * line.len()) by (nonlinear_arith);
        let end = repeated_to(c, None, line, n).stdout;
        assert(end.take(c.stdout.len() as int) =~= end.take(one.stdout.len() as int).take(
            c.stdout.len() as int,
        ));
        assert(one.stdout.take(c.stdout.len() as int) =~= c.stdout);
    }
}

proof fn lemma_sink_index(scope: Seq<SubstSink>, path: Seq<char>)
    ensures
        0 <= sink_index(scope, path) <= scope.len(),
        sink_index(scope, path) < scope.len() ==> scope[sink_index(scope, path)].path@ == path,
        forall|j: int|
            0 <= j < sink_index(scope, path) ==> (#[trigger] scope[j]).path@ != path,
    decreases scope.len(),
{
    if scope.len() > 0 && scope[0].path@ != path {
        let r = scope.skip(1);
        lemma_sink_index(r, path);
        assert forall|j: int| 0 <= j < sink_index(scope, path) implies (
        #[trigger] scope[j]).path@ != path by {
            if j > 0 {
                assert(r[j - 1] == scope[j]);
            }
        }
    }
}

/// The place that a path stands for is the first of that path in the innermost scope that has one.
pub proof fn law_places_are_found(scopes: Seq<Vec<SubstSink>>, path: Seq<char>, n: int)
    requires
        0 <= n <= scopes.len(),
    ensures
        ({
            let s = sink_scope(scopes, path, n);
            &&& -1 <= s < n
            &&& s >= 0 ==> {
                let k = sink_index(scopes[s]@, path);
                &&& 0 <= k < scopes[s]@.len()
                &&& scopes[s]@[k].path@ == path
                &&& forall|j: int| 0 <= j < k ==> (#[trigger] scopes[s]@[j]).path@ != path
            }
            &&& forall|t: int, j: int|
                s < t < n && 0 <= j < scopes[t]@.len() ==> (#[trigger] scopes[t]@[j]).path@ != path
        }),
    decreases n,
{
    if n > 0 {
        lemma_sink_index(scopes[n - 1]@, path);
        if sink_index(scopes[n - 1]@, path) >= scopes[n - 1]@.len() {
            law_places_are_found(scopes, path, n - 1);
        }
    }
}

/// What goes to a file of the output that was printed: of the standard output what came after a point,
/// of the standard error all. It is taken away from where it was, and the other stream stays; with both
/// streams redirected the standard error follows the standard output.
pub proof fn law_output_taken_for_a_file(c: ConsoleView, out: Seq<u8>, append: bool)
    ensures
        ({
            let before = active_stdout(c);
            let errors = active_stderr(c);
            let printed = stored(c, out, true);
            let from = before.len() as int;
            let one = taken_for_file(printed, 1, append, from);
            let two = taken_for_file(printed, 2, append, from);
            let both = taken_for_file(printed, FD_BOTH, false, from);
            &&& one.0 == out
            &&& active_stdout(one.1) == before
            &&& active_stderr(one.1) == errors
            &&& two.0 == errors
            &&& active_stderr(two.1).len() == 0
            &&& active_stdout(two.1) == before + out
            &&& both.0 == out + errors
            &&& active_stdout(both.1) == before
            &&& active_stderr(both.1).len() == 0
        }),
{
    let printed = stored(c, out, true);
    let from = active_stdout(c).len() as int;
    law_written_data_is_added(c, out);
    law_output_is_cut_back(c, out);
    law_output_is_cut_back(printed, Seq::empty());
    assert((active_stdout(c) + out).skip(from) =~= out);
    let cut = cut_stdout(printed, from);
    law_innermost_collects(printed.captures, true);
    law_innermost_collects(printed.captures, false);
    lemma_same_collector(printed.captures, cut.captures, false);
    assert(active_stderr(cut) == active_stderr(printed));
    law_output_is_cut_back(cut, Seq::empty());
}

/// The standard input is set by the redirections of it alone, one after the other, and the first that
/// cannot be made ends that.
pub proof fn law_input_redirections(t: FdView, rs: Seq<ResolvedRedirection>, i: int)
    requires
        0 <= i < rs.len(),
    ensures
        !(rs[i] is Input) && !(rs[i] is HereDoc) && !(rs[i] is HereString) ==> input_collected(
            t,
            rs,
            i,
        ) == input_collected(t, rs, i + 1),
        rs[i] is Input || rs[i] is HereDoc || rs[i] is HereString ==> (redirected(t, rs[i]) matches
            Ok(u) ==> input_collected(t, rs, i) == input_collected(u, rs, i + 1)),
        rs[i] is Input || rs[i] is HereDoc || rs[i] is HereString ==> (redirected(t, rs[i]) matches
            Err(m) ==> input_collected(t, rs, i) == (t, Some(m))),
        input_collected(t, rs, rs.len() as int) == (t, None::<Seq<char>>),
{
}

/// What a command that needs no input prints: a text once, a line of `yes` as often as the limit says.
pub proof fn law_output_without_input(d: Vec<u8>)
    ensures
        single_output(StreamingPipelineStage::Literal(d)) == Some((d@, 1nat)),
        single_output(StreamingPipelineStage::Yes(d)) == Some((d@, 65536nat)),
        single_output(StreamingPipelineStage::Cat) is None,
{
}

/// Output that is redirected is handed back with where it goes; other output is not.
pub proof fn law_redirected_output_is_handed_back(
    t: FdView,
    stdout: bool,
    data: Seq<u8>,
    r: Option<OutputTarget>,
    x: Option<(OutputTarget, Vec<u8>)>,
)
    requires
        handed_back(Some(t), stdout, r),
        goes_elsewhere(Some(t), data, stdout, x),
    ensures
        ({
            let target = if stdout {
                t.stdout
            } else {
                t.stderr
            };
            let here = target is InheritStdout || target is InheritStderr;
            &&& here <==> r is None
            &&& here <==> x is None
            &&& r matches Some(o) ==> o@ == target
            &&& x matches Some(o) ==> o.0@ == target && o.1@ == data
        }),
{
}

/// The answer of a run that is kept apart: what was collected of the standard output, then of the
/// standard error, then what the script told, then the notes.
pub proof fn law_answer_of_a_run_kept_apart(
    collected: CaptureView,
    inner: Seq<EventView>,
    notes: Seq<EventView>,
)
    requires
        collected.stdout.len() > 0,
        collected.stderr.len() > 0,
    ensures
        ({
            let all = isolated_answer(collected, inner, notes);
            &&& all.len() >= 2 + notes.len()
            &&& all[0] == EventView::Stdout(collected.stdout)
            &&& all[1] == EventView::Stderr(collected.stderr)
            &&& all.skip(all.len() - notes.len()) == notes
        }),
{
    let streams = buffer_event(collected.stdout, true) + buffer_event(collected.stderr, false);
    law_merged_events(streams, inner);
    let m = merged(streams, inner);
    assert(m.take(2) == streams);
    assert(m[0] == m.take(2)[0] && m[1] == m.take(2)[1]);
    let all = isolated_answer(collected, inner, notes);
    assert(all.skip(all.len() - notes.len()) =~= notes);
}

/// A script goes on list by list: each step leaves one list fewer, and none is passed over.
pub proof fn law_lists_run_in_order(run: ActiveRun, next: ActiveRun)
    requires
        run_ok(run),
        run.complete_index < run.items@.len(),
        advanced(run, next),
    ensures
        lists_from(next.items@, next.complete_index as int) - next.and_or_index + 1 == lists_from(
            run.items@,
            run.complete_index as int,
        ) - run.and_or_index,
        next.complete_index == run.complete_index ==> next.and_or_index == run.and_or_index + 1,
        next.complete_index != run.complete_index ==> next.complete_index == run.complete_index + 1
            && next.and_or_index == 0 && run.and_or_index + 1
            == run.items@[run.complete_index as int].lists,
{
}

/// What is left of a write: all is taken where it fitted, a part where the pipe was full, nothing where
/// nobody reads; and only the last ends the process.
pub proof fn law_writes_to_a_pipe(n: usize)
    ensures
        taken_by(WriteResult::Written(n)) == n,
        taken_by(WriteResult::WouldBlock(n)) == n,
        taken_by(WriteResult::BrokenPipe) == 0,
        poll_after_write(WriteResult::Written(n)) is Ready,
        poll_after_write(WriteResult::WouldBlock(0)) is PendingWrite,
        n > 0 ==> poll_after_write(WriteResult::WouldBlock(n)) is Ready,
        poll_after_write(WriteResult::BrokenPipe) is Exited,
{
}

} // verus!
