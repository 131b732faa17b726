//! A pipeline of filters and whole commands, and the rounds in which it runs.
use crate::pipeline::body::{
    lemma_same_filters_chain, lemma_same_filters_self, same_filters, saturating_sum,
    target_failed_in, waiting, Body,
};
use crate::pipeline::network::{law_pipeline_never_deadlocks, lemma_takes_input, Round};
use crate::pipeline::pipe::least;
use crate::pipeline::process::{tee_error_message, BufferedProcess, ReadOutcome, Staged};
use crate::pipeline::stretch::{prints, ran_to, same_flow, Feeder, Stretch};
use vstd::prelude::*;

verus! {

/// A pipeline while it runs: stretches, each of which is fed by a source or a command. A command
/// reads what comes out of the stretch before it, and runs when that has ended.
pub struct Schedule {
    pub stretches: Vec<Stretch>,
    /// The stretches from here on were polled in this round.
    pub cursor: usize,
    /// Whether something happened in this round.
    pub progressed: bool,
}

/// What polling came to.
#[derive(Clone, Copy, Debug, PartialEq, Eq, Structural)]
pub enum Step {
    /// The command that feeds this stretch is to be run on the input that was collected for it.
    Run(usize),
    /// The round is over.
    RoundOver,
    /// A filter cannot take its input.
    Stuck,
}

/// What was taken out of a stretch by the command behind it, and what is still to be taken, if
/// these are what the commands of the pipeline print.
pub open spec fn total(s: Seq<Stretch>, k: int, outs: Seq<Seq<u8>>) -> Seq<u8> {
    (if k + 1 < s.len() {
        s[k + 1].feeder.staged()
    } else {
        Seq::empty()
    }) + s[k].flow(outs)
}

/// Whether every stretch has written and still writes the same, if these are what the commands
/// print.
#[verifier::opaque]
pub open spec fn same_totals(a: Seq<Stretch>, b: Seq<Stretch>, outs: Seq<Seq<u8>>) -> bool {
    forall|j: int| 0 <= j < a.len() ==> #[trigger] total(b, j, outs) == total(a, j, outs)
}

/// Whether a process is the same but for its way through its bytes and the input it collected.
pub open spec fn same_role(a: Feeder, b: Feeder) -> bool {
    match (a, b) {
        (Feeder::Source { reader: r, relay: x }, Feeder::Source { reader: q, relay: y }) => x.stderr
            == y.stderr && x.status == y.status && r.open() == q.open(),
        (
            Feeder::Command { process: x, staged: _ },
            Feeder::Command { process: y, staged: _ },
        ) => x.has_input == y.has_input && x.pipe_stderr == y.pipe_stderr && x.command_ran
            == y.command_ran && x.status == y.status && x.stderr@ == y.stderr@,
        _ => false,
    }
}

/// Whether the stretches differ only in how far the bytes have come.
#[verifier::opaque]
pub open spec fn kept(a: Seq<Stretch>, b: Seq<Stretch>) -> bool {
    &&& a.len() == b.len()
    &&& forall|k: int|
        0 <= k < a.len() ==> (#[trigger] b[k]).same_place(&a[k]) && same_role(
            a[k].feeder,
            b[k].feeder,
        )
    &&& forall|k: int, outs: Seq<Seq<u8>>|
        0 <= k < a.len() ==> #[trigger] total(b, k, outs) == total(a, k, outs)
    &&& forall|k: int, outs: Seq<Seq<u8>>|
        0 <= k < a.len() && a[k].takes(outs) ==> #[trigger] b[k].takes(outs)
    &&& forall|k: int, outs: Seq<Seq<u8>>|
        0 <= k < a.len() ==> #[trigger] b[k].result(outs) == a[k].result(outs)
    &&& forall|k: int, outs: Seq<Seq<u8>>|
        0 <= k < a.len() ==> #[trigger] same_filters_in(a, b, k, outs)
}

/// Whether the filters of stretch `k` are the same.
pub open spec fn same_filters_in(
    a: Seq<Stretch>,
    b: Seq<Stretch>,
    k: int,
    outs: Seq<Seq<u8>>,
) -> bool {
    same_filters(a[k].body, b[k].body, a[k].rest(outs), b[k].rest(outs))
}

/// Whether the filters of all stretches are the same, if these are what the commands print.
#[verifier::opaque]
pub open spec fn follows(a: Seq<Stretch>, b: Seq<Stretch>, outs: Seq<Seq<u8>>) -> bool {
    &&& a.len() == b.len()
    &&& forall|k: int|
        0 <= k < a.len() ==> #[trigger] same_filters_in(a, b, k, outs) && b[k].same_place(&a[k])
}

/// What follows from what follows from the beginning follows from the beginning.
pub proof fn law_follows_chain(
    a: Seq<Stretch>,
    b: Seq<Stretch>,
    c: Seq<Stretch>,
    outs: Seq<Seq<u8>>,
)
    requires
        follows(a, b, outs),
        follows(b, c, outs),
    ensures
        follows(a, c, outs),
{
    reveal(follows);
    assert forall|k: int| 0 <= k < a.len() implies #[trigger] same_filters_in(a, c, k, outs)
        && c[k].same_place(&a[k]) by {
        assert(same_filters_in(a, b, k, outs));
        assert(same_filters_in(b, c, k, outs));
        lemma_same_filters_chain(
            a[k].body,
            b[k].body,
            c[k].body,
            a[k].rest(outs),
            b[k].rest(outs),
            c[k].rest(outs),
        );
    }
}

proof fn lemma_kept_follows(a: Seq<Stretch>, b: Seq<Stretch>, outs: Seq<Seq<u8>>)
    requires
        kept(a, b),
    ensures
        follows(a, b, outs),
{
    reveal(kept);
    reveal(follows);
}

proof fn lemma_follows_one(a: Seq<Stretch>, b: Seq<Stretch>, k: int, outs: Seq<Seq<u8>>)
    requires
        a.len() == b.len(),
        0 <= k < a.len(),
        forall|j: int| 0 <= j < a.len() && j != k ==> #[trigger] b[j] == a[j],
        b[k].same_place(&a[k]),
        same_filters(a[k].body, b[k].body, a[k].rest(outs), b[k].rest(outs)),
    ensures
        follows(a, b, outs),
{
    reveal(follows);
    assert forall|j: int| 0 <= j < a.len() implies #[trigger] same_filters_in(a, b, j, outs)
        && b[j].same_place(&a[j]) by {
        if j != k {
            assert(b[j] == a[j]);
            lemma_same_filters_self(a[j].body, a[j].rest(outs));
        }
    }
}

/// Whether all filters can take their input.
pub open spec fn all_take(s: Seq<Stretch>, outs: Seq<Seq<u8>>) -> bool {
    forall|k: int| 0 <= k < s.len() ==> (#[trigger] s[k]).takes(outs)
}

/// Whether nothing can happen in a stretch: its filters are over or wait, and its process is over,
/// waits for room, or waits for input.
pub open spec fn settled(s: Seq<Stretch>, k: int) -> bool {
    &&& s[k].body.idle()
    &&& !s[k].over ==> if s[k].feeder.known() {
        s[k].body.full() || s[k].feeder.hungry()
    } else {
        k > 0 && s[k - 1].body.output().len() == 0 && !s[k - 1].body.silent()
    }
}

/// Whether nothing can happen in the stretches from `i` on.
pub open spec fn quiet(s: Seq<Stretch>, i: int) -> bool {
    forall|k: int| i <= k < s.len() ==> #[trigger] settled(s, k)
}

/// Whether the stretches fit together.
pub open spec fn in_line(s: Seq<Stretch>) -> bool {
    &&& s.len() > 0
    &&& forall|k: int| 0 <= k < s.len() ==> (#[trigger] s[k]).wf()
    &&& forall|k: int|
        0 <= k < s.len() ==> match (#[trigger] s[k]).feeder {
            Feeder::Source { reader: _, relay: _ } => k == 0,
            Feeder::Command { process, staged } => process.has_input == (k > 0) && (k == 0
                ==> staged@.len() == 0) && s[k].stage is Some,
        }
    &&& forall|k: int|
        1 <= k < s.len() && (#[trigger] s[k]).feeder.known() ==> s[k - 1].body.dry()
}

/// The sum of numbers.
pub open spec fn sum_of(v: Seq<nat>) -> nat
    decreases v.len(),
{
    if v.len() == 0 {
        0
    } else {
        sum_of(v.drop_last()) + v.last()
    }
}

/// How much the sources and commands have still to send.
pub open spec fn to_send_in(s: Seq<Stretch>) -> nat {
    sum_of(Seq::new(s.len(), |k: int| s[k].to_send()))
}

/// How much the filters have still to do.
pub open spec fn work_in(s: Seq<Stretch>) -> nat {
    sum_of(Seq::new(s.len(), |k: int| s[k].body.work()))
}

/// How much output waits to be taken from the stretches.
pub open spec fn output_in(s: Seq<Stretch>) -> nat {
    sum_of(Seq::new(s.len(), |k: int| s[k].body.output().len()))
}

/// Whether `b` is nearer to the end than `a`: less is to be sent, or else less is to be done, or
/// else less waits to be taken. A pipeline cannot come nearer forever.
pub open spec fn nearer(a: Seq<Stretch>, b: Seq<Stretch>) -> bool {
    to_send_in(b) < to_send_in(a) || (to_send_in(b) == to_send_in(a) && (work_in(b) < work_in(a)
        || (work_in(b) == work_in(a) && output_in(b) < output_in(a))))
}

/// Whether `b` is nearer to the end than `a`, or as near.
pub open spec fn as_near(a: Seq<Stretch>, b: Seq<Stretch>) -> bool {
    nearer(a, b) || (to_send_in(b) == to_send_in(a) && work_in(b) == work_in(a) && output_in(b)
        == output_in(a))
}

proof fn lemma_sum(a: Seq<nat>, b: Seq<nat>)
    requires
        a.len() == b.len(),
        forall|k: int| 0 <= k < a.len() ==> b[k] <= a[k],
    ensures
        sum_of(b) <= sum_of(a),
        (forall|k: int| 0 <= k < a.len() ==> b[k] == a[k]) ==> sum_of(b) == sum_of(a),
        (exists|k: int| 0 <= k < a.len() && b[k] < a[k]) ==> sum_of(b) < sum_of(a),
    decreases a.len(),
{
    if a.len() > 0 {
        let x = a.drop_last();
        let y = b.drop_last();
        assert forall|k: int| 0 <= k < x.len() implies y[k] <= x[k] by {
            assert(b[k] <= a[k]);
        }
        lemma_sum(x, y);
        assert(b[a.len() - 1] <= a[a.len() - 1]);
        if forall|k: int| 0 <= k < a.len() ==> b[k] == a[k] {
            assert forall|k: int| 0 <= k < x.len() implies y[k] == x[k] by {
                assert(b[k] == a[k]);
            }
        }
        if exists|k: int| 0 <= k < a.len() && b[k] < a[k] {
            let k = choose|k: int| 0 <= k < a.len() && b[k] < a[k];
            if k < x.len() {
                assert(y[k] < x[k]);
            }
        }
    }
}

/// A stretch in which less is to be sent brings the pipeline nearer to its end; where as much is to
/// be sent, one in which less is to be done; and otherwise one from which something was taken.
proof fn lemma_nearer(a: Seq<Stretch>, b: Seq<Stretch>, k: int)
    requires
        a.len() == b.len(),
        0 <= k < a.len(),
        forall|j: int| 0 <= j < a.len() && j != k ==> #[trigger] b[j] == a[j],
        b[k].to_send() <= a[k].to_send(),
        b[k].to_send() == a[k].to_send() ==> b[k].body.work() <= a[k].body.work(),
        b[k].to_send() == a[k].to_send() && b[k].body.work() == a[k].body.work()
            ==> b[k].body.output().len() <= a[k].body.output().len(),
    ensures
        as_near(a, b),
        b[k].to_send() < a[k].to_send() ==> nearer(a, b),
        b[k].to_send() == a[k].to_send() && b[k].body.work() < a[k].body.work() ==> nearer(a, b),
        b[k].to_send() == a[k].to_send() && b[k].body.work() == a[k].body.work()
            && b[k].body.output().len() < a[k].body.output().len() ==> nearer(a, b),
{
    let x = Seq::new(a.len(), |j: int| a[j].to_send());
    let y = Seq::new(b.len(), |j: int| b[j].to_send());
    assert forall|j: int| 0 <= j < x.len() implies y[j] <= x[j] && (j != k ==> y[j] == x[j]) by {
        if j != k {
            assert(b[j] == a[j]);
        }
    }
    assert(b[k].to_send() < a[k].to_send() ==> y[k] < x[k]);
    lemma_sum(x, y);
    if b[k].to_send() == a[k].to_send() {
        let x = Seq::new(a.len(), |j: int| a[j].body.work());
        let y = Seq::new(b.len(), |j: int| b[j].body.work());
        assert forall|j: int| 0 <= j < x.len() implies y[j] <= x[j] && (j != k ==> y[j]
            == x[j]) by {
            if j != k {
                assert(b[j] == a[j]);
            }
        }
        assert(b[k].body.work() < a[k].body.work() ==> y[k] < x[k]);
        lemma_sum(x, y);
        if b[k].body.work() == a[k].body.work() {
            let x = Seq::new(a.len(), |j: int| a[j].body.output().len());
            let y = Seq::new(b.len(), |j: int| b[j].body.output().len());
            assert forall|j: int| 0 <= j < x.len() implies y[j] <= x[j] && (j != k ==> y[j]
                == x[j]) by {
                if j != k {
                    assert(b[j] == a[j]);
                }
            }
            assert(b[k].body.output().len() < a[k].body.output().len() ==> y[k] < x[k]);
            lemma_sum(x, y);
        }
    }
}

/// Bytes that a command collects bring the pipeline nearer to its end.
proof fn lemma_nearer_collected(a: Seq<Stretch>, b: Seq<Stretch>, k: int)
    requires
        a.len() == b.len(),
        0 < k < a.len(),
        forall|j: int| 0 <= j < a.len() && j != k && j != k - 1 ==> #[trigger] b[j] == a[j],
        b[k].to_send() == a[k].to_send(),
        b[k].body == a[k].body,
        b[k - 1].to_send() == a[k - 1].to_send(),
        b[k - 1].body.work() == a[k - 1].body.work(),
        b[k - 1].body.output().len() == 0,
    ensures
        as_near(a, b),
        a[k - 1].body.output().len() > 0 ==> nearer(a, b),
{
    let mid = a.update(k, b[k]);
    lemma_nearer(a, mid, k);
    lemma_nearer(mid, b, k - 1);
}

/// Whether more can be added to the input.
pub open spec fn is_fed(s: Seq<Stretch>) -> bool {
    s.len() > 0 && s[0].stage is None && (s[0].feeder matches Feeder::Source { reader, relay: _ }
        && reader.open())
}

/// Whether these have a place for what every command prints and, last, for what is added to the
/// input.
pub open spec fn fits(s: Seq<Stretch>, outs: Seq<Seq<u8>>) -> bool {
    outs.len() > 0 && forall|k: int|
        0 <= k < s.len() ==> ((#[trigger] s[k]).stage matches Some(i) ==> i + 1 < outs.len())
}

/// Whether a command is to be run: it has not run, and it has all its input.
pub open spec fn wants_run(s: Seq<Stretch>, k: int) -> bool {
    &&& 0 <= k < s.len()
    &&& !s[k].feeder.known()
    &&& k > 0 ==> s[k - 1].body.dry()
}

/// Whether every source, command and filter is over.
pub open spec fn all_over(s: Seq<Stretch>) -> bool {
    forall|k: int| 0 <= k < s.len() ==> (#[trigger] s[k]).over && s[k].body.over()
}

/// How many bytes wait in the pipes that the stages of the first `n` stretches write to.
pub open spec fn waiting_upto(s: Seq<Stretch>, n: int) -> nat
    decreases n,
{
    if n <= 0 {
        0
    } else {
        waiting_upto(s, n - 1) + waiting(
            s[n - 1].body.pipes(),
            if s[n - 1].stage is None {
                1
            } else {
                0
            },
        )
    }
}

/// The exit statuses of the stages of a stretch so far.
pub open spec fn statuses_of(s: Stretch) -> Seq<i32> {
    (if s.stage is Some {
        seq![
            match s.feeder {
                Feeder::Source { reader: _, relay } => relay.status,
                Feeder::Command { process, staged: _ } => process.status,
            },
        ]
    } else {
        Seq::empty()
    }) + s.body.statuses()
}

/// The exit statuses of the stages of the first `n` stretches so far.
pub open spec fn statuses_upto(s: Seq<Stretch>, n: int) -> Seq<i32>
    decreases n,
{
    if n <= 0 {
        Seq::empty()
    } else {
        statuses_upto(s, n - 1) + statuses_of(s[n - 1])
    }
}

/// What the stages of the first `n` stretches wrote to their standard errors.
pub open spec fn stderr_upto(s: Seq<Stretch>, n: int) -> Seq<u8>
    decreases n,
{
    if n <= 0 {
        Seq::empty()
    } else {
        stderr_upto(s, n - 1) + (match s[n - 1].feeder {
            Feeder::Source { reader: _, relay } => relay.stderr@,
            Feeder::Command { process, staged: _ } => process.stderr@,
        }) + s[n - 1].body.complaints()
    }
}

/// What collecting the input of a command came to.
#[derive(Clone, Copy, Debug, PartialEq, Eq, Structural)]
enum Collected {
    /// Something was there.
    Bytes,
    /// Nothing is there yet.
    Nothing,
    /// All of it was collected.
    All,
}

/// Whether filter `j` of stretch `k` is the `tee` that is stage `stage`, and is not over.
pub open spec fn is_tee_at(s: Seq<Stretch>, k: int, j: int, stage: int) -> bool {
    &&& 0 <= k < s.len()
    &&& 0 <= j < s[k].body.links().len()
    &&& s[k].body.links()[j].tee
    &&& s[k].body.links()[j].body is Relay
    &&& !s[k].body.links()[j].exited
    &&& stage == s[k].end - s[k].body.links().len() + j
}

/// Whether the `tee` that is stage `stage` has complained and has the status one, and nothing else
/// changed, but that the complaint comes in its output where its standard error goes there.
pub open spec fn tee_failed_at(
    a: Seq<Stretch>,
    b: Seq<Stretch>,
    k: int,
    j: int,
    stage: int,
    message: Seq<char>,
) -> bool {
    &&& is_tee_at(a, k, j, stage)
    &&& b.len() == a.len()
    &&& forall|i: int| 0 <= i < a.len() && i != k ==> #[trigger] b[i] == a[i]
    &&& b[k].same_place(&a[k]) && b[k].feeder == a[k].feeder && b[k].over == a[k].over
    &&& target_failed_in(a[k].body, b[k].body, j, message)
}

/// What polling a process that writes came to.
#[derive(Clone, Copy, Debug, PartialEq, Eq, Structural)]
enum Polled {
    /// Something happened.
    Moved,
    /// It waits for room or for input.
    Waits,
    /// It is a command that is to be run.
    Run,
}

/// Whether polling the process of stretch `k` comes to this: something happened and the pipeline is
/// nearer to its end, nothing can happen in the stretch, or the command is to be run on all its
/// input.
spec fn poll_answers(a: Seq<Stretch>, b: Seq<Stretch>, k: int, r: Polled) -> bool {
    match r {
        Polled::Moved => nearer(a, b),
        Polled::Waits => {
            &&& a[k].body.idle() ==> settled(b, k)
            &&& b[k].body.output() == a[k].body.output()
            &&& b[k].body.silent() == a[k].body.silent()
        },
        Polled::Run => {
            &&& wants_run(b, k)
            &&& forall|outs: Seq<Seq<u8>>|
                k > 0 ==> b[k].feeder.staged() == #[trigger] total(b, k - 1, outs)
            &&& k == 0 ==> b[k].feeder.staged().len() == 0
        },
    }
}

/// A command behind a stretch that is dry has all its input.
proof fn lemma_dry_total(s: Seq<Stretch>, k: int, outs: Seq<Seq<u8>>)
    requires
        0 < k < s.len(),
        s[k - 1].body.dry(),
    ensures
        s[k].feeder.staged() == total(s, k - 1, outs),
{
    assert(s[k - 1].flow(outs) =~= Seq::<u8>::empty());
    assert(total(s, k - 1, outs) =~= s[k].feeder.staged());
}

impl Schedule {
    /// Whether the parts fit together.
    pub open spec fn wf(&self) -> bool {
        &&& in_line(self.stretches@)
        &&& self.cursor <= self.stretches@.len()
        &&& !self.progressed ==> quiet(self.stretches@, self.cursor as int)
    }

    /// Starts a round.
    pub fn start_round(&mut self)
        requires
            old(self).wf(),
        ensures
            final(self).wf(),
            final(self).stretches == old(self).stretches,
            final(self).cursor == old(self).stretches@.len(),
            !final(self).progressed,
    {
        self.cursor = self.stretches.len();
        self.progressed = false;
    }

    /// Polls the filters of a stretch, from the last to the first.
    fn poll_filters(&mut self, k: usize) -> (r: Round)
        requires
            in_line(old(self).stretches@),
            k < old(self).stretches@.len(),
        ensures
            final(self).cursor == old(self).cursor,
            final(self).progressed == old(self).progressed,
            forall|outs: Seq<Seq<u8>>| #[trigger]
                all_take(old(self).stretches@, outs) ==> r != Round::Stuck,
            r != Round::Stuck ==> {
                &&& in_line(final(self).stretches@)
                &&& final(self).stretches@.len() == old(self).stretches@.len()
                &&& kept(old(self).stretches@, final(self).stretches@)
                &&& forall|j: int|
                    0 <= j < old(self).stretches@.len() && j != k ==>
                    #[trigger] final(self).stretches@[j]
                        == old(self).stretches@[j]
                &&& final(self).stretches@[k as int].feeder == old(
                    self,
                ).stretches@[k as int].feeder
                &&& final(self).stretches@[k as int].over == old(self).stretches@[k as int].over
            },
            r == Round::Progressed ==> final(self).stretches@[k as int].body.work() < old(
                self,
            ).stretches@[k as int].body.work(),
            r == Round::Idle ==> {
                let a = old(self).stretches@[k as int].body;
                let b = final(self).stretches@[k as int].body;
                b.idle() && b.output() == a.output() && b.silent() == a.silent() && b.work()
                    <= a.work()
            },
    {
        let ghost s0 = self.stretches@;
        proof {
            assert(s0[k as int].wf());
            assert forall|outs: Seq<Seq<u8>>| #[trigger] all_take(s0, outs) implies s0[
                k as int
            ].takes(outs) by {}
        }
        let r = self.stretches[k].body.round();
        proof {
            let s1 = self.stretches@;
            if r != Round::Stuck {
                assert forall|j: int| 0 <= j < s0.len() && j != k implies #[trigger] s1[j]
                    == s0[j] by {}
                assert forall|outs: Seq<Seq<u8>>| #[trigger]
                    same_filters_in(s0, s1, k as int, outs) by {
                    let x = s0[k as int].rest(outs);
                    assert(same_filters(s0[k as int].body, s1[k as int].body, x, x));
                }
                lemma_kept(s0, s1, k as int);
                lemma_in_line(s0, s1, k as int);
            }
        }
        r
    }

    /// Lets the process of a stretch write on. Returns whether something happened.
    fn poll_sender(&mut self, k: usize) -> (r: bool)
        requires
            in_line(old(self).stretches@),
            k < old(self).stretches@.len(),
            !old(self).stretches@[k as int].over,
            old(self).stretches@[k as int].feeder.known(),
        ensures
            final(self).cursor == old(self).cursor,
            final(self).progressed == old(self).progressed,
            in_line(final(self).stretches@),
            final(self).stretches@.len() == old(self).stretches@.len(),
            kept(old(self).stretches@, final(self).stretches@),
            forall|j: int|
                0 <= j < old(self).stretches@.len() && j != k ==>
                    #[trigger] final(self).stretches@[j] == old(self).stretches@[j],
            r ==> final(self).stretches@[k as int].to_send() < old(
                self,
            ).stretches@[k as int].to_send(),
            !r ==> {
                let a = old(self).stretches@[k as int].body;
                let b = final(self).stretches@[k as int].body;
                &&& final(self).stretches@[k as int].to_send() == old(
                    self,
                ).stretches@[k as int].to_send()
                &&& b.work() == a.work()
                &&& final(self).stretches@[k as int].feeder.known()
                &&& b.full() || final(self).stretches@[k as int].feeder.hungry()
                &&& b.output() == a.output() && b.silent() == a.silent()
                &&& a.idle() ==> b.idle()
            },
    {
        let ghost s0 = self.stretches@;
        assert(s0[k as int].wf());
        let r = self.stretches[k].send();
        proof {
            let s1 = self.stretches@;
            assert forall|j: int| 0 <= j < s0.len() && j != k implies #[trigger] s1[j]
                == s0[j] by {}
            assert forall|outs: Seq<Seq<u8>>| #[trigger]
                same_filters_in(s0, s1, k as int, outs) by {
                assert(same_filters(
                    s0[k as int].body,
                    s1[k as int].body,
                    s0[k as int].rest(outs),
                    s1[k as int].rest(outs),
                ));
            }
            lemma_kept(s0, s1, k as int);
            lemma_in_line(s0, s1, k as int);
        }
        r
    }

    /// Collects what has come out of the stretch before a command. Returns whether something was
    /// there, or that all of it was collected.
    fn collect(&mut self, k: usize) -> (r: Collected)
        requires
            in_line(old(self).stretches@),
            0 < k < old(self).stretches@.len(),
            !old(self).stretches@[k as int].feeder.known(),
        ensures
            final(self).cursor == old(self).cursor,
            final(self).progressed == old(self).progressed,
            in_line(final(self).stretches@),
            final(self).stretches@.len() == old(self).stretches@.len(),
            kept(old(self).stretches@, final(self).stretches@),
            forall|j: int|
                0 <= j < old(self).stretches@.len() && j != k && j != k - 1 ==>
                    #[trigger] final(self).stretches@[j] == old(self).stretches@[j],
            final(self).stretches@[k as int].body == old(self).stretches@[k as int].body,
            same_role(
                old(self).stretches@[k as int].feeder,
                final(self).stretches@[k as int].feeder,
            ),
            final(self).stretches@[k as int].over == old(self).stretches@[k as int].over,
            ({
                let had = old(self).stretches@[k - 1].body.output();
                let before = final(self).stretches@[k - 1].body;
                &&& final(self).stretches@[k as int].feeder.staged() == old(
                    self,
                ).stretches@[k as int].feeder.staged() + had
                &&& before.output().len() == 0
                &&& before.work() == old(self).stretches@[k - 1].body.work()
                &&& before.silent() == old(self).stretches@[k - 1].body.silent()
                &&& final(self).stretches@[k - 1].feeder == old(self).stretches@[k - 1].feeder
                &&& final(self).stretches@[k - 1].over == old(self).stretches@[k - 1].over
                &&& match r {
                    Collected::Bytes => had.len() > 0,
                    Collected::Nothing => had.len() == 0 && !before.silent(),
                    Collected::All => had.len() == 0 && before.silent() && before.dry(),
                }
            }),
    {
        let ghost s0 = self.stretches@;
        assert(s0[k - 1].wf());
        assert(s0[k as int].wf());
        let data = self.stretches[k - 1].body.drain();
        let ghost s1 = self.stretches@;
        assert(s1[k - 1].wf());
        let outcome = if data.len() > 0 {
            ReadOutcome::Read(data)
        } else if self.stretches[k - 1].body.is_ended() {
            ReadOutcome::Eof
        } else {
            ReadOutcome::WouldBlock
        };
        let mut r = Collected::Nothing;
        match BufferedProcess::took(outcome) {
            Staged::Add(data) => {
                match &mut self.stretches[k].feeder {
                    Feeder::Command { process: _, staged } => {
                        staged.extend_from_slice(data.as_slice());
                    },
                    Feeder::Source { reader: _, relay: _ } => {},
                }
                r = Collected::Bytes;
            },
            Staged::Wait => {},
            Staged::Complete => {
                r = Collected::All;
            },
        }
        proof {
            let s2 = self.stretches@;
            assert(s2[k as int].feeder.staged() == s0[k as int].feeder.staged() + data@) by {
                assert(s0[k as int].feeder.staged() + Seq::<u8>::empty() =~= s0[
                    k as int
                ].feeder.staged());
                if data@.len() == 0 {
                    assert(data@ =~= Seq::<u8>::empty());
                }
            }
            lemma_collected(s0, s2, k as int, data@);
        }
        r
    }

    /// Polls a process that has all that it writes.
    fn poll_known(&mut self, k: usize) -> (r: Polled)
        requires
            in_line(old(self).stretches@),
            k < old(self).stretches@.len(),
            !old(self).stretches@[k as int].over,
            old(self).stretches@[k as int].feeder.known(),
        ensures
            final(self).cursor == old(self).cursor,
            final(self).progressed == old(self).progressed,
            in_line(final(self).stretches@),
            final(self).stretches@.len() == old(self).stretches@.len(),
            kept(old(self).stretches@, final(self).stretches@),
            as_near(old(self).stretches@, final(self).stretches@),
            forall|j: int|
                k < j < old(self).stretches@.len() ==> #[trigger] final(self).stretches@[j] == old(
                    self,
                ).stretches@[j],
            poll_answers(old(self).stretches@, final(self).stretches@, k as int, r),
    {
        let ghost s0 = self.stretches@;
        let moved = self.poll_sender(k);
        proof {
            lemma_nearer(s0, self.stretches@, k as int);
        }
        if moved {
            Polled::Moved
        } else {
            Polled::Waits
        }
    }

    /// Polls a command that has not run.
    fn poll_command(&mut self, k: usize) -> (r: Polled)
        requires
            in_line(old(self).stretches@),
            k < old(self).stretches@.len(),
            !old(self).stretches@[k as int].over,
            !old(self).stretches@[k as int].feeder.known(),
        ensures
            final(self).cursor == old(self).cursor,
            final(self).progressed == old(self).progressed,
            in_line(final(self).stretches@),
            final(self).stretches@.len() == old(self).stretches@.len(),
            kept(old(self).stretches@, final(self).stretches@),
            as_near(old(self).stretches@, final(self).stretches@),
            forall|j: int|
                k < j < old(self).stretches@.len() ==> #[trigger] final(self).stretches@[j] == old(
                    self,
                ).stretches@[j],
            poll_answers(old(self).stretches@, final(self).stretches@, k as int, r),
    {
        let ghost s0 = self.stretches@;
        proof {
            lemma_kept_self(s0);
            assert(s0[k as int].wf());
        }
        if k == 0 {
            return Polled::Run;
        }
        let collected = self.collect(k);
        let ghost s1 = self.stretches@;
        proof {
            lemma_nearer_collected(s0, s1, k as int);
        }
        match collected {
            Collected::Bytes => Polled::Moved,
            Collected::Nothing => Polled::Waits,
            Collected::All => {
                proof {
                    assert forall|outs: Seq<Seq<u8>>|
                        s1[k as int].feeder.staged() == #[trigger] total(s1, k - 1, outs) by {
                        lemma_dry_total(s1, k as int, outs);
                    }
                }
                Polled::Run
            },
        }
    }

    /// Polls the process that writes into a stretch.
    fn poll_feeder(&mut self, k: usize) -> (r: Polled)
        requires
            in_line(old(self).stretches@),
            k < old(self).stretches@.len(),
            !old(self).stretches@[k as int].over,
        ensures
            final(self).cursor == old(self).cursor,
            final(self).progressed == old(self).progressed,
            in_line(final(self).stretches@),
            final(self).stretches@.len() == old(self).stretches@.len(),
            kept(old(self).stretches@, final(self).stretches@),
            as_near(old(self).stretches@, final(self).stretches@),
            forall|j: int|
                k < j < old(self).stretches@.len() ==> #[trigger] final(self).stretches@[j] == old(
                    self,
                ).stretches@[j],
            poll_answers(old(self).stretches@, final(self).stretches@, k as int, r),
    {
        let known: bool = match &self.stretches[k].feeder {
            Feeder::Source { reader: _, relay: _ } => true,
            Feeder::Command { process, staged: _ } => process.command_ran,
        };
        if known {
            self.poll_known(k)
        } else {
            self.poll_command(k)
        }
    }

    /// Polls on, from the last stretch to the first, until a command is to be run or the round is
    /// over.
    pub fn advance(&mut self) -> (r: Step)
        requires
            old(self).wf(),
        ensures
            forall|outs: Seq<Seq<u8>>| #[trigger]
                all_take(old(self).stretches@, outs) ==> r != Step::Stuck,
            r != Step::Stuck ==> final(self).wf() && kept(
                old(self).stretches@,
                final(self).stretches@,
            ),
            old(self).progressed ==> final(self).progressed,
            r != Step::Stuck ==> forall|outs: Seq<Seq<u8>>| #[trigger]
                follows(old(self).stretches@, final(self).stretches@, outs),
            r != Step::Stuck ==> as_near(old(self).stretches@, final(self).stretches@),
            r == Step::RoundOver && final(self).progressed && !old(self).progressed ==> nearer(
                old(self).stretches@,
                final(self).stretches@,
            ),
            match r {
                Step::Run(k) => {
                    &&& final(self).cursor == k
                    &&& wants_run(final(self).stretches@, k as int)
                    &&& forall|outs: Seq<Seq<u8>>|
                        k > 0 ==> final(self).stretches@[k as int].feeder.staged()
                            == #[trigger] total(final(self).stretches@, k - 1, outs)
                    &&& k == 0 ==> final(self).stretches@[k as int].feeder.staged().len() == 0
                },
                Step::RoundOver => final(self).cursor == 0,
                Step::Stuck => true,
            },
    {
        let ghost s0 = self.stretches@;
        proof {
            lemma_kept_self(s0);
        }
        while self.cursor > 0
            invariant
                s0 == old(self).stretches@,
                in_line(self.stretches@),
                self.cursor <= self.stretches@.len(),
                !self.progressed ==> quiet(self.stretches@, self.cursor as int),
                kept(s0, self.stretches@),
                s0.len() == self.stretches@.len(),
                old(self).progressed ==> self.progressed,
                as_near(s0, self.stretches@),
                self.progressed && !old(self).progressed ==> nearer(s0, self.stretches@),
            decreases self.cursor,
        {
            let k: usize = self.cursor - 1;
            let ghost s1 = self.stretches@;
            let round = self.poll_filters(k);
            match round {
                Round::Stuck => {
                    proof {
                        assert forall|outs: Seq<Seq<u8>>| #[trigger]
                            all_take(s0, outs) implies false by {
                            lemma_kept_takes(s0, s1, outs);
                        }
                    }
                    return Step::Stuck;
                },
                Round::Progressed => {
                    self.progressed = true;
                },
                Round::Idle => {},
            }
            let ghost s2 = self.stretches@;
            proof {
                lemma_kept_chain(s0, s1, s2);
                assert(s2[k as int].wf());
                lemma_nearer(s1, s2, k as int);
            }
            self.cursor = k;
            if !self.stretches[k].over {
                let polled = self.poll_feeder(k);
                proof {
                    lemma_kept_chain(s0, s2, self.stretches@);
                }
                match polled {
                    Polled::Moved => {
                        self.progressed = true;
                    },
                    Polled::Waits => {},
                    Polled::Run => {
                        self.progressed = true;
                        proof {
                            let s3 = self.stretches@;
                            assert forall|outs: Seq<Seq<u8>>| #[trigger]
                                follows(s0, s3, outs) by {
                                lemma_kept_follows(s0, s3, outs);
                            }
                        }
                        return Step::Run(k);
                    },
                }
            }
            proof {
                let s3 = self.stretches@;
                if !self.progressed {
                    assert forall|j: int| k <= j < s3.len() implies #[trigger] settled(s3, j) by {
                        if j > k {
                            assert(settled(s1, j));
                            assert(s2[j] == s1[j]);
                            assert(s3[j] == s2[j]);
                            if j > k + 1 {
                                assert(s2[j - 1] == s1[j - 1]);
                                assert(s3[j - 1] == s2[j - 1]);
                            }
                        }
                    }
                }
            }
        }
        proof {
            let s3 = self.stretches@;
            assert forall|outs: Seq<Seq<u8>>| #[trigger] follows(s0, s3, outs) by {
                lemma_kept_follows(s0, s3, outs);
            }
        }
        Step::RoundOver
    }

    /// Takes the output of the pipeline that has arrived.
    pub fn take_output(&mut self) -> (r: Vec<u8>)
        requires
            old(self).wf(),
        ensures
            final(self).wf(),
            final(self).cursor == old(self).cursor,
            final(self).progressed == (old(self).progressed || r@.len() > 0),
            ({
                let a = old(self).stretches@;
                let b = final(self).stretches@;
                let last = a.len() - 1;
                &&& b.len() == a.len()
                &&& b[last].body.output().len() == 0
                &&& as_near(a, b)
                &&& r@.len() > 0 ==> nearer(a, b)
                &&& forall|k: int| 0 <= k < last ==> #[trigger] b[k] == a[k]
                &&& b[last].same_place(&a[last]) && b[last].feeder == a[last].feeder
                    && b[last].over == a[last].over
                &&& forall|outs: Seq<Seq<u8>>|
                    r@ + #[trigger] total(b, last, outs) == total(a, last, outs)
                &&& forall|outs: Seq<Seq<u8>>|
                    a[last].takes(outs) ==> #[trigger] b[last].takes(outs)
                &&& forall|outs: Seq<Seq<u8>>| #[trigger]
                    b[last].result(outs) == a[last].result(outs)
                &&& forall|outs: Seq<Seq<u8>>| #[trigger] follows(a, b, outs)
            }),
    {
        let ghost s0 = self.stretches@;
        let last: usize = self.stretches.len() - 1;
        assert(s0[last as int].wf());
        let r = self.stretches[last].body.drain();
        if r.len() > 0 {
            self.progressed = true;
        }
        proof {
            let s1 = self.stretches@;
            assert(s1[last as int].body.dry() || !s0[last as int].body.dry()) by {
                if s0[last as int].body.dry() {
                    assert forall|rest: Seq<u8>| #[trigger]
                        s1[last as int].body.future(rest) == Seq::<u8>::empty() by {
                        assert(r@ + s1[last as int].body.future(rest) == s0[
                            last as int
                        ].body.future(rest));
                        assert(s1[last as int].body.future(rest).len() == 0);
                        assert(s1[last as int].body.future(rest) =~= Seq::<u8>::empty());
                    }
                }
            }
            lemma_in_line(s0, s1, last as int);
            lemma_nearer(s0, s1, last as int);
            assert forall|outs: Seq<Seq<u8>>| #[trigger] follows(s0, s1, outs) by {
                let x = s0[last as int].rest(outs);
                assert(same_filters(s0[last as int].body, s1[last as int].body, x, x));
                lemma_follows_one(s0, s1, last as int, outs);
            }
            if !self.progressed {
                assert forall|k: int| self.cursor <= k < s1.len() implies #[trigger] settled(
                    s1,
                    k,
                ) by {
                    assert(settled(s0, k));
                    if k < last {
                        assert(s1[k] == s0[k]);
                    }
                    if k > 0 {
                        assert(s1[k - 1] == s0[k - 1]);
                    }
                }
            }
            assert forall|outs: Seq<Seq<u8>>|
                r@ + #[trigger] total(s1, last as int, outs) == total(s0, last as int, outs) by {
                let rest = s0[last as int].rest(outs);
                assert(r@ + s1[last as int].body.future(rest) == s0[last as int].body.future(rest));
                assert(total(s1, last as int, outs) =~= s1[last as int].flow(outs));
                assert(total(s0, last as int, outs) =~= s0[last as int].flow(outs));
            }
        }
        r
    }

    /// Adds to the input of a pipeline that is fed from outside.
    pub fn add_input(&mut self, data: &[u8])
        requires
            old(self).wf(),
            is_fed(old(self).stretches@),
        ensures
            final(self).wf(),
            is_fed(final(self).stretches@),
            final(self).cursor == old(self).cursor,
            final(self).progressed,
            forall|outs: Seq<Seq<u8>>, k: int|
                fits(old(self).stretches@, outs) && 0 <= k < old(self).stretches@.len()
                    ==> #[trigger] total(final(self).stretches@, k, outs) == total(
                    old(self).stretches@,
                    k,
                    outs.update(outs.len() - 1, data@ + outs.last()),
                ),
            forall|outs: Seq<Seq<u8>>, k: int|
                fits(old(self).stretches@, outs) && 0 <= k < old(self).stretches@.len()
                    ==> same_filters(
                    old(self).stretches@[k].body,
                    final(self).stretches@[k].body,
                    old(self).stretches@[k].rest(
                        outs.update(outs.len() - 1, data@ + outs.last()),
                    ),
                    #[trigger] final(self).stretches@[k].rest(outs),
                ),
            forall|outs: Seq<Seq<u8>>|
                fits(old(self).stretches@, outs) && all_take(
                    old(self).stretches@,
                    outs.update(outs.len() - 1, data@ + outs.last()),
                ) ==> #[trigger] all_take(final(self).stretches@, outs),
    {
        let ghost s0 = self.stretches@;
        assert(s0[0].wf());
        match &mut self.stretches[0].feeder {
            Feeder::Source { reader, relay: _ } => {
                reader.add(data);
            },
            Feeder::Command { process: _, staged: _ } => {},
        }
        self.progressed = true;
        proof {
            let s1 = self.stretches@;
            lemma_in_line(s0, s1, 0);
            assert forall|outs: Seq<Seq<u8>>, k: int|
                fits(s0, outs) && 0 <= k < s0.len() implies s1[k].rest(outs) == #[trigger] s0[
                k].rest(outs.update(outs.len() - 1, data@ + outs.last())) by {
                let more = outs.update(outs.len() - 1, data@ + outs.last());
                if k == 0 {
                    assert(more.last() == data@ + outs.last());
                    assert(s1[0].rest(outs) =~= s0[0].rest(more));
                } else {
                    assert(s1[k] == s0[k]);
                    lemma_place(s0, k);
                    assert(outs[s0[k].stage->0 as int] == more[s0[k].stage->0 as int]);
                }
            }
            assert forall|outs: Seq<Seq<u8>>, k: int|
                fits(s0, outs) && 0 <= k < s0.len() implies same_filters(
                s0[k].body,
                s1[k].body,
                s0[k].rest(outs.update(outs.len() - 1, data@ + outs.last())),
                #[trigger] s1[k].rest(outs),
            ) by {
                assert(s1[k].rest(outs) == s0[k].rest(outs.update(outs.len() - 1, data@ + outs.last())));
                assert(s1[k].body == s0[k].body);
                lemma_same_filters_self(s0[k].body, s1[k].rest(outs));
            }
            assert forall|outs: Seq<Seq<u8>>, k: int|
                fits(s0, outs) && 0 <= k < s0.len() implies #[trigger] total(s1, k, outs) == total(
                s0,
                k,
                outs.update(outs.len() - 1, data@ + outs.last()),
            ) by {
                let more = outs.update(outs.len() - 1, data@ + outs.last());
                assert(s1[k].rest(outs) == s0[k].rest(more));
                assert(s1[k].body == s0[k].body);
                if k + 1 < s0.len() {
                    assert(s1[k + 1] == s0[k + 1]);
                }
            }
            assert forall|outs: Seq<Seq<u8>>|
                fits(s0, outs) && all_take(
                    s0,
                    outs.update(outs.len() - 1, data@ + outs.last()),
                ) implies #[trigger] all_take(s1, outs) by {
                let more = outs.update(outs.len() - 1, data@ + outs.last());
                assert forall|k: int| 0 <= k < s1.len() implies (#[trigger] s1[k]).takes(outs) by {
                    assert(s0[k].takes(more));
                    assert(s1[k].rest(outs) == s0[k].rest(more));
                    assert(s1[k].body == s0[k].body);
                }
            }
        }
    }

    /// Ends the input of a pipeline that is fed from outside.
    pub fn end_input(&mut self)
        requires
            old(self).wf(),
            is_fed(old(self).stretches@),
        ensures
            final(self).wf(),
            !final(self).stretches@[0].feeder.hungry(),
            final(self).cursor == old(self).cursor,
            final(self).progressed,
            forall|outs: Seq<Seq<u8>>, k: int|
                fits(old(self).stretches@, outs) && 0 <= k < old(self).stretches@.len()
                    ==> #[trigger] total(final(self).stretches@, k, outs) == total(
                    old(self).stretches@,
                    k,
                    outs.update(outs.len() - 1, Seq::empty()),
                ),
            forall|outs: Seq<Seq<u8>>, k: int|
                fits(old(self).stretches@, outs) && 0 <= k < old(self).stretches@.len()
                    ==> same_filters(
                    old(self).stretches@[k].body,
                    final(self).stretches@[k].body,
                    old(self).stretches@[k].rest(outs.update(outs.len() - 1, Seq::empty())),
                    #[trigger] final(self).stretches@[k].rest(outs),
                ),
            forall|outs: Seq<Seq<u8>>|
                fits(old(self).stretches@, outs) && all_take(
                    old(self).stretches@,
                    outs.update(outs.len() - 1, Seq::empty()),
                ) ==> #[trigger] all_take(final(self).stretches@, outs),
    {
        let ghost s0 = self.stretches@;
        let ghost e = Seq::<u8>::empty();
        assert(s0[0].wf());
        match &mut self.stretches[0].feeder {
            Feeder::Source { reader, relay: _ } => {
                reader.end();
            },
            Feeder::Command { process: _, staged: _ } => {},
        }
        self.progressed = true;
        proof {
            let s1 = self.stretches@;
            assert(in_line(s1)) by {
                assert forall|j: int| 0 <= j < s1.len() implies (#[trigger] s1[j]).wf() by {
                    if j != 0 {
                        assert(s1[j] == s0[j]);
                    }
                }
                assert forall|j: int| 0 <= j < s1.len() implies match (#[trigger] s1[j]).feeder {
                    Feeder::Source { reader: _, relay: _ } => j == 0,
                    Feeder::Command { process, staged } => process.has_input == (j > 0) && (j
                        == 0 ==> staged@.len() == 0) && s1[j].stage is Some,
                } by {
                    let f = s0[j].feeder;
                    if j != 0 {
                        assert(s1[j] == s0[j]);
                    }
                }
                assert forall|j: int|
                    1 <= j < s1.len() && (#[trigger] s1[j]).feeder.known() implies s1[j
                    - 1].body.dry() by {
                    assert(s1[j] == s0[j]);
                    assert(s0[j].feeder.known());
                    if j - 1 != 0 {
                        assert(s1[j - 1] == s0[j - 1]);
                    }
                }
            }
            assert forall|outs: Seq<Seq<u8>>, k: int|
                fits(s0, outs) && 0 <= k < s0.len() implies s1[k].rest(outs) == #[trigger] s0[
                k].rest(outs.update(outs.len() - 1, e)) by {
                let more = outs.update(outs.len() - 1, e);
                if k == 0 {
                    assert(more.last() == e);
                    assert(s1[0].rest(outs) =~= s0[0].rest(more));
                } else {
                    assert(s1[k] == s0[k]);
                    lemma_place(s0, k);
                    assert(outs[s0[k].stage->0 as int] == more[s0[k].stage->0 as int]);
                }
            }
            assert forall|outs: Seq<Seq<u8>>, k: int|
                fits(s0, outs) && 0 <= k < s0.len() implies same_filters(
                s0[k].body,
                s1[k].body,
                s0[k].rest(outs.update(outs.len() - 1, e)),
                #[trigger] s1[k].rest(outs),
            ) by {
                assert(s1[k].rest(outs) == s0[k].rest(outs.update(outs.len() - 1, e)));
                assert(s1[k].body == s0[k].body);
                lemma_same_filters_self(s0[k].body, s1[k].rest(outs));
            }
            assert forall|outs: Seq<Seq<u8>>, k: int|
                fits(s0, outs) && 0 <= k < s0.len() implies #[trigger] total(s1, k, outs) == total(
                s0,
                k,
                outs.update(outs.len() - 1, e),
            ) by {
                let more = outs.update(outs.len() - 1, e);
                assert(s1[k].rest(outs) == s0[k].rest(more));
                assert(s1[k].body == s0[k].body);
                if k + 1 < s0.len() {
                    assert(s1[k + 1] == s0[k + 1]);
                }
            }
            assert forall|outs: Seq<Seq<u8>>|
                fits(s0, outs) && all_take(
                    s0,
                    outs.update(outs.len() - 1, e),
                ) implies #[trigger] all_take(s1, outs) by {
                let more = outs.update(outs.len() - 1, e);
                assert forall|k: int| 0 <= k < s1.len() implies (#[trigger] s1[k]).takes(outs) by {
                    assert(s0[k].takes(more));
                    assert(s1[k].rest(outs) == s0[k].rest(more));
                    assert(s1[k].body == s0[k].body);
                }
            }
        }
    }

    /// Takes note of what the command of a stretch printed, and of its status.
    pub fn ran(&mut self, k: usize, stdout: &[u8], stderr: &[u8], status: i32)
        requires
            old(self).wf(),
            wants_run(old(self).stretches@, k as int),
        ensures
            final(self).wf(),
            final(self).cursor == old(self).cursor,
            final(self).progressed,
            ({
                let a = old(self).stretches@;
                let b = final(self).stretches@;
                &&& b.len() == a.len()
                &&& forall|j: int| 0 <= j < a.len() && j != k ==> #[trigger] b[j] == a[j]
                &&& b[k as int].same_place(&a[k as int])
                &&& ran_to(a[k as int].feeder, b[k as int].feeder, stdout@, stderr@, status)
                &&& forall|outs: Seq<Seq<u8>>|
                    prints(a[k as int], stdout@, stderr@, outs) ==> #[trigger] same_flow(
                        a[k as int],
                        b[k as int],
                        outs,
                    ) && same_totals(a, b, outs) && follows(a, b, outs)
            }),
    {
        let ghost s0 = self.stretches@;
        assert(s0[k as int].wf());
        self.stretches[k].ran(stdout, stderr, status);
        self.progressed = true;
        proof {
            let s2 = self.stretches@;
            assert forall|j: int| 0 <= j < s0.len() && j != k implies #[trigger] s2[j]
                == s0[j] by {}
            lemma_ran_in_line(s0, s2, k as int);
            assert forall|outs: Seq<Seq<u8>>| prints(
                s0[k as int],
                stdout@,
                stderr@,
                outs,
            ) implies #[trigger] same_flow(s0[k as int], s2[k as int], outs) && same_totals(
                s0,
                s2,
                outs,
            ) && follows(s0, s2, outs) by {
                assert(same_flow(s0[k as int], s2[k as int], outs));
                lemma_follows_one(s0, s2, k as int, outs);
                lemma_ran(s0, s2, k as int, outs);
            }
        }
    }

    /// The input that was collected for the command of a stretch.
    pub fn input_of(&self, k: usize) -> (r: Vec<u8>)
        requires
            k < self.stretches@.len(),
        ensures
            r@ == self.stretches@[k as int].feeder.staged(),
    {
        match &self.stretches[k].feeder {
            Feeder::Command { process: _, staged } => vstd::slice::slice_to_vec(staged.as_slice()),
            Feeder::Source { reader: _, relay: _ } => {
                let none: Vec<u8> = Vec::new();
                assert(none@ =~= Seq::<u8>::empty());
                none
            },
        }
    }

    /// Where the `tee` is that is stage `stage` and is not over: its stretch, and its place there.
    fn find_tee(&self, stage: usize) -> (r: Option<(usize, usize)>)
        ensures
            match r {
                Some(at) => is_tee_at(self.stretches@, at.0 as int, at.1 as int, stage as int),
                None => forall|k: int, j: int|
                    !#[trigger] is_tee_at(self.stretches@, k, j, stage as int),
            },
    {
        let mut k: usize = 0;
        while k < self.stretches.len()
            invariant
                k <= self.stretches@.len(),
                forall|i: int, j: int|
                    0 <= i < k ==> !#[trigger] is_tee_at(self.stretches@, i, j, stage as int),
            decreases self.stretches@.len() - k,
        {
            let end: usize = self.stretches[k].end;
            if let Some(j) = self.stretches[k].body.tee_of(stage, end) {
                return Some((k, j));
            }
            k = k + 1;
        }
        None
    }

    /// Takes note that a file of the `tee` that is stage `stage` could not be written: the stage
    /// complains, and its status is one. Where its standard error goes to its output, the complaint
    /// waits there behind what waits already, and the stages behind it read it. Returns whether
    /// there is such a stage that is not over.
    pub fn target_failed(&mut self, stage: usize, path: &str, err: &str) -> (r: bool)
        requires
            old(self).wf(),
        ensures
            final(self).wf(),
            final(self).cursor == old(self).cursor,
            if r {
                exists|k: int, j: int| #[trigger]
                    tee_failed_at(
                        old(self).stretches@,
                        final(self).stretches@,
                        k,
                        j,
                        stage as int,
                        tee_error_message(path@, err@),
                    ) && final(self).progressed == (old(self).progressed || old(
                        self,
                    ).stretches@[k].body.links()[j].body.pipes_stderr())
            } else {
                *final(self) == *old(self) && forall|k: int, j: int|
                    !#[trigger] is_tee_at(old(self).stretches@, k, j, stage as int)
            },
    {
        let ghost s0 = self.stretches@;
        let (k, j): (usize, usize) = match self.find_tee(stage) {
            Some(at) => at,
            None => {
                return false;
            },
        };
        assert(s0[k as int].wf());
        let piped: bool = self.stretches[k].body.pipes_stderr_at(j);
        self.stretches[k].body.target_failed(j, path, err);
        if piped {
            self.progressed = true;
        }
        proof {
            let s1 = self.stretches@;
            assert forall|i: int| 0 <= i < s0.len() && i != k implies #[trigger] s1[i]
                == s0[i] by {}
            lemma_in_line(s0, s1, k as int);
            if !self.progressed {
                assert forall|i: int| self.cursor <= i < s1.len() implies #[trigger] settled(
                    s1,
                    i,
                ) by {
                    assert(settled(s0, i));
                    if i != k {
                        assert(s1[i] == s0[i]);
                    }
                    if i > 0 && i - 1 != k {
                        assert(s1[i - 1] == s0[i - 1]);
                    }
                }
            }
            assert(tee_failed_at(
                s0,
                s1,
                k as int,
                j as int,
                stage as int,
                tee_error_message(path@, err@),
            ));
        }
        true
    }

    /// Whether every source, command and filter is over.
    pub fn is_over(&self) -> (r: bool)
        ensures
            r == all_over(self.stretches@),
    {
        let mut i: usize = 0;
        while i < self.stretches.len()
            invariant
                i <= self.stretches@.len(),
                forall|k: int|
                    0 <= k < i ==> (#[trigger] self.stretches@[k]).over
                        && self.stretches@[k].body.over(),
            decreases self.stretches@.len() - i,
        {
            if !self.stretches[i].over || !self.stretches[i].body.is_over() {
                return false;
            }
            i = i + 1;
        }
        true
    }

    /// Whether the pipeline stops after a round: a limit was hit, everything is over, or nothing
    /// moved.
    pub fn round_ends(&self, exhausted: bool) -> (r: bool)
        ensures
            r == (exhausted || all_over(self.stretches@) || !self.progressed),
    {
        exhausted || self.is_over() || !self.progressed
    }

    /// How many bytes wait in the pipes that stages write to; at most what fits.
    pub fn held(&self) -> (r: u64)
        ensures
            r == least(
                waiting_upto(self.stretches@, self.stretches@.len() as int) as int,
                u64::MAX as int,
            ),
    {
        let mut sum: u64 = 0;
        let mut i: usize = 0;
        while i < self.stretches.len()
            invariant
                i <= self.stretches@.len(),
                sum == least(waiting_upto(self.stretches@, i as int) as int, u64::MAX as int),
            decreases self.stretches@.len() - i,
        {
            let here: u64 = self.stretches[i].body.held(self.stretches[i].stage.is_none());
            sum = saturating_sum(sum, here);
            i = i + 1;
        }
        sum
    }

    /// The exit statuses of the stages so far.
    pub fn statuses(&self) -> (r: Vec<i32>)
        ensures
            r@ == statuses_upto(self.stretches@, self.stretches@.len() as int),
    {
        let mut r: Vec<i32> = Vec::new();
        let mut i: usize = 0;
        assert(r@ =~= Seq::<i32>::empty());
        while i < self.stretches.len()
            invariant
                i <= self.stretches@.len(),
                r@ == statuses_upto(self.stretches@, i as int),
            decreases self.stretches@.len() - i,
        {
            let ghost before = r@;
            let s = &self.stretches[i];
            if s.stage.is_some() {
                let status: i32 = match &s.feeder {
                    Feeder::Source { reader: _, relay } => relay.status,
                    Feeder::Command { process, staged: _ } => process.status,
                };
                r.push(status);
            }
            let ghost mid = r@;
            s.body.add_statuses(&mut r);
            assert(r@ =~= before + statuses_of(*s));
            i = i + 1;
        }
        r
    }

    /// What the stages wrote to their standard errors and what did not go to a pipe, in the order of
    /// the stages.
    pub fn stderr(&self) -> (r: Vec<u8>)
        ensures
            r@ == stderr_upto(self.stretches@, self.stretches@.len() as int),
    {
        let mut r: Vec<u8> = Vec::new();
        let mut i: usize = 0;
        assert(r@ =~= Seq::<u8>::empty());
        while i < self.stretches.len()
            invariant
                i <= self.stretches@.len(),
                r@ == stderr_upto(self.stretches@, i as int),
            decreases self.stretches@.len() - i,
        {
            match &self.stretches[i].feeder {
                Feeder::Source { reader: _, relay } => {
                    r.extend_from_slice(relay.stderr.as_slice());
                },
                Feeder::Command { process, staged: _ } => {
                    r.extend_from_slice(process.stderr.as_slice());
                },
            }
            self.stretches[i].body.add_complaints(&mut r);
            assert(r@ =~= stderr_upto(self.stretches@, i + 1));
            i = i + 1;
        }
        r
    }
}

/// Stretches where one differs only in how far the bytes have come in it.
proof fn lemma_kept(s0: Seq<Stretch>, s1: Seq<Stretch>, k: int)
    requires
        s0.len() == s1.len(),
        0 <= k < s0.len(),
        forall|j: int| 0 <= j < s0.len() && j != k ==> #[trigger] s1[j] == s0[j],
        s1[k].same_place(&s0[k]),
        same_role(s0[k].feeder, s1[k].feeder),
        s1[k].feeder.staged() == s0[k].feeder.staged(),
        forall|outs: Seq<Seq<u8>>| #[trigger] s1[k].flow(outs) == s0[k].flow(outs),
        forall|outs: Seq<Seq<u8>>| s0[k].takes(outs) ==> #[trigger] s1[k].takes(outs),
        forall|outs: Seq<Seq<u8>>| #[trigger] s1[k].result(outs) == s0[k].result(outs),
        forall|outs: Seq<Seq<u8>>| #[trigger] same_filters_in(s0, s1, k, outs),
    ensures
        kept(s0, s1),
{
    reveal(kept);
    assert forall|j: int, outs: Seq<Seq<u8>>|
        0 <= j < s0.len() implies #[trigger] same_filters_in(s0, s1, j, outs) by {
        if j != k {
            assert(s1[j] == s0[j]);
            lemma_same_filters_self(s0[j].body, s0[j].rest(outs));
        }
    }
    assert forall|j: int| 0 <= j < s0.len() implies (#[trigger] s1[j]).same_place(&s0[j])
        && same_role(s0[j].feeder, s1[j].feeder) by {
        if j != k {
            assert(s1[j] == s0[j]);
        }
    }
    assert forall|j: int, outs: Seq<Seq<u8>>| 0 <= j < s0.len() implies #[trigger] total(
        s1,
        j,
        outs,
    ) == total(s0, j, outs) by {
        if j != k {
            assert(s1[j] == s0[j]);
        } else {
            assert(s1[k].flow(outs) == s0[k].flow(outs));
        }
        if j + 1 < s0.len() && j + 1 != k {
            assert(s1[j + 1] == s0[j + 1]);
        }
    }
    assert forall|j: int, outs: Seq<Seq<u8>>|
        0 <= j < s0.len() && s0[j].takes(outs) implies #[trigger] s1[j].takes(outs) by {
        if j != k {
            assert(s1[j] == s0[j]);
        }
    }
    assert forall|j: int, outs: Seq<Seq<u8>>| 0 <= j < s0.len() implies #[trigger] s1[j].result(
        outs,
    ) == s0[j].result(outs) by {
        if j != k {
            assert(s1[j] == s0[j]);
        }
    }
}

/// A stretch behind the first one is fed by a command, which is a stage.
proof fn lemma_place(s: Seq<Stretch>, k: int)
    requires
        in_line(s),
        0 < k < s.len(),
    ensures
        s[k].stage is Some,
{
    let f = s[k].feeder;
}

/// Stretches still fit together after a command that had all its input has run.
proof fn lemma_ran_in_line(s0: Seq<Stretch>, s2: Seq<Stretch>, k: int)
    requires
        in_line(s0),
        s0.len() == s2.len(),
        wants_run(s0, k),
        forall|j: int| 0 <= j < s0.len() && j != k ==> #[trigger] s2[j] == s0[j],
        s2[k].wf(),
        s2[k].stage is Some,
        s0[k].body.dry() ==> s2[k].body.dry(),
        s0[k].feeder matches Feeder::Command { process: x, staged: s } && s2[k].feeder matches
            Feeder::Command { process: y, staged: t } && y.has_input == x.has_input && s@ == t@,
    ensures
        in_line(s2),
{
    assert forall|j: int| 0 <= j < s2.len() implies (#[trigger] s2[j]).wf() by {
        if j != k {
            assert(s2[j] == s0[j]);
        }
    }
    assert forall|j: int| 0 <= j < s2.len() implies match (#[trigger] s2[j]).feeder {
        Feeder::Source { reader: _, relay: _ } => j == 0,
        Feeder::Command { process, staged } => process.has_input == (j > 0) && (j == 0
            ==> staged@.len() == 0) && s2[j].stage is Some,
    } by {
        let f = s0[j].feeder;
        if j != k {
            assert(s2[j] == s0[j]);
        }
    }
    assert forall|j: int| 1 <= j < s2.len() && (#[trigger] s2[j]).feeder.known() implies s2[j
        - 1].body.dry() by {
        if j != k {
            assert(s2[j] == s0[j]);
            assert(s0[j].feeder.known());
        }
        if j - 1 != k {
            assert(s2[j - 1] == s0[j - 1]);
        }
    }
}

/// What every stretch has written and still writes stays the same where that holds of one of them
/// and the others are the same.
proof fn lemma_ran(s0: Seq<Stretch>, s2: Seq<Stretch>, k: int, outs: Seq<Seq<u8>>)
    requires
        s0.len() == s2.len(),
        0 <= k < s0.len(),
        forall|j: int| 0 <= j < s0.len() && j != k ==> #[trigger] s2[j] == s0[j],
        s2[k].feeder.staged() == s0[k].feeder.staged(),
        same_flow(s0[k], s2[k], outs),
    ensures
        same_totals(s0, s2, outs),
{
    reveal(same_totals);
    assert forall|j: int| 0 <= j < s0.len() implies #[trigger] total(s2, j, outs) == total(
        s0,
        j,
        outs,
    ) by {
        if j != k {
            assert(s2[j] == s0[j]);
        }
        if j + 1 < s0.len() && j + 1 != k {
            assert(s2[j + 1] == s0[j + 1]);
        }
    }
}

/// Filters that can take their input still can.
proof fn lemma_kept_takes(a: Seq<Stretch>, b: Seq<Stretch>, outs: Seq<Seq<u8>>)
    requires
        kept(a, b),
        all_take(a, outs),
    ensures
        all_take(b, outs),
{
    reveal(kept);
    assert forall|k: int| 0 <= k < b.len() implies (#[trigger] b[k]).takes(outs) by {
        assert(a[k].takes(outs));
    }
}

/// Stretches are kept when nothing happens.
proof fn lemma_kept_self(a: Seq<Stretch>)
    ensures
        kept(a, a),
{
    reveal(kept);
    assert forall|k: int, outs: Seq<Seq<u8>>| 0 <= k < a.len() implies #[trigger] same_filters_in(
        a,
        a,
        k,
        outs,
    ) by {
        lemma_same_filters_self(a[k].body, a[k].rest(outs));
    }
}

proof fn lemma_kept_chain(a: Seq<Stretch>, b: Seq<Stretch>, c: Seq<Stretch>)
    requires
        kept(a, b),
        kept(b, c),
    ensures
        kept(a, c),
{
    reveal(kept);
    assert forall|k: int| 0 <= k < a.len() implies (#[trigger] c[k]).same_place(&a[k])
        && same_role(a[k].feeder, c[k].feeder) by {
        assert(b[k].same_place(&a[k]));
    }
    assert forall|k: int, outs: Seq<Seq<u8>>| 0 <= k < a.len() implies #[trigger] total(
        c,
        k,
        outs,
    ) == total(a, k, outs) by {
        assert(total(b, k, outs) == total(a, k, outs));
    }
    assert forall|k: int, outs: Seq<Seq<u8>>|
        0 <= k < a.len() && a[k].takes(outs) implies #[trigger] c[k].takes(outs) by {
        assert(b[k].takes(outs));
    }
    assert forall|k: int, outs: Seq<Seq<u8>>|
        0 <= k < a.len() implies #[trigger] same_filters_in(a, c, k, outs) by {
        assert(same_filters_in(a, b, k, outs));
        assert(same_filters_in(b, c, k, outs));
        lemma_same_filters_chain(
            a[k].body,
            b[k].body,
            c[k].body,
            a[k].rest(outs),
            b[k].rest(outs),
            c[k].rest(outs),
        );
    }
    assert forall|k: int, outs: Seq<Seq<u8>>| 0 <= k < a.len() implies #[trigger] c[k].result(
        outs,
    ) == a[k].result(outs) by {
        assert(b[k].result(outs) == a[k].result(outs));
    }
}

/// Nothing gets lost when bytes go from one stretch to the input of the command behind it.
proof fn lemma_collected(s0: Seq<Stretch>, s1: Seq<Stretch>, k: int, data: Seq<u8>)
    requires
        in_line(s0),
        s0.len() == s1.len(),
        0 < k < s0.len(),
        !s0[k].feeder.known(),
        forall|j: int| 0 <= j < s0.len() && j != k && j != k - 1 ==> #[trigger] s1[j] == s0[j],
        s1[k].body == s0[k].body,
        s1[k].over == s0[k].over,
        s1[k].same_place(&s0[k]),
        same_role(s0[k].feeder, s1[k].feeder),
        s1[k].feeder.wf(),
        s1[k].feeder.finished() == s0[k].feeder.finished(),
        s1[k].feeder.staged() == s0[k].feeder.staged() + data,
        s1[k - 1].feeder == s0[k - 1].feeder,
        s1[k - 1].over == s0[k - 1].over,
        s1[k - 1].same_place(&s0[k - 1]),
        s1[k - 1].wf(),
        forall|rest: Seq<u8>|
            data + #[trigger] s1[k - 1].body.future(rest) == s0[k - 1].body.future(rest),
        forall|rest: Seq<u8>|
            s0[k - 1].body.takes(rest) ==> #[trigger] s1[k - 1].body.takes(rest),
        forall|rest: Seq<u8>| #[trigger]
            s1[k - 1].body.result(rest) == s0[k - 1].body.result(rest),
        forall|rest: Seq<u8>| #[trigger]
            same_filters(s0[k - 1].body, s1[k - 1].body, rest, rest),
    ensures
        in_line(s1),
        kept(s0, s1),
{
    reveal(kept);
    assert forall|j: int, outs: Seq<Seq<u8>>|
        0 <= j < s0.len() implies #[trigger] same_filters_in(s0, s1, j, outs) by {
        if j == k - 1 {
            let x = s0[j].rest(outs);
            assert(same_filters(s0[k - 1].body, s1[k - 1].body, x, x));
        } else {
            if j != k {
                assert(s1[j] == s0[j]);
            }
            lemma_same_filters_self(s0[j].body, s0[j].rest(outs));
        }
    }
    assert(s0[k].wf());
    assert(s0[k - 1].wf());
    assert forall|j: int| 0 <= j < s0.len() implies (#[trigger] s1[j]).same_place(&s0[j])
        && same_role(s0[j].feeder, s1[j].feeder) by {
        if j != k && j != k - 1 {
            assert(s1[j] == s0[j]);
        }
    }
    assert forall|j: int, outs: Seq<Seq<u8>>| 0 <= j < s0.len() implies #[trigger] total(
        s1,
        j,
        outs,
    ) == total(s0, j, outs) by {
        if j == k - 1 {
            let rest = s0[j].rest(outs);
            assert(data + s1[j].body.future(rest) == s0[j].body.future(rest));
            assert(total(s1, j, outs) =~= total(s0, j, outs));
        } else if j != k {
            assert(s1[j] == s0[j]);
        }
        if j + 1 < s0.len() && j + 1 != k && j + 1 != k - 1 {
            assert(s1[j + 1] == s0[j + 1]);
        }
    }
    assert forall|j: int, outs: Seq<Seq<u8>>|
        0 <= j < s0.len() && s0[j].takes(outs) implies #[trigger] s1[j].takes(outs) by {
        if j != k && j != k - 1 {
            assert(s1[j] == s0[j]);
        }
    }
    assert forall|j: int, outs: Seq<Seq<u8>>| 0 <= j < s0.len() implies #[trigger] s1[j].result(
        outs,
    ) == s0[j].result(outs) by {
        if j != k && j != k - 1 {
            assert(s1[j] == s0[j]);
        }
    }
    assert forall|j: int| 0 <= j < s1.len() implies (#[trigger] s1[j]).wf() by {
        if j != k && j != k - 1 {
            assert(s1[j] == s0[j]);
        }
    }
    assert forall|j: int| 0 <= j < s1.len() implies match (#[trigger] s1[j]).feeder {
        Feeder::Source { reader: _, relay: _ } => j == 0,
        Feeder::Command { process, staged } => process.has_input == (j > 0) && (j == 0
            ==> staged@.len() == 0) && s1[j].stage is Some,
    } by {
        let f = s0[j].feeder;
        if j != k && j != k - 1 {
            assert(s1[j] == s0[j]);
        }
    }
    assert forall|j: int| 1 <= j < s1.len() && (#[trigger] s1[j]).feeder.known() implies s1[j
        - 1].body.dry() by {
        assert(s0[j].feeder.known());
        if j - 1 != k && j - 1 != k - 1 {
            assert(s1[j - 1] == s0[j - 1]);
        }
    }
}

/// Stretches still fit together where one of them is still well formed, plays the same role and is
/// still dry if it was.
proof fn lemma_in_line(s0: Seq<Stretch>, s1: Seq<Stretch>, k: int)
    requires
        in_line(s0),
        s0.len() == s1.len(),
        0 <= k < s0.len(),
        forall|j: int| 0 <= j < s0.len() && j != k ==> #[trigger] s1[j] == s0[j],
        s1[k].wf(),
        s1[k].same_place(&s0[k]),
        same_role(s0[k].feeder, s1[k].feeder),
        s1[k].feeder.staged() == s0[k].feeder.staged(),
        s0[k].body.dry() ==> s1[k].body.dry(),
    ensures
        in_line(s1),
{
    assert(s0[k].wf());
    assert forall|j: int| 0 <= j < s1.len() implies (#[trigger] s1[j]).wf() by {
        if j != k {
            assert(s1[j] == s0[j]);
        }
    }
    assert forall|j: int| 0 <= j < s1.len() implies match (#[trigger] s1[j]).feeder {
        Feeder::Source { reader: _, relay: _ } => j == 0,
        Feeder::Command { process, staged } => process.has_input == (j > 0) && (j == 0
            ==> staged@.len() == 0) && s1[j].stage is Some,
    } by {
        let f = s0[j].feeder;
        if j != k {
            assert(s1[j] == s0[j]);
        }
    }
    assert forall|j: int| 1 <= j < s1.len() && (#[trigger] s1[j]).feeder.known() implies s1[j
        - 1].body.dry() by {
        assert(s0[j].feeder.known());
        if j - 1 != k {
            assert(s1[j - 1] == s0[j - 1]);
        }
    }
}

/// A pipeline never waits for itself: when nothing can happen, its output was taken and no more is
/// to be added to its input, then every source, command and filter is over.
pub proof fn law_schedule_never_deadlocks(s: Seq<Stretch>)
    requires
        in_line(s),
        quiet(s, 0),
        s[s.len() - 1].body.output().len() == 0,
        !s[0].feeder.hungry(),
    ensures
        all_over(s),
{
    assert forall|k: int| 0 <= k < s.len() implies (#[trigger] s[k]).over
        && s[k].body.over() by {
        lemma_over(s, k);
    }
}

proof fn lemma_over(s: Seq<Stretch>, k: int)
    requires
        in_line(s),
        quiet(s, 0),
        s[s.len() - 1].body.output().len() == 0,
        !s[0].feeder.hungry(),
        0 <= k < s.len(),
    ensures
        s[k].over,
        s[k].body.over(),
        s[k].body.silent(),
    decreases k,
{
    if k > 0 {
        lemma_over(s, k - 1);
    }
    assert(s[k].wf());
    assert(settled(s, k));
    let body = s[k].body;
    assert(body.output().len() == 0) by {
        if k + 1 < s.len() {
            assert(settled(s, k + 1));
            assert(s[k + 1].wf());
            let e = Seq::<u8>::empty();
            if s[k + 1].feeder.known() {
                assert(body.dry());
                assert(body.future(e).len() == 0);
            }
        }
    }
    match body {
        Body::Direct(p) => {},
        Body::Filters(net) => {
            lemma_takes_input(net.links@, net.pipes@);
            if s[k].over {
                law_pipeline_never_deadlocks(net.links@, net.pipes@);
            }
        },
    }
}

/// The status that a pipeline has in the end, where it ends in a filter, is the one that this
/// filter comes to for its input.
pub proof fn law_status_in_the_end(s: Seq<Stretch>, outs: Seq<Seq<u8>>)
    requires
        in_line(s),
        all_over(s),
        s[s.len() - 1].body is Filters,
    ensures
        statuses_upto(s, s.len() as int).last() == s[s.len() - 1].result(outs),
{
    let last = s[s.len() - 1];
    assert(last.wf());
    match last.body {
        Body::Direct(_) => {},
        Body::Filters(net) => {
            let n = net.links@.len() as int;
            assert(net.links@[n - 1].exited);
            assert(last.body.statuses().len() == n);
            assert(last.body.statuses()[n - 1] == net.links@[n - 1].body.status_now());
            assert(statuses_of(last).last() == last.body.statuses()[n - 1]);
        },
    }
}

/// Nothing is left in a pipeline that is over once its output was taken: all that its last stage
/// writes has come out.
pub proof fn law_all_output_comes_out(s: Seq<Stretch>, outs: Seq<Seq<u8>>)
    requires
        in_line(s),
        all_over(s),
        s[s.len() - 1].body.output().len() == 0,
    ensures
        total(s, s.len() - 1, outs) == Seq::<u8>::empty(),
{
    let last = s[s.len() - 1];
    assert(last.wf());
    match last.body {
        Body::Direct(p) => {
            assert(total(s, s.len() - 1, outs) =~= Seq::<u8>::empty());
        },
        Body::Filters(net) => {
            assert(net.links@[net.links@.len() - 1].exited);
            assert(total(s, s.len() - 1, outs) =~= Seq::<u8>::empty());
        },
    }
}

} // verus!
