//! What stands behind a process that writes: a pipe, or filters with the pipes between them.
use crate::pipeline::link::{LinkBody, StageLink};
use crate::pipeline::network::{
    begins, blocked, coming, complained, cut_at, idle_from, law_stage_works_on_what_comes_before,
    reached, result_at, same_stage, same_stages, starving, stream_at, with_message, Network, Round,
};
use crate::pipeline::pipe::{least, Pipe};
use crate::pipeline::process::{taken_by, tee_error_message, write_fits, WriteResult};
use vstd::prelude::*;
use vstd::utf8::encode_utf8;

verus! {

/// What stands behind a process that writes.
pub enum Body {
    Direct(Pipe),
    Filters(Network),
}

/// Whether filter `k` of `b` is the same filter as in `a`, where these are the rests of their inputs:
/// it writes the same and comes to the same status, or it was cut off and has written the beginning
/// of that. One that is over does not change any more.
pub open spec fn same_filter(a: Body, b: Body, k: int, rest_a: Seq<u8>, rest_b: Seq<u8>) -> bool {
    &&& b.links()[k].tee == a.links()[k].tee
    &&& b.links()[k].body is Head == a.links()[k].body is Head
    &&& b.links()[k].body.pipes_stderr() == a.links()[k].body.pipes_stderr()
    &&& b.links()[k].body.stderr() == a.links()[k].body.stderr()
    &&& b.links()[k].begun == a.links()[k].begun
    &&& b.links()[k].body.failed() == a.links()[k].body.failed()
    &&& b.pipes()[k + 1].capacity() == a.pipes()[k + 1].capacity()
    &&& a.links()[k].exited ==> b.links()[k] == a.links()[k]
    &&& a.cut_at(k) ==> b.cut_at(k)
    &&& b.result_at(k, rest_b) == a.result_at(k, rest_a) || b.cut_at(k)
    &&& b.stream_at(k, rest_b) == a.stream_at(k, rest_a) || (b.cut_at(k) && begins(
        b.stream_at(k, rest_b),
        a.stream_at(k, rest_a),
    ))
}

/// Whether all filters of `b` are the same as in `a`, where these are the rests of their inputs.
#[verifier::opaque]
pub open spec fn same_filters(a: Body, b: Body, rest_a: Seq<u8>, rest_b: Seq<u8>) -> bool {
    &&& a.links().len() == b.links().len()
    &&& a.pipes()[0].read_closed() ==> b.pipes()[0].read_closed()
    &&& b.inflow(rest_b) == a.inflow(rest_a) || (b.pipes()[0].read_closed() && begins(
        b.inflow(rest_b),
        a.inflow(rest_a),
    ))
    &&& forall|k: int|
        0 <= k < a.links().len() ==> #[trigger] same_filter(a, b, k, rest_a, rest_b)
}

/// What the first `n` filters wrote to their standard errors and not to their outputs.
pub open spec fn complaints_upto(links: Seq<StageLink>, n: int) -> Seq<u8>
    decreases n,
{
    if n <= 0 {
        Seq::empty()
    } else {
        complaints_upto(links, n - 1) + links[n - 1].complaints()
    }
}

/// Whether filter `j` has complained and has the status one, and nothing else changed, but that the
/// complaint comes in its output, behind what waits, where its standard error goes there.
#[verifier::opaque]
pub open spec fn target_failed_in(a: Body, b: Body, j: int, message: Seq<char>) -> bool {
    let piped = a.links()[j].body.pipes_stderr();
    &&& b.links().len() == a.links().len()
    &&& forall|i: int|
        0 <= i < a.links().len() && i != j ==> #[trigger] b.links()[i] == a.links()[i]
    &&& complained(a.links()[j], b.links()[j], message)
    &&& b.pipes() == a.pipes()
    &&& forall|i: int, rest: Seq<u8>|
        0 <= i < a.links().len() && (i <= j || !piped) ==> #[trigger] b.stream_at(i, rest)
            == if i == j && piped {
            with_message(
                a.stream_at(i, rest),
                reached(a.links(), a.pipes(), i),
                encode_utf8(message),
            )
        } else {
            a.stream_at(i, rest)
        }
    &&& forall|i: int, rest: Seq<u8>|
        0 <= i < a.links().len() && (i <= j || !piped) ==> #[trigger] b.result_at(i, rest) == if i
            == j {
            1
        } else {
            a.result_at(i, rest)
        }
    &&& forall|i: int, rest: Seq<u8>|
        j < i < a.links().len() ==> #[trigger] b.stream_at(i, rest) == stream_behind(b, i, rest)
    &&& forall|i: int, rest: Seq<u8>|
        j < i < a.links().len() ==> #[trigger] b.result_at(i, rest) == b.links()[i].result(
            unread_at(b, i, rest),
        )
    &&& !piped ==> forall|rest: Seq<u8>| #[trigger] b.future(rest) == a.future(rest)
    &&& !piped ==> forall|rest: Seq<u8>| #[trigger] b.takes(rest) == a.takes(rest)
}

/// What filter `i` has still to read of all that the filter before it writes.
pub open spec fn unread_at(b: Body, i: int, rest: Seq<u8>) -> Seq<u8> {
    b.stream_at(i - 1, rest).skip(b.pipes()[i].taken().len() as int)
}

/// What filter `i` writes in all: what it has written, and what it makes of what it has still to
/// read.
pub open spec fn stream_behind(b: Body, i: int, rest: Seq<u8>) -> Seq<u8> {
    b.pipes()[i + 1].written() + b.links()[i].future(unread_at(b, i, rest))
}

pub proof fn lemma_same_filters_chain(
    a: Body,
    b: Body,
    c: Body,
    x: Seq<u8>,
    y: Seq<u8>,
    z: Seq<u8>,
)
    requires
        same_filters(a, b, x, y),
        same_filters(b, c, y, z),
    ensures
        same_filters(a, c, x, z),
{
    reveal(same_filters);
    let i0 = a.inflow(x);
    let i1 = b.inflow(y);
    let i2 = c.inflow(z);
    if i1 != i0 && i2 != i1 {
        assert(i0.take(i1.len() as int).take(i2.len() as int) =~= i0.take(i2.len() as int));
    }
    assert forall|k: int| 0 <= k < a.links().len() implies #[trigger] same_filter(
        a,
        c,
        k,
        x,
        z,
    ) by {
        assert(same_filter(a, b, k, x, y));
        assert(same_filter(b, c, k, y, z));
        let s0 = a.stream_at(k, x);
        let s1 = b.stream_at(k, y);
        let s2 = c.stream_at(k, z);
        if s1 != s0 && s2 != s1 {
            assert(s0.take(s1.len() as int).take(s2.len() as int) =~= s0.take(s2.len() as int));
        }
    }
}

/// Filters are the same as themselves.
pub proof fn lemma_same_filters_self(a: Body, rest: Seq<u8>)
    ensures
        same_filters(a, a, rest, rest),
{
    reveal(same_filters);
}

/// Where the rest of the input does not matter any more, filters are the same without it.
pub proof fn lemma_same_filters_without(a: Body, b: Body, rest: Seq<u8>)
    requires
        same_filters(a, b, rest, rest),
        same_filters(a, b, Seq::empty(), rest),
        same_filters(a, b, Seq::empty(), Seq::empty()),
    ensures
        same_filters(a, b, rest, Seq::empty()),
{
    reveal(same_filters);
    let e = Seq::<u8>::empty();
    if b.pipes()[0].read_closed() {
        let w = a.inflow(rest);
        assert(b.inflow(e) == b.inflow(rest));
        assert(w.take(w.len() as int) =~= w);
    }
    assert forall|k: int| 0 <= k < a.links().len() implies #[trigger] same_filter(
        a,
        b,
        k,
        rest,
        e,
    ) by {
        assert(same_filter(a, b, k, rest, rest));
        assert(same_filter(a, b, k, e, rest));
        assert(same_filter(a, b, k, e, e));
        if b.cut_at(k) {
            assert(b.stream_at(k, e) == b.stream_at(k, rest));
        }
    }
}

/// Stages of a network that stay the same are the same filters.
proof fn lemma_filters_of(a: Network, b: Network, rest: Seq<u8>)
    requires
        same_stages(a.links@, a.pipes@, b.links@, b.pipes@),
    ensures
        same_filters(Body::Filters(a), Body::Filters(b), rest, rest),
{
    reveal(same_filters);
    let w = a.pipes@[0].written();
    assert((w + rest).take(w.len() as int) =~= w);
    assert forall|k: int| 0 <= k < a.links@.len() implies #[trigger] same_filter(
        Body::Filters(a),
        Body::Filters(b),
        k,
        rest,
        rest,
    ) by {
        assert(same_stage(a.links@, a.pipes@, b.links@, b.pipes@, k));
        let r = result_at(b.links@, b.pipes@, k, rest);
        let s = stream_at(b.links@, b.pipes@, k, rest);
    }
}

proof fn lemma_fed(a: Network, b: Network, rest_a: Seq<u8>, rest_b: Seq<u8>)
    requires
        b.links@ == a.links@,
        b.pipes@.len() == a.pipes@.len(),
        a.pipes@.len() == a.links@.len() + 1,
        forall|k: int| 1 <= k < a.pipes@.len() ==> #[trigger] b.pipes@[k] == a.pipes@[k],
        b.pipes@[0].read_closed() == a.pipes@[0].read_closed(),
        Body::Filters(b).inflow(rest_b) == Body::Filters(a).inflow(rest_a),
        forall|k: int|
            0 <= k < a.links@.len() ==> result_at(b.links@, b.pipes@, k, rest_b) == result_at(
                a.links@,
                a.pipes@,
                k,
                rest_a,
            ) && #[trigger] stream_at(b.links@, b.pipes@, k, rest_b) == stream_at(
                a.links@,
                a.pipes@,
                k,
                rest_a,
            ),
    ensures
        same_filters(Body::Filters(a), Body::Filters(b), rest_a, rest_b),
{
    reveal(same_filters);
    assert forall|k: int| 0 <= k < a.links@.len() implies #[trigger] same_filter(
        Body::Filters(a),
        Body::Filters(b),
        k,
        rest_a,
        rest_b,
    ) by {
        let s = stream_at(b.links@, b.pipes@, k, rest_b);
        assert(b.pipes@[k + 1] == a.pipes@[k + 1]);
    }
}

impl Body {
    /// Whether the parts fit together.
    pub open spec fn wf(&self) -> bool {
        match self {
            Body::Direct(p) => p.capacity() > 0 && !p.read_closed(),
            Body::Filters(net) => net.wf() && net.pipes@[0].capacity() > 0,
        }
    }

    /// Whether no more input comes.
    pub open spec fn closed(&self) -> bool {
        match self {
            Body::Direct(p) => p.write_closed(),
            Body::Filters(net) => net.closed(),
        }
    }

    /// All that was written into the first pipe and still comes, where `rest` is the rest of the
    /// input; nothing more comes where that pipe is not read any more.
    pub open spec fn inflow(&self, rest: Seq<u8>) -> Seq<u8> {
        let first = self.pipes()[0];
        if first.write_closed() || first.read_closed() {
            first.written()
        } else {
            first.written() + rest
        }
    }

    /// All that is still to be taken if `rest` is the rest of the input.
    pub open spec fn future(&self, rest: Seq<u8>) -> Seq<u8> {
        match self {
            Body::Direct(p) => p.contents() + if p.write_closed() {
                Seq::empty()
            } else {
                rest
            },
            Body::Filters(net) => net.future(rest),
        }
    }

    /// Whether every filter can take what is left of its input if `rest` is the rest of the input.
    pub open spec fn takes(&self, rest: Seq<u8>) -> bool {
        match self {
            Body::Direct(_) => true,
            Body::Filters(net) => net.takes(rest),
        }
    }

    /// The exit status of the last filter in the end if `rest` is the rest of the input; zero where
    /// there is none.
    pub open spec fn result(&self, rest: Seq<u8>) -> i32 {
        match self {
            Body::Direct(_) => 0,
            Body::Filters(net) => net.result(rest),
        }
    }

    /// The filters.
    pub open spec fn links(&self) -> Seq<StageLink> {
        match self {
            Body::Direct(_) => Seq::empty(),
            Body::Filters(net) => net.links@,
        }
    }

    /// The exit status of filter `k` in the end if `rest` is the rest of the input.
    pub open spec fn result_at(&self, k: int, rest: Seq<u8>) -> i32 {
        match self {
            Body::Direct(_) => 0,
            Body::Filters(net) => result_at(net.links@, net.pipes@, k, rest),
        }
    }

    /// All that filter `k` has written and still writes if `rest` is the rest of the input.
    pub open spec fn stream_at(&self, k: int, rest: Seq<u8>) -> Seq<u8> {
        match self {
            Body::Direct(_) => Seq::empty(),
            Body::Filters(net) => stream_at(net.links@, net.pipes@, k, rest),
        }
    }

    /// Whether filter `k` was cut off.
    pub open spec fn cut_at(&self, k: int) -> bool {
        match self {
            Body::Direct(_) => false,
            Body::Filters(net) => cut_at(net.links@, net.pipes@, k),
        }
    }

    /// The output that has arrived and was not taken.
    pub open spec fn output(&self) -> Seq<u8> {
        match self {
            Body::Direct(p) => p.contents(),
            Body::Filters(net) => net.pipes@[net.links@.len() as int].contents(),
        }
    }

    /// Whether no more output arrives.
    pub open spec fn silent(&self) -> bool {
        match self {
            Body::Direct(p) => p.write_closed(),
            Body::Filters(net) => net.links@[net.links@.len() - 1].exited,
        }
    }

    /// Whether the last filter is over and nothing comes out any more, whatever the rest of the
    /// input is.
    pub open spec fn dry(&self) -> bool {
        &&& self.silent()
        &&& forall|rest: Seq<u8>| #[trigger] self.future(rest) == Seq::<u8>::empty()
    }

    /// Whether every filter is over or waits.
    pub open spec fn idle(&self) -> bool {
        match self {
            Body::Direct(_) => true,
            Body::Filters(net) => idle_from(net.links@, net.pipes@, 0),
        }
    }

    /// How much is still to be done by the filters with the input that they have.
    pub open spec fn work(&self) -> nat {
        match self {
            Body::Direct(_) => 0,
            Body::Filters(net) => net.work_left(),
        }
    }

    /// Whether there is no room for more input, and somebody reads it.
    pub open spec fn full(&self) -> bool {
        match self {
            Body::Direct(p) => p.contents().len() >= p.capacity(),
            Body::Filters(net) => net.pipes@[0].contents().len() >= net.pipes@[0].capacity()
                && !net.links@[0].exited,
        }
    }

    /// Writes input, as much as there is room for.
    pub fn feed(&mut self, data: &[u8]) -> (r: WriteResult)
        requires
            old(self).wf(),
            !old(self).closed(),
        ensures
            final(self).wf(),
            !final(self).closed(),
            old(self).silent() ==> final(self).silent(),
            write_fits(r, data@.len() as int),
            r is Written ==> taken_by(r) == data@.len(),
            forall|rest: Seq<u8>| #[trigger]
                final(self).future(rest) == old(self).future(data@.take(taken_by(r)) + rest),
            forall|rest: Seq<u8>| #[trigger]
                final(self).takes(rest) == old(self).takes(data@.take(taken_by(r)) + rest),
            forall|rest: Seq<u8>| #[trigger]
                final(self).result(rest) == old(self).result(data@.take(taken_by(r)) + rest),
            forall|rest: Seq<u8>| #[trigger]
                same_filters(*old(self), *final(self), data@.take(taken_by(r)) + rest, rest),
            r is BrokenPipe ==> {
                &&& forall|rest: Seq<u8>| #[trigger]
                    same_filters(*old(self), *final(self), Seq::empty(), rest)
                &&& forall|rest: Seq<u8>| #[trigger]
                    final(self).future(rest) == old(self).future(Seq::empty())
                &&& forall|rest: Seq<u8>| #[trigger]
                    final(self).takes(rest) == old(self).takes(Seq::empty())
                &&& forall|rest: Seq<u8>| #[trigger]
                    final(self).result(rest) == old(self).result(Seq::empty())
            },
            !(r is BrokenPipe) && taken_by(r) == 0 && data@.len() > 0 ==> final(self).full() && (
            old(self).idle() ==> final(self).idle()) && final(self).output() == old(self).output()
                && final(self).silent() == old(self).silent() && final(self).work() == old(
                self,
            ).work(),
    {
        proof {
            reveal(same_filters);
        }
        match self {
            Body::Direct(p) => {
                let ghost before = *p;
                let size: usize = data.len();
                let r = p.write(data);
                proof {
                    let taken = data@.take(taken_by(r));
                    assert forall|rest: Seq<u8>| #[trigger]
                        (before.contents() + taken) + rest == before.contents() + (taken
                            + rest) by {
                        assert((before.contents() + taken) + rest =~= before.contents() + (taken
                            + rest));
                    }
                    if taken_by(r) == 0 {
                        assert(p.contents() =~= before.contents());
                    }
                    assert forall|rest: Seq<u8>| #[trigger]
                        same_filters(
                            Body::Direct(before),
                            Body::Direct(*p),
                            taken + rest,
                            rest,
                        ) by {
                        let w = before.written();
                        assert(p.written() =~= w + taken);
                        assert((w + taken) + rest =~= w + (taken + rest));
                    }
                }
                r
            },
            Body::Filters(net) => {
                let ghost before = *net;
                let r = net.feed(data);
                proof {
                    let taken = data@.take(taken_by(r));
                    assert forall|rest: Seq<u8>| #[trigger]
                        same_filters(
                            Body::Filters(before),
                            Body::Filters(*net),
                            taken + rest,
                            rest,
                        ) by {
                        let w = before.pipes@[0].written();
                        assert((w + taken) + rest =~= w + (taken + rest));
                        if r is BrokenPipe {
                            assert(w + taken =~= w);
                        }
                        lemma_fed(before, *net, taken + rest, rest);
                    }
                    if r is BrokenPipe {
                        assert forall|rest: Seq<u8>| #[trigger]
                            same_filters(
                                Body::Filters(before),
                                Body::Filters(*net),
                                Seq::empty(),
                                rest,
                            ) by {
                            lemma_fed(before, *net, Seq::empty(), rest);
                        }
                    }
                    if !(r is BrokenPipe) && taken_by(r) == 0 && data@.len() > 0 {
                        if before.links@.len() > 0 && old(self).idle() {
                            assert forall|k: int| 0 <= k < net.links@.len() implies (
                            #[trigger] net.links@[k]).exited || starving(
                                net.pipes@,
                                k,
                            ) || blocked(net.pipes@, k) by {
                                assert(net.links@[k] == before.links@[k]);
                                assert(net.pipes@[k + 1] == before.pipes@[k + 1]);
                            }
                        }
                    }
                }
                r
            },
        }
    }

    /// Ends the input.
    pub fn close(&mut self)
        requires
            old(self).wf(),
            !old(self).closed(),
        ensures
            final(self).wf(),
            final(self).closed(),
            old(self).silent() ==> final(self).silent(),
            forall|rest: Seq<u8>| #[trigger]
                same_filters(*old(self), *final(self), Seq::empty(), rest),
            forall|rest: Seq<u8>| #[trigger]
                final(self).future(rest) == old(self).future(Seq::empty()),
            forall|rest: Seq<u8>| #[trigger]
                final(self).takes(rest) == old(self).takes(Seq::empty()),
            forall|rest: Seq<u8>| #[trigger]
                final(self).result(rest) == old(self).result(Seq::empty()),
    {
        proof {
            reveal(same_filters);
        }
        match self {
            Body::Direct(p) => {
                p.close_write();
            },
            Body::Filters(net) => {
                let ghost before = *net;
                net.close_source();
                proof {
                    assert forall|rest: Seq<u8>| #[trigger]
                        same_filters(
                            Body::Filters(before),
                            Body::Filters(*net),
                            Seq::empty(),
                            rest,
                        ) by {
                        lemma_fed(before, *net, Seq::empty(), rest);
                    }
                }
            },
        }
    }

    /// Polls every filter that is not over once, from the last to the first.
    pub fn round(&mut self) -> (r: Round)
        requires
            old(self).wf(),
        ensures
            forall|rest: Seq<u8>| #[trigger] old(self).takes(rest) ==> r != Round::Stuck,
            r != Round::Stuck ==> {
                &&& final(self).wf()
                &&& final(self).closed() == old(self).closed()
                &&& old(self).silent() ==> final(self).silent()
                &&& forall|rest: Seq<u8>| #[trigger]
                    old(self).takes(rest) ==> final(self).takes(rest)
                &&& forall|rest: Seq<u8>| #[trigger]
                    final(self).result(rest) == old(self).result(rest)
                &&& forall|rest: Seq<u8>| #[trigger]
                    final(self).future(rest) == old(self).future(rest)
                &&& forall|rest: Seq<u8>| #[trigger]
                    same_filters(*old(self), *final(self), rest, rest)
            },
            r == Round::Progressed ==> final(self).work() < old(self).work(),
            r == Round::Idle ==> {
                &&& final(self).work() <= old(self).work()
                &&& final(self).idle()
                &&& final(self).output() == old(self).output()
                &&& final(self).silent() == old(self).silent()
            },
    {
        proof {
            reveal(same_filters);
        }
        match self {
            Body::Direct(_) => Round::Idle,
            Body::Filters(net) => {
                let ghost before = *net;
                let r = net.round();
                proof {
                    if r != Round::Stuck {
                        let last = before.links@.len() - 1;
                        assert(same_stage(before.links@, before.pipes@, net.links@, net.pipes@, last));
                        assert forall|rest: Seq<u8>| #[trigger]
                            same_filters(
                                Body::Filters(before),
                                Body::Filters(*net),
                                rest,
                                rest,
                            ) by {
                            lemma_filters_of(before, *net, rest);
                        }
                    }
                }
                r
            },
        }
    }

    /// Takes the output that has arrived.
    pub fn drain(&mut self) -> (r: Vec<u8>)
        requires
            old(self).wf(),
        ensures
            final(self).wf(),
            final(self).closed() == old(self).closed(),
            final(self).silent() == old(self).silent(),
            final(self).output().len() == 0,
            r@ == old(self).output(),
            final(self).work() == old(self).work(),
            r@.len() == 0 ==> (old(self).idle() ==> final(self).idle()) && (old(self).full()
                ==> final(self).full()),
            forall|rest: Seq<u8>| #[trigger] old(self).takes(rest) ==> final(self).takes(rest),
            forall|rest: Seq<u8>| #[trigger] final(self).result(rest) == old(self).result(rest),
            forall|rest: Seq<u8>|
                r@ + #[trigger] final(self).future(rest) == old(self).future(rest),
            forall|rest: Seq<u8>| #[trigger]
                same_filters(*old(self), *final(self), rest, rest),
    {
        proof {
            reveal(same_filters);
        }
        match self {
            Body::Direct(p) => {
                let ghost before = *p;
                let waiting: usize = p.len();
                let r = p.read(waiting);
                proof {
                    assert forall|rest: Seq<u8>|
                        r@ + #[trigger] (p.contents() + rest) == before.contents() + rest by {
                        assert(r@ + (p.contents() + rest) =~= (r@ + p.contents()) + rest);
                    }
                    assert(p.contents() =~= Seq::empty());
                    assert(r@ + p.contents() =~= r@);
                }
                r
            },
            Body::Filters(net) => {
                let ghost before = *net;
                let r = net.drain();
                proof {
                    assert forall|rest: Seq<u8>| #[trigger]
                        same_filters(Body::Filters(before), Body::Filters(*net), rest, rest) by {
                        lemma_filters_of(before, *net, rest);
                    }
                    if r@.len() == 0 && old(self).idle() {
                        assert forall|k: int| 0 <= k < net.links@.len() implies (
                        #[trigger] net.links@[k]).exited || starving(net.pipes@, k) || blocked(
                            net.pipes@,
                            k,
                        ) by {
                            assert(before.links@[k].exited || starving(before.pipes@, k)
                                || blocked(before.pipes@, k));
                            assert(net.pipes@[k] == before.pipes@[k]);
                            if k + 1 < net.links@.len() {
                                assert(net.pipes@[k + 1] == before.pipes@[k + 1]);
                            }
                        }
                    }
                }
                r
            },
        }
    }

    /// Takes note that a file of a `tee` that is not over could not be written: the filter complains,
    /// and its status is one. The complaint goes to its output where its standard error does.
    pub fn target_failed(&mut self, j: usize, path: &str, err: &str)
        requires
            old(self).wf(),
            j < old(self).links().len(),
            old(self).links()[j as int].body is Relay,
            !old(self).links()[j as int].exited,
        ensures
            final(self).wf(),
            target_failed_in(
                *old(self),
                *final(self),
                j as int,
                tee_error_message(path@, err@),
            ),
            final(self).closed() == old(self).closed(),
            final(self).output() == old(self).output(),
            final(self).silent() == old(self).silent(),
            old(self).dry() ==> final(self).dry(),
            !old(self).links()[j as int].body.pipes_stderr() ==> final(self).work() == old(
                self,
            ).work() && (old(self).idle() ==> final(self).idle()),
            old(self).full() ==> final(self).full(),
    {
        match self {
            Body::Direct(_) => {},
            Body::Filters(net) => {
                net.target_failed(j, path, err);
            },
        }
        proof {
            reveal(target_failed_in);
            if (*self) is Filters {
                let net = (*self)->Filters_0;
                let net0 = (*old(self))->Filters_0;
                let n = net.links@.len() as int;
                if old(self).dry() {
                    assert forall|rest: Seq<u8>| #[trigger]
                        self.future(rest) == Seq::<u8>::empty() by {
                        assert(old(self).future(rest) == Seq::<u8>::empty());
                        assert(net0.links@[n - 1].exited);
                        assert(net.links@[n - 1].exited);
                        assert(coming(net0.links@, net0.pipes@, n, rest) =~= Seq::<u8>::empty());
                        assert(coming(net.links@, net.pipes@, n, rest) =~= Seq::<u8>::empty());
                    }
                }
                assert forall|i: int, rest: Seq<u8>| j < i < self.links().len() implies
                    #[trigger] self.stream_at(i, rest) == stream_behind(*self, i, rest) by {
                    law_stage_works_on_what_comes_before(net, i, rest);
                }
                assert forall|i: int, rest: Seq<u8>| j < i < self.links().len() implies
                    #[trigger] self.result_at(i, rest) == self.links()[i].result(
                    unread_at(*self, i, rest),
                ) by {
                    law_stage_works_on_what_comes_before(net, i, rest);
                }
            }
        }
    }

    /// What the filters wrote to their standard errors and not to their outputs.
    pub open spec fn complaints(&self) -> Seq<u8> {
        complaints_upto(self.links(), self.links().len() as int)
    }

    /// Adds what the filters wrote to their standard errors and not to their outputs.
    pub fn add_complaints(&self, out: &mut Vec<u8>)
        ensures
            final(out)@ == old(out)@ + self.complaints(),
    {
        let ghost before = out@;
        assert(before + Seq::<u8>::empty() =~= before);
        match self {
            Body::Direct(_) => {},
            Body::Filters(net) => {
                let mut i: usize = 0;
                while i < net.links.len()
                    invariant
                        i <= net.links@.len(),
                        out@ == before + complaints_upto(net.links@, i as int),
                    decreases net.links@.len() - i,
                {
                    let ghost here = out@;
                    net.links[i].add_complaints(out);
                    assert(out@ =~= before + complaints_upto(net.links@, i + 1));
                    i = i + 1;
                }
            },
        }
    }

    /// Whether filter `j` sends its standard error to its output.
    pub fn pipes_stderr_at(&self, j: usize) -> (r: bool)
        requires
            j < self.links().len(),
        ensures
            r == self.links()[j as int].body.pipes_stderr(),
    {
        match self {
            Body::Direct(_) => false,
            Body::Filters(net) => match &net.links[j].body {
                LinkBody::Relay { relay, reader: _ } => relay.pipe_stderr,
                LinkBody::Head(_) => false,
            },
        }
    }

    /// The position of the `tee` that stands for stage `stage` and is not over, where the filters
    /// stand for the stages before `end`.
    pub fn tee_of(&self, stage: usize, end: usize) -> (r: Option<usize>)
        ensures
            match r {
                Some(j) => j < self.links().len() && self.links()[j as int].tee
                    && self.links()[j as int].body is Relay && !self.links()[j as int].exited && stage
                    == end - self.links().len() + j,
                None => forall|j: int|
                    0 <= j < self.links().len() && stage == end - self.links().len() + j ==> !((
                    #[trigger] self.links()[j]).tee && self.links()[j].body is Relay
                        && !self.links()[j].exited),
            },
    {
        match self {
            Body::Direct(_) => None,
            Body::Filters(net) => {
                let n: usize = net.links.len();
                if stage >= end || end - stage > n {
                    return None;
                }
                let j: usize = n - (end - stage);
                let relayed: bool = match &net.links[j].body {
                    LinkBody::Relay { relay: _, reader: _ } => true,
                    LinkBody::Head(_) => false,
                };
                if net.links[j].tee && relayed && !net.links[j].exited {
                    Some(j)
                } else {
                    None
                }
            },
        }
    }

    /// Whether no more output arrives and all of it was taken.
    pub fn is_ended(&self) -> (r: bool)
        requires
            self.wf(),
        ensures
            r == (self.silent() && self.output().len() == 0),
            r ==> forall|rest: Seq<u8>| #[trigger] self.future(rest) == Seq::<u8>::empty(),
    {
        match self {
            Body::Direct(p) => {
                proof {
                    if p.write_closed() && p.contents().len() == 0 {
                        assert(p.contents() + Seq::<u8>::empty() =~= Seq::<u8>::empty());
                    }
                }
                p.is_write_closed() && p.len() == 0
            },
            Body::Filters(net) => net.is_ended(),
        }
    }

    /// The pipes, from the one that is written to.
    pub open spec fn pipes(&self) -> Seq<Pipe> {
        match self {
            Body::Direct(p) => seq![*p],
            Body::Filters(net) => net.pipes@,
        }
    }

    /// How many bytes wait in the pipes, without the first one where `skip` says so; at most what
    /// fits.
    pub fn held(&self, skip: bool) -> (r: u64)
        ensures
            r == least(
                waiting(
                    self.pipes(),
                    if skip {
                        1
                    } else {
                        0
                    },
                ) as int,
                u64::MAX as int,
            ),
    {
        let from: usize = if skip {
            1
        } else {
            0
        };
        match self {
            Body::Direct(p) => {
                proof {
                    assert(waiting(self.pipes(), 1) == 0);
                    assert(waiting(self.pipes(), 0) == p.contents().len());
                }
                if skip {
                    0
                } else {
                    p.len() as u64
                }
            },
            Body::Filters(net) => {
                let mut sum: u64 = 0;
                let mut i: usize = net.pipes.len();
                while i > from
                    invariant
                        i <= net.pipes@.len(),
                        net.pipes@ == self.pipes(),
                        sum == least(
                            waiting(
                                self.pipes(),
                                if i < from {
                                    from as int
                                } else {
                                    i as int
                                },
                            ) as int,
                            u64::MAX as int,
                        ),
                    decreases i,
                {
                    i = i - 1;
                    sum = saturating_sum(sum, net.pipes[i].len() as u64);
                }
                sum
            },
        }
    }

    /// Whether all filters are over.
    pub open spec fn over(&self) -> bool {
        match self {
            Body::Direct(_) => true,
            Body::Filters(net) => net.over(),
        }
    }

    /// Whether all filters are over.
    pub fn is_over(&self) -> (r: bool)
        ensures
            r == self.over(),
    {
        match self {
            Body::Direct(_) => true,
            Body::Filters(net) => net.is_over(),
        }
    }

    /// The exit statuses of the filters so far.
    pub open spec fn statuses(&self) -> Seq<i32> {
        match self {
            Body::Direct(_) => Seq::empty(),
            Body::Filters(net) => Seq::new(
                net.links@.len(),
                |i: int| net.links@[i].body.status_now(),
            ),
        }
    }

    /// Adds the exit statuses of the filters so far.
    pub fn add_statuses(&self, statuses: &mut Vec<i32>)
        ensures
            final(statuses)@ == old(statuses)@ + self.statuses(),
    {
        let ghost before = statuses@;
        match self {
            Body::Direct(_) => {
                assert(before + Seq::<i32>::empty() =~= before);
            },
            Body::Filters(net) => {
                let ghost all = self.statuses();
                let mut i: usize = 0;
                assert(before + all.take(0) =~= before);
                while i < net.links.len()
                    invariant
                        i <= net.links@.len(),
                        all.len() == net.links@.len(),
                        all == Seq::new(
                            net.links@.len(),
                            |k: int| net.links@[k].body.status_now(),
                        ),
                        statuses@ == before + all.take(i as int),
                    decreases net.links@.len() - i,
                {
                    statuses.push(net.links[i].status());
                    assert(statuses@ =~= before + all.take(i + 1));
                    i = i + 1;
                }
                assert(all.take(i as int) =~= all);
            },
        }
    }
}

/// How many bytes wait in the pipes from the `i`-th on.
pub open spec fn waiting(pipes: Seq<Pipe>, i: int) -> nat
    decreases pipes.len() - i,
{
    if i < 0 || i >= pipes.len() {
        0
    } else {
        pipes[i].contents().len() + waiting(pipes, i + 1)
    }
}

/// The sum, or the largest number.
pub fn saturating_sum(a: u64, b: u64) -> (r: u64)
    ensures
        r == least(a + b, u64::MAX as int),
{
    if b > u64::MAX - a {
        u64::MAX
    } else {
        a + b
    }
}

} // verus!
