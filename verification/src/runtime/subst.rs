//! The process substitutions of the commands that run.
use crate::runtime::isolated::{proc_subst_path, PendingSubst};
use crate::text::{dec, str_eq};
use vstd::prelude::*;

verus! {

/// A process substitution that a command writes to.
#[derive(Debug)]
pub struct SubstSink {
    pub path: String,
    pub script: String,
    pub pending: PendingSubst,
}

/// The process substitutions, those of each command in a scope of their own.
#[derive(Debug)]
pub struct SubstScopes {
    pub scopes: Vec<Vec<SubstSink>>,
    /// The number of the next one.
    pub next_id: u64,
}

/// The position of the first sink with a path in a scope, or the length.
pub open spec fn sink_index(scope: Seq<SubstSink>, path: Seq<char>) -> int
    decreases scope.len(),
{
    if scope.len() == 0 || scope[0].path@ == path {
        0
    } else {
        1 + sink_index(scope.skip(1), path)
    }
}

proof fn lemma_sink_index(scope: Seq<SubstSink>, path: Seq<char>)
    ensures
        0 <= sink_index(scope, path) <= scope.len(),
        sink_index(scope, path) < scope.len() ==> scope[sink_index(scope, path)].path@ == path,
    decreases scope.len(),
{
    if scope.len() > 0 && scope[0].path@ != path {
        lemma_sink_index(scope.skip(1), path);
    }
}

/// The innermost of the first `n` scopes that has a sink with a path, or `-1`.
pub open spec fn sink_scope(scopes: Seq<Vec<SubstSink>>, path: Seq<char>, n: int) -> int
    decreases n,
{
    if n <= 0 {
        -1
    } else if sink_index(scopes[n - 1]@, path) < scopes[n - 1]@.len() {
        n - 1
    } else {
        sink_scope(scopes, path, n - 1)
    }
}

fn find_in_scope(scope: &Vec<SubstSink>, path: &str) -> (r: Option<usize>)
    ensures
        match r {
            Some(i) => i == sink_index(scope@, path@) && i < scope@.len(),
            None => sink_index(scope@, path@) >= scope@.len(),
        },
{
    let mut i: usize = 0;
    assert(scope@.skip(0) =~= scope@);
    while i < scope.len()
        invariant
            i <= scope@.len(),
            sink_index(scope@, path@) == i + sink_index(scope@.skip(i as int), path@),
        decreases scope@.len() - i,
    {
        if str_eq(scope[i].path.as_str(), path) {
            return Some(i);
        }
        assert(scope@.skip(i as int).skip(1) =~= scope@.skip(i + 1));
        i = i + 1;
    }
    None
}

impl SubstScopes {
    /// No process substitution.
    pub fn new() -> (r: SubstScopes)
        ensures
            r.scopes@.len() == 0,
            r.next_id == 0,
    {
        SubstScopes { scopes: Vec::new(), next_id: 0 }
    }

    /// Opens the scope of a command.
    pub fn push_scope(&mut self)
        ensures
            final(self).scopes@.len() == old(self).scopes@.len() + 1,
            final(self).scopes@.drop_last() == old(self).scopes@,
            final(self).scopes@.last()@.len() == 0,
            final(self).next_id == old(self).next_id,
    {
        self.scopes.push(Vec::new());
        assert(self.scopes@.drop_last() =~= old(self).scopes@);
    }

    /// Closes the scope of a command and hands out its sinks, which are to be flushed in order.
    pub fn pop_scope(&mut self) -> (r: Vec<SubstSink>)
        requires
            old(self).scopes@.len() > 0,
        ensures
            r == old(self).scopes@.last(),
            final(self).scopes@ == old(self).scopes@.drop_last(),
            final(self).next_id == old(self).next_id,
    {
        match self.scopes.pop() {
            Some(scope) => scope,
            None => Vec::new(),
        }
    }

    /// Adds a sink to the innermost scope, which is opened where there is none, and returns the
    /// path that stands for it. A pipeline that runs already takes what is written to it.
    pub fn register(&mut self, script: &str, live: Option<usize>) -> (r: String)
        requires
            old(self).next_id < u64::MAX,
        ensures
            r@ == "/tmp/_proc_subst_"@ + dec(old(self).next_id as nat),
            final(self).next_id == old(self).next_id + 1,
            final(self).scopes@.len() == (if old(self).scopes@.len() == 0 {
                1
            } else {
                old(self).scopes@.len()
            }),
            forall|i: int|
                0 <= i < old(self).scopes@.len() - 1 ==> final(self).scopes@[i] == old(
                    self,
                ).scopes@[i],
            ({
                let scope = final(self).scopes@.last()@;
                let before = if old(self).scopes@.len() == 0 {
                    Seq::empty()
                } else {
                    old(self).scopes@.last()@
                };
                &&& scope.len() == before.len() + 1
                &&& scope.drop_last() == before
                &&& scope.last().path@ == r@
                &&& scope.last().script@ == script@
                &&& match live {
                    Some(n) => scope.last().pending == PendingSubst::Live(n),
                    None => scope.last().pending matches PendingSubst::Buffered(d) && d@.len()
                        == 0,
                }
            }),
    {
        if self.scopes.len() == 0 {
            self.scopes.push(Vec::new());
        }
        let path = proc_subst_path(self.next_id);
        self.next_id = self.next_id + 1;
        let pending = match live {
            Some(n) => PendingSubst::Live(n),
            None => PendingSubst::Buffered(Vec::new()),
        };
        let sink = SubstSink { path: path.clone(), script: script.to_owned(), pending };
        let last: usize = self.scopes.len() - 1;
        let ghost before = self.scopes@[last as int]@;
        self.scopes[last].push(sink);
        proof {
            assert(self.scopes@[last as int]@.drop_last() =~= before);
            if old(self).scopes@.len() == 0 {
                assert(before =~= Seq::empty());
            }
        }
        path
    }

    /// Takes data that was written to a path: it is kept for the sink of the innermost scope that
    /// has it. Returns the pipeline that it is to be fed to instead, if any.
    pub fn write(&mut self, path: &str, data: &[u8]) -> (r: Option<usize>)
        ensures
            ({
                let scopes = old(self).scopes@;
                let s = sink_scope(scopes, path@, scopes.len() as int);
                &&& final(self).next_id == old(self).next_id
                &&& final(self).scopes@.len() == scopes.len()
                &&& if s < 0 {
                    r is None && final(self).scopes@ == scopes
                } else {
                    let k = sink_index(scopes[s]@, path@);
                    let before = scopes[s]@[k];
                    let after = final(self).scopes@[s]@;
                    &&& forall|i: int|
                        0 <= i < scopes.len() && i != s ==> final(self).scopes@[i] == scopes[i]
                    &&& after.len() == scopes[s]@.len()
                    &&& forall|i: int|
                        0 <= i < after.len() && i != k ==> after[i] == scopes[s]@[i]
                    &&& after[k].path == before.path && after[k].script == before.script
                    &&& match before.pending {
                        PendingSubst::Live(n) => r == Some(n) && after[k].pending
                            == before.pending,
                        PendingSubst::Buffered(b) => r is None && (after[k].pending matches
                            PendingSubst::Buffered(d) && d@ == b@ + data@),
                    }
                }
            }),
    {
        let ghost scopes = self.scopes@;
        let mut n: usize = self.scopes.len();
        while n > 0
            invariant
                n <= scopes.len(),
                *self == *old(self),
                scopes == self.scopes@,
                sink_scope(scopes, path@, scopes.len() as int) == sink_scope(
                    scopes,
                    path@,
                    n as int,
                ),
            decreases n,
        {
            match find_in_scope(&self.scopes[n - 1], path) {
                Some(k) => {
                    let r = self.scopes[n - 1][k].pending.write(data);
                    return r;
                },
                None => {},
            }
            n = n - 1;
        }
        None
    }
}

/// What is written to the path that a substitution was registered under reaches that one.
pub proof fn law_written_data_reaches_its_sink(scopes: Seq<Vec<SubstSink>>, path: Seq<char>)
    requires
        scopes.len() > 0,
        scopes.last()@.len() > 0,
        scopes.last()@.last().path@ == path,
        forall|i: int|
            0 <= i < scopes.last()@.len() - 1 ==> (#[trigger] scopes.last()@[i]).path@ != path,
    ensures
        sink_scope(scopes, path, scopes.len() as int) == scopes.len() - 1,
        sink_index(scopes.last()@, path) == scopes.last()@.len() - 1,
{
    lemma_last_sink(scopes.last()@, path);
}

proof fn lemma_last_sink(scope: Seq<SubstSink>, path: Seq<char>)
    requires
        scope.len() > 0,
        scope.last().path@ == path,
        forall|i: int| 0 <= i < scope.len() - 1 ==> (#[trigger] scope[i]).path@ != path,
    ensures
        sink_index(scope, path) == scope.len() - 1,
    decreases scope.len(),
{
    lemma_sink_index(scope, path);
    if scope.len() > 1 {
        assert(scope[0].path@ != path);
        let rest = scope.skip(1);
        assert(rest.last() == scope.last());
        assert forall|i: int| 0 <= i < rest.len() - 1 implies (#[trigger] rest[i]).path@
            != path by {
            assert(rest[i] == scope[i + 1]);
        }
        lemma_last_sink(rest, path);
    }
}

} // verus!
