//! The place that a script has reached.
use vstd::prelude::*;

verus! {

/// One complete command of a script: where it starts, and how many lists of pipelines it has.
#[derive(Clone, Copy, Debug, PartialEq, Eq, Structural)]
pub struct CommandSpan {
    pub start: usize,
    pub lists: usize,
}

/// Whether every complete command has something in it.
pub open spec fn spans_ok(items: Seq<CommandSpan>) -> bool {
    forall|i: int| 0 <= i < items.len() ==> (#[trigger] items[i]).lists > 0
}

/// How many lists complete commands have, from one of them on.
pub open spec fn lists_from(items: Seq<CommandSpan>, i: int) -> nat
    decreases items.len() - i,
{
    if i < 0 || i >= items.len() {
        0
    } else {
        items[i].lists as nat + lists_from(items, i + 1)
    }
}

/// A script and the place that was reached in it.
#[derive(Debug)]
pub struct ActiveRun {
    pub input: String,
    pub items: Vec<CommandSpan>,
    pub complete_index: usize,
    pub and_or_index: usize,
}

/// Whether the place is one of the script, or its end.
pub open spec fn run_ok(run: ActiveRun) -> bool {
    &&& spans_ok(run.items@)
    &&& run.complete_index <= run.items@.len()
    &&& run.complete_index < run.items@.len() ==> run.and_or_index < run.items@[
        run.complete_index as int
    ].lists
    &&& run.complete_index == run.items@.len() ==> run.and_or_index == 0
}

/// Whether the end was reached.
pub open spec fn run_done(run: ActiveRun) -> bool {
    run.complete_index >= run.items@.len()
}

/// How many lists are still to run.
pub open spec fn lists_left(run: ActiveRun) -> int {
    lists_from(run.items@, run.complete_index as int) - run.and_or_index
}

/// The script, one list further.
pub open spec fn advanced(run: ActiveRun, next: ActiveRun) -> bool {
    &&& next.input == run.input
    &&& next.items == run.items
    &&& if run.and_or_index + 1 >= run.items@[run.complete_index as int].lists {
        next.complete_index == run.complete_index + 1 && next.and_or_index == 0
    } else {
        next.complete_index == run.complete_index && next.and_or_index == run.and_or_index + 1
    }
}

impl ActiveRun {
    /// A script at its start.
    pub fn new(input: String, items: Vec<CommandSpan>) -> (r: ActiveRun)
        requires
            spans_ok(items@),
        ensures
            run_ok(r),
            r.input == input,
            r.items == items,
            r.complete_index == 0,
            r.and_or_index == 0,
            lists_left(r) == lists_from(items@, 0),
    {
        ActiveRun { input, items, complete_index: 0, and_or_index: 0 }
    }

    /// Whether every complete command has something in it.
    pub fn spans_fit(items: &Vec<CommandSpan>) -> (r: bool)
        ensures
            r == spans_ok(items@),
    {
        let mut i: usize = 0;
        while i < items.len()
            invariant
                i <= items@.len(),
                forall|j: int| 0 <= j < i ==> (#[trigger] items@[j]).lists > 0,
            decreases items@.len() - i,
        {
            if items[i].lists == 0 {
                assert(!(items@[i as int].lists > 0));
                return false;
            }
            i = i + 1;
        }
        true
    }

    /// Whether the end was reached.
    pub fn is_done(&self) -> (r: bool)
        ensures
            r == run_done(*self),
    {
        self.complete_index >= self.items.len()
    }

    /// Goes one list further.
    pub fn advance(&mut self)
        requires
            run_ok(*old(self)),
            !run_done(*old(self)),
        ensures
            run_ok(*final(self)),
            advanced(*old(self), *final(self)),
            lists_left(*final(self)) == lists_left(*old(self)) - 1,
    {
        assert(self.complete_index < self.items.len());
        let lists: usize = self.items[self.complete_index].lists;
        if self.and_or_index + 1 >= lists {
            self.complete_index = self.complete_index + 1;
            self.and_or_index = 0;
        } else {
            self.and_or_index = self.and_or_index + 1;
        }
        assert(lists_from(self.items@, old(self).complete_index as int) == lists
            + lists_from(self.items@, old(self).complete_index + 1));
    }
}

/// A script is at its end exactly when no list is left to run.
pub proof fn law_done_when_none_left(run: ActiveRun)
    requires
        run_ok(run),
    ensures
        lists_left(run) >= 0,
        run_done(run) <==> lists_left(run) == 0,
{
    if !run_done(run) {
        assert(lists_from(run.items@, run.complete_index as int)
            == run.items@[run.complete_index as int].lists + lists_from(
            run.items@,
            run.complete_index + 1,
        ));
    }
}

} // verus!
