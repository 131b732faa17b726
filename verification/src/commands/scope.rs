//! Function calls and the variables that `local` hides.
use crate::commands::resolve::strings_from;
use crate::runtime::flow::{ExecState, SavedLocal};
use crate::runtime::isolated::locals_of;
use crate::runtime::output::{ConsoleView, ExhaustionReason, StopReason};
use crate::runtime::worker::WorkerRuntime;
use crate::state::{
    assign_plain, chain_end, chain_ends, flags_of, same_but_env, same_but_env_and_seed, value_in,
    xorshift, ShellState,
};
use crate::text::{after_char, before_char, split_at_char};
use crate::vars::{env_remove, lookup, EnvView, ValueView, VarView};
use crate::views::{lemma_strs_push, strs};
use vstd::prelude::*;

verus! {

/// The variables after an assignment through references.
pub open spec fn assign_env(env: EnvView, name: Seq<char>, value: Seq<char>) -> EnvView {
    assign_plain(env, chain_end(env, name), value)
}

/// The variables, the seed and what was saved, while `local` goes through its arguments.
pub struct LocalView {
    pub env: EnvView,
    pub seed: u32,
    pub saved: Seq<(Seq<char>, Option<Seq<char>>)>,
}

/// What one argument of `local` does: the value of its name is saved, and the name is given the
/// value after `=`, or an empty one.
pub open spec fn local_one(st: ShellState, v: LocalView, arg: Seq<char>, elapsed: nat) -> LocalView {
    let name = before_char(arg, '=');
    let value = match after_char(arg, '=') {
        Some(x) => x,
        None => Seq::empty(),
    };
    LocalView {
        env: assign_env(v.env, name, value),
        seed: if name == "RANDOM"@ {
            xorshift(v.seed)
        } else {
            v.seed
        },
        saved: v.saved.push((name, value_in(st, v.env, v.seed, name, elapsed))),
    }
}

/// What `local` has done after its first `n` arguments.
pub open spec fn locals_upto(
    st: ShellState,
    saved: Seq<(Seq<char>, Option<Seq<char>>)>,
    args: Seq<Seq<char>>,
    elapsed: nat,
    n: int,
) -> LocalView
    decreases n,
{
    if n <= 0 {
        LocalView { env: st.env@, seed: st.random_seed, saved }
    } else {
        local_one(st, locals_upto(st, saved, args, elapsed, n - 1), args[n - 1], elapsed)
    }
}

/// Whether every name that `local` assigns is one whose references end.
pub open spec fn locals_end(
    st: ShellState,
    saved: Seq<(Seq<char>, Option<Seq<char>>)>,
    args: Seq<Seq<char>>,
    elapsed: nat,
) -> bool {
    forall|n: int|
        0 <= n < args.len() ==> chain_ends(
            (#[trigger] locals_upto(st, saved, args, elapsed, n)).env,
            before_char(args[n], '='),
        )
}

proof fn lemma_locals_push(v: Seq<SavedLocal>, x: SavedLocal)
    ensures
        locals_of(v.push(x)) == locals_of(v).push(
            (
                x.name@,
                match x.value {
                    Some(y) => Some(y@),
                    None => None,
                },
            ),
        ),
{
    assert(locals_of(v.push(x)) =~= locals_of(v).push(
        (
            x.name@,
            match x.value {
                Some(y) => Some(y@),
                None => None,
            },
        ),
    ));
}

/// The values before `local`, saved for the end of the function, and the new ones; `elapsed` is
/// how many seconds the shell runs.
pub fn execute_local(
    state: &mut ShellState,
    saved: &mut Vec<SavedLocal>,
    args: &Vec<String>,
    elapsed: u64,
)
    requires
        locals_end(*old(state), locals_of(old(saved)@), strs(args@), elapsed as nat),
    ensures
        ({
            let end = locals_upto(
                *old(state),
                locals_of(old(saved)@),
                strs(args@),
                elapsed as nat,
                args@.len() as int,
            );
            &&& final(state).env@ == end.env
            &&& final(state).random_seed == end.seed
            &&& locals_of(final(saved)@) == end.saved
        }),
        same_but_env_and_seed(
            *final(state),
            (ShellState { last_status: 0, ..*old(state) }),
        ),
{
    let ghost st = *state;
    let ghost first = locals_of(saved@);
    let ghost all = strs(args@);
    let mut i: usize = 0;
    while i < args.len()
        invariant
            i <= args@.len(),
            all == strs(args@),
            locals_end(st, first, all, elapsed as nat),
            state.env@ == locals_upto(st, first, all, elapsed as nat, i as int).env,
            state.random_seed == locals_upto(st, first, all, elapsed as nat, i as int).seed,
            locals_of(saved@) == locals_upto(st, first, all, elapsed as nat, i as int).saved,
            same_but_env_and_seed(*state, st),
        decreases args@.len() - i,
    {
        let ghost v = locals_upto(st, first, all, elapsed as nat, i as int);
        assert(all[i as int] == args@[i as int]@);
        let (name, value) = split_at_char(args[i].as_str(), '=');
        let before = state.get_var_at(name.as_str(), elapsed);
        let copy = SavedLocal { name: name.clone(), value: before };
        proof {
            lemma_locals_push(saved@, copy);
        }
        saved.push(copy);
        let new = match value {
            Some(x) => x,
            None => String::new(),
        };
        proof {
            if after_char(all[i as int], '=') is None {
                assert(new@ =~= Seq::empty());
            }
            assert(value_in(st, v.env, v.seed, name@, elapsed as nat) == match copy.value {
                Some(x) => Some(x@),
                None => None,
            });
        }
        state.set_var(name, new);
        i = i + 1;
    }
    state.last_status = 0;
}

/// The variables after the last `n` saved values were put back, the last one first.
pub open spec fn put_back(
    env: EnvView,
    saved: Seq<(Seq<char>, Option<Seq<char>>)>,
    n: int,
) -> EnvView
    decreases n,
{
    if n <= 0 {
        env
    } else {
        let before = put_back(env, saved, n - 1);
        let entry = saved[saved.len() - n];
        match entry.1 {
            Some(value) => assign_env(before, entry.0, value),
            None => if flags_of(lookup(before, entry.0)).readonly {
                before
            } else {
                env_remove(before, entry.0)
            },
        }
    }
}

/// Whether every name that is given its value back is one whose references end.
pub open spec fn put_back_ends(
    env: EnvView,
    saved: Seq<(Seq<char>, Option<Seq<char>>)>,
    n: int,
) -> bool {
    forall|k: int|
        0 <= k < n && saved[saved.len() - k - 1].1 is Some ==> chain_ends(
            #[trigger] put_back(env, saved, k),
            saved[saved.len() - k - 1].0,
        )
}

/// Puts back the values that were saved since there were `keep` of them.
pub fn restore_locals(state: &mut ShellState, saved: &mut Vec<SavedLocal>, keep: usize)
    requires
        keep <= old(saved)@.len(),
        put_back_ends(
            old(state).env@,
            locals_of(old(saved)@),
            old(saved)@.len() - keep,
        ),
    ensures
        final(state).env@ == put_back(
            old(state).env@,
            locals_of(old(saved)@),
            old(saved)@.len() - keep,
        ),
        final(saved)@ == old(saved)@.take(keep as int),
        same_but_env(*final(state), *old(state)),
{
    let ghost env0 = state.env@;
    let ghost all = saved@;
    let ghost view = locals_of(all);
    let ghost n = all.len() as int;
    assert(all.take(n) =~= all);
    while saved.len() > keep
        invariant
            keep <= saved@.len() <= n,
            n == all.len(),
            view == locals_of(all),
            saved@ == all.take(saved@.len() as int),
            put_back_ends(env0, view, n - keep),
            state.env@ == put_back(env0, view, n - saved@.len()),
            same_but_env(*state, *old(state)),
        decreases saved@.len(),
    {
        let ghost m = saved@.len() as int;
        match saved.pop() {
            Some(entry) => {
                proof {
                    let k = n - m;
                    assert(all.take(m).last() == all[m - 1]);
                    assert(entry == all[m - 1]);
                    assert(view[n - k - 1] == view[m - 1]);
                    assert(all.take(m).drop_last() =~= all.take(m - 1));
                    assert(view[m - 1].1 is Some ==> chain_ends(
                        put_back(env0, view, k),
                        view[n - k - 1].0,
                    ));
                    assert(put_back(env0, view, k + 1) == {
                        let before = put_back(env0, view, k);
                        let e = view[n - (k + 1)];
                        match e.1 {
                            Some(value) => assign_env(before, e.0, value),
                            None => if flags_of(lookup(before, e.0)).readonly {
                                before
                            } else {
                                env_remove(before, e.0)
                            },
                        }
                    });
                }
                match entry.value {
                    Some(value) => {
                        state.set_var(entry.name, value);
                    },
                    None => {
                        let _ = state.unset_var(entry.name.as_str());
                    },
                }
            },
            None => {},
        }
    }
}

/// What a function call puts back at its end.
#[derive(Debug)]
pub struct CallFrame {
    pub positional: Vec<String>,
    pub locals_before: usize,
}

/// The report on calls that nest too deeply.
pub open spec fn too_deep() -> Seq<char> {
    "wasmsh: maximum recursion depth exceeded\n"@
}

impl WorkerRuntime {
    /// Begins the call of a function, given whether it nests too deeply: its arguments become the
    /// positional parameters. Where it does, the report is returned.
    pub fn enter_function(
        &mut self,
        name: &str,
        argv: &Vec<String>,
        entered: Result<(), ExhaustionReason>,
    ) -> (r: Result<CallFrame, String>)
        requires
            argv@.len() > 0,
            old(self).flow.recursion_depth < u32::MAX,
        ensures
            match entered {
                Ok(()) => {
                    &&& r matches Ok(frame) && frame.positional == old(self).state.positional
                        && frame.locals_before == old(self).flow.local_save_stack@.len()
                    &&& strs(final(self).state.positional@) == strs(argv@).skip(1)
                    &&& strs(final(self).state.func_stack@) == strs(
                        old(self).state.func_stack@,
                    ).push(name@)
                    &&& final(self).state == (ShellState {
                        positional: final(self).state.positional,
                        func_stack: final(self).state.func_stack,
                        ..old(self).state
                    })
                    &&& *final(self) == (WorkerRuntime {
                        state: final(self).state,
                        flow: ExecState {
                            recursion_depth: (old(self).flow.recursion_depth + 1) as u32,
                            ..old(self).flow
                        },
                        ..*old(self)
                    })
                },
                Err(reason) => {
                    &&& r matches Err(s) && s@ == too_deep()
                    &&& final(self).console@ == (ConsoleView {
                        resource_exhausted: true,
                        stop_reason: Some(StopReason::Exhausted(reason)),
                        ..old(self).console@
                    })
                    &&& *final(self) == (WorkerRuntime {
                        console: final(self).console,
                        state: ShellState { last_status: 1, ..old(self).state },
                        ..*old(self)
                    })
                },
            },
    {
        broadcast use lemma_strs_push;
        match entered {
            Ok(()) => {
                self.flow.recursion_depth = self.flow.recursion_depth + 1;
                let mut positional = strings_from(argv, 1);
                std::mem::swap(&mut positional, &mut self.state.positional);
                self.state.func_stack.push(name.to_owned());
                Ok(CallFrame { positional, locals_before: self.flow.local_save_stack.len() })
            },
            Err(reason) => {
                self.console.resource_exhausted = true;
                self.console.stop_reason = Some(StopReason::Exhausted(reason));
                self.state.last_status = 1;
                Err("wasmsh: maximum recursion depth exceeded\n".to_owned())
            },
        }
    }

    /// Ends the call of a function: what `local` hid and the positional parameters come back.
    pub fn leave_function(&mut self, frame: CallFrame)
        requires
            old(self).flow.recursion_depth > 0,
            old(self).state.func_stack@.len() > 0,
            frame.locals_before <= old(self).flow.local_save_stack@.len(),
            put_back_ends(
                old(self).state.env@,
                locals_of(old(self).flow.local_save_stack@),
                old(self).flow.local_save_stack@.len() - frame.locals_before,
            ),
        ensures
            final(self).state.env@ == put_back(
                old(self).state.env@,
                locals_of(old(self).flow.local_save_stack@),
                old(self).flow.local_save_stack@.len() - frame.locals_before,
            ),
            final(self).state.positional == frame.positional,
            final(self).state.func_stack@ == old(self).state.func_stack@.drop_last(),
            final(self).flow.local_save_stack@ == old(self).flow.local_save_stack@.take(
                frame.locals_before as int,
            ),
            final(self).state == (ShellState {
                env: final(self).state.env,
                positional: frame.positional,
                func_stack: final(self).state.func_stack,
                ..old(self).state
            }),
            *final(self) == (WorkerRuntime {
                state: final(self).state,
                flow: ExecState {
                    recursion_depth: (old(self).flow.recursion_depth - 1) as u32,
                    local_save_stack: final(self).flow.local_save_stack,
                    ..old(self).flow
                },
                ..*old(self)
            }),
    {
        restore_locals(&mut self.state, &mut self.flow.local_save_stack, frame.locals_before);
        self.state.func_stack.pop();
        self.state.positional = frame.positional;
        self.flow.recursion_depth = self.flow.recursion_depth - 1;
    }
}

/// A plain variable that `local` hides has its old value again when the function ends, whatever
/// it was given meanwhile.
pub proof fn law_local_is_undone(
    env: EnvView,
    name: Seq<char>,
    old_value: Seq<char>,
    new_value: Seq<char>,
)
    requires
        env.len() > 0,
        lookup(env, name) matches Some(v) && v.value == ValueView::Scalar(old_value) && !v.readonly
            && !v.nameref,
    ensures
        ({
            let inside = assign_env(env, name, new_value);
            let after = put_back(inside, seq![(name, Some(old_value))], 1);
            &&& lookup(inside, name) matches Some(v) && v.value == ValueView::Scalar(new_value)
            &&& lookup(after, name) matches Some(v) && v.value == ValueView::Scalar(old_value)
            &&& forall|other: Seq<char>|
                other != name ==> #[trigger] lookup(after, other) == lookup(env, other)
        }),
{
    let saved = seq![(name, Some(old_value))];
    let inside = assign_env(env, name, new_value);
    lemma_not_a_reference(env, name);
    lemma_assign_scalar(env, name, new_value);
    lemma_not_a_reference(inside, name);
    lemma_assign_scalar(inside, name, old_value);
    reveal_with_fuel(put_back, 2);
    assert(put_back(inside, saved, 1) == assign_env(inside, name, old_value));
}

proof fn lemma_not_a_reference(env: EnvView, name: Seq<char>)
    requires
        lookup(env, name) matches Some(v) ==> !v.nameref,
    ensures
        chain_end(env, name) == name,
        chain_ends(env, name),
{
    assert(crate::state::follow(env, name, 0) == Some(name));
    crate::state::lemma_chain_end(env, name, 0);
}

proof fn lemma_assign_scalar(env: EnvView, name: Seq<char>, value: Seq<char>)
    requires
        env.len() > 0,
        lookup(env, name) matches Some(v) && v.value is Scalar && !v.readonly && !v.nameref,
    ensures
        ({
            let after = assign_plain(env, name, value);
            &&& after.len() == env.len()
            &&& lookup(after, name) matches Some(v) && v.value == ValueView::Scalar(value)
                && !v.readonly && !v.nameref
            &&& forall|other: Seq<char>|
                other != name ==> #[trigger] lookup(after, other) == lookup(env, other)
        }),
{
    let f = flags_of(lookup(env, name));
    crate::vars::law_set_then_lookup(
        env,
        name,
        VarView {
            value: crate::state::assigned(lookup(env, name), value),
            exported: f.exported || (!crate::state::is_internal_name(name)
                && crate::state::allexport_on(env)),
            readonly: false,
            integer: f.integer,
            nameref: f.nameref,
        },
    );
}

} // verus!
