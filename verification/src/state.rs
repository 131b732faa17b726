//! The shell state: variables, positional parameters, status, working directory.
use crate::entries::{has_key, keys_of, put, value_of, values_of};
use crate::order::{in_strict_order, insert_unique};
use crate::text::{
    dec, dec_int, i64_to_dec, join, joined, parse_unsigned, parse_usize, starts_with, str_eq,
    str_starts_with, u64_to_dec,
};
use crate::vars::{
    assoc_at, assoc_entries, assoc_get, assoc_insert, assoc_len, assoc_new, assoc_remove,
    assoc_values, env_remove, env_set, env_update, indexed_at, indexed_clone, indexed_entries,
    indexed_get, indexed_insert, indexed_len, indexed_new, indexed_remove, indexed_values,
    lemma_scope_of, lookup, scope_at, scope_entries, scope_len, EnvView, ShellEnv, ShellVar,
    ValueView, VarValue, VarView,
};
use crate::views::{lemma_strs_push, strs};
use indexmap::IndexMap;
use vstd::prelude::*;

verus! {

/// A moment of the monotonic clock.
#[verifier::external_type_specification]
#[verifier::external_body]
pub struct ExInstant(std::time::Instant);

/// `Instant::now` reads the clock; nothing is known of the moment.
#[verifier::external_body]
fn clock_now() -> (r: std::time::Instant) {
    std::time::Instant::now()
}

/// `Instant::elapsed` reads the clock; nothing is known of the number of seconds.
#[verifier::external_body]
fn seconds_since(start: &std::time::Instant) -> (r: u64) {
    start.elapsed().as_secs()
}

/// The complete state of a shell.
#[derive(Debug)]
pub struct ShellState {
    /// Variable scopes.
    pub env: ShellEnv,
    /// Positional parameters (`$1`, `$2`, ...).
    pub positional: Vec<String>,
    /// Last exit status (`$?`).
    pub last_status: i32,
    /// Current working directory (`$PWD`).
    pub cwd: String,
    /// Current line number (`$LINENO`).
    pub lineno: u32,
    /// Seed of the generator behind `$RANDOM`.
    pub random_seed: u32,
    /// When the shell started (`$SECONDS`).
    pub start_time: std::time::Instant,
    /// Function call stack (`$FUNCNAME`).
    pub func_stack: Vec<String>,
    /// Source file stack (`$BASH_SOURCE`).
    pub source_stack: Vec<String>,
}

/// Whether two states differ in nothing but their variables.
pub open spec fn same_but_env(a: ShellState, b: ShellState) -> bool {
    &&& a.random_seed == b.random_seed
    &&& same_but_env_and_seed(a, b)
}

/// Whether two states differ in nothing but their variables and the seed.
pub open spec fn same_but_env_and_seed(a: ShellState, b: ShellState) -> bool {
    &&& a.positional == b.positional
    &&& a.last_status == b.last_status
    &&& a.cwd == b.cwd
    &&& a.lineno == b.lineno
    &&& a.start_time == b.start_time
    &&& a.func_stack == b.func_stack
    &&& a.source_stack == b.source_stack
}

/// The generator's step.
pub open spec fn xorshift(x: u32) -> u32 {
    let a = x ^ (x << 13u32);
    let b = a ^ (a >> 17u32);
    b ^ (b << 5u32)
}

/// The generator never reaches zero, where it would stay, from a seed that is not zero.
pub proof fn law_seed_stays_nonzero(x: u32)
    requires
        x != 0,
    ensures
        xorshift(x) != 0,
{
    let a = x ^ (x << 13u32);
    let b = a ^ (a >> 17u32);
    assert(x != 0 ==> (x ^ (x << 13u32)) != 0) by (bit_vector);
    assert(a != 0 ==> (a ^ (a >> 17u32)) != 0) by (bit_vector);
    assert(b != 0 ==> (b ^ (b << 5u32)) != 0) by (bit_vector);
}

/// The last string of a stack, or the empty string.
pub open spec fn top_or_empty(s: Seq<String>) -> Seq<char> {
    if s.len() > 0 {
        s.last()@
    } else {
        Seq::empty()
    }
}

/// The variable that `name` refers to by name, where it is a reference that leads elsewhere.
pub open spec fn nameref_of(env: EnvView, name: Seq<char>) -> Option<Seq<char>> {
    match lookup(env, name) {
        Some(v) => if v.nameref && v.value.scalar().len() > 0 && v.value.scalar() != name {
            Some(v.value.scalar())
        } else {
            None
        },
        None => None,
    }
}

/// Where a chain of at most `fuel` references from `name` ends.
pub open spec fn follow(env: EnvView, name: Seq<char>, fuel: nat) -> Option<Seq<char>>
    decreases fuel,
{
    match nameref_of(env, name) {
        None => Some(name),
        Some(t) => if fuel == 0 {
            None
        } else {
            follow(env, t, (fuel - 1) as nat)
        },
    }
}

/// Whether the chain of references from `name` ends.
pub open spec fn chain_ends(env: EnvView, name: Seq<char>) -> bool {
    exists|fuel: nat| #[trigger] follow(env, name, fuel) is Some
}

/// Where the chain of references from `name` ends.
pub open spec fn chain_end(env: EnvView, name: Seq<char>) -> Seq<char> {
    let fuel = choose|fuel: nat| #[trigger] follow(env, name, fuel) is Some;
    follow(env, name, fuel)->0
}

proof fn lemma_follow_agree(env: EnvView, name: Seq<char>, a: nat, b: nat)
    requires
        follow(env, name, a) is Some,
        follow(env, name, b) is Some,
    ensures
        follow(env, name, a) == follow(env, name, b),
    decreases a,
{
    if nameref_of(env, name) is Some {
        lemma_follow_agree(env, nameref_of(env, name)->0, (a - 1) as nat, (b - 1) as nat);
    }
}

/// The end of a chain is no reference that leads elsewhere.
pub(crate) proof fn lemma_chain_end(env: EnvView, name: Seq<char>, fuel: nat)
    requires
        follow(env, name, fuel) is Some,
    ensures
        chain_end(env, name) == follow(env, name, fuel)->0,
{
    let f = choose|f: nat| #[trigger] follow(env, name, f) is Some;
    lemma_follow_agree(env, name, f, fuel);
}

/// The value that a name has when it is no special parameter: that of a positional parameter
/// for a number from one on, else that of the variable, through one reference.
pub open spec fn named_value(
    env: EnvView,
    positional: Seq<Seq<char>>,
    name: Seq<char>,
) -> Option<Seq<char>> {
    let number = parse_unsigned(name, usize::MAX as nat);
    if number is Some && number->0 >= 1 {
        if number->0 <= positional.len() {
            Some(positional[number->0 - 1])
        } else {
            None
        }
    } else {
        match nameref_of(env, name) {
            Some(t) => match lookup(env, t) {
                Some(v) => Some(v.value.scalar()),
                None => None,
            },
            None => match lookup(env, name) {
                Some(v) => Some(v.value.scalar()),
                None => None,
            },
        }
    }
}

/// The value of a special parameter or a variable of `st`, `elapsed` seconds after its start,
/// when its variables are `env` and its seed is `seed`.
pub open spec fn value_in(
    st: ShellState,
    env: EnvView,
    seed: u32,
    name: Seq<char>,
    elapsed: nat,
) -> Option<Seq<char>> {
    if name == "?"@ {
        Some(dec_int(st.last_status as int))
    } else if name == "#"@ {
        Some(dec(st.positional@.len()))
    } else if name == "0"@ {
        Some("wasmsh"@)
    } else if name == "@"@ || name == "*"@ {
        Some(joined(strs(st.positional@), " "@))
    } else if name == "RANDOM"@ {
        Some(dec((xorshift(seed) % 32768) as nat))
    } else if name == "LINENO"@ {
        Some(dec(st.lineno as nat))
    } else if name == "SECONDS"@ {
        Some(dec(elapsed))
    } else if name == "FUNCNAME"@ {
        Some(top_or_empty(st.func_stack@))
    } else if name == "BASH_SOURCE"@ {
        Some(top_or_empty(st.source_stack@))
    } else {
        named_value(env, strs(st.positional@), name)
    }
}

/// The value of a special parameter or a variable of `st`, `elapsed` seconds after its start.
pub open spec fn var_value(st: ShellState, name: Seq<char>, elapsed: nat) -> Option<Seq<char>> {
    value_in(st, st.env@, st.random_seed, name, elapsed)
}

/// Whether every variable that is set becomes exported (`set -a`).
pub open spec fn allexport_on(env: EnvView) -> bool {
    match lookup(env, "SHOPT_a"@) {
        Some(v) => v.value == ValueView::Scalar("1"@),
        None => false,
    }
}

/// Whether a variable of this name is left alone by `set -a`.
pub open spec fn is_internal_name(name: Seq<char>) -> bool {
    starts_with(name, "SHOPT_"@) || starts_with(name, "_"@)
}

/// The value that a scalar assignment leaves: element zero of an indexed array, else the
/// scalar itself.
pub open spec fn assigned(old_value: Option<VarView>, value: Seq<char>) -> ValueView {
    match old_value {
        Some(v) => match v.value {
            ValueView::Indexed(e) => ValueView::Indexed(put(e, 0usize, value)),
            _ => ValueView::Scalar(value),
        },
        None => ValueView::Scalar(value),
    }
}

/// The flags of a variable, all off where there is none.
pub open spec fn flags_of(v: Option<VarView>) -> VarView {
    match v {
        Some(x) => x,
        None => crate::vars::plain_var(ValueView::Scalar(Seq::empty())),
    }
}

/// The variables after an assignment to a name that is no reference: none where the variable
/// is readonly, else the value in the innermost scope with the variable's flags.
pub open spec fn assign_plain(env: EnvView, name: Seq<char>, value: Seq<char>) -> EnvView {
    let v = lookup(env, name);
    let f = flags_of(v);
    if f.readonly {
        env
    } else {
        env_set(
            env,
            name,
            VarView {
                value: assigned(v, value),
                exported: f.exported || (!is_internal_name(name) && allexport_on(env)),
                readonly: false,
                integer: f.integer,
                nameref: f.nameref,
            },
        )
    }
}

/// The message for a readonly variable.
pub open spec fn readonly_message(name: Seq<char>) -> Seq<char> {
    name + ": readonly variable"@
}

/// The element of an array value; a scalar is its own element zero.
pub open spec fn element_of(v: ValueView, index: Seq<char>) -> Option<Seq<char>> {
    match v {
        ValueView::Scalar(s) => if index == "0"@ {
            Some(s)
        } else {
            None
        },
        ValueView::Indexed(e) => match parse_unsigned(index, usize::MAX as nat) {
            Some(n) => value_of(e, n as usize),
            None => None,
        },
        ValueView::Assoc(e) => value_of(e, index),
    }
}

/// The pairs after the element `index` was given a value, where `index` is a number.
pub open spec fn with_indexed(
    e: Seq<(usize, Seq<char>)>,
    index: Seq<char>,
    value: Seq<char>,
) -> Seq<(usize, Seq<char>)> {
    match parse_unsigned(index, usize::MAX as nat) {
        Some(n) => put(e, n as usize, value),
        None => e,
    }
}

/// The array value after one element was set; a scalar gives way to an indexed array.
pub open spec fn with_element(v: ValueView, index: Seq<char>, value: Seq<char>) -> ValueView {
    match v {
        ValueView::Scalar(_) => ValueView::Indexed(with_indexed(Seq::empty(), index, value)),
        ValueView::Indexed(e) => ValueView::Indexed(with_indexed(e, index, value)),
        ValueView::Assoc(e) => ValueView::Assoc(put(e, index, value)),
    }
}

/// The array value after one element was removed; a scalar's element zero leaves it empty.
pub open spec fn without_element(v: ValueView, index: Seq<char>) -> ValueView {
    match v {
        ValueView::Scalar(s) => if index == "0"@ {
            ValueView::Scalar(Seq::empty())
        } else {
            v
        },
        ValueView::Indexed(e) => match parse_unsigned(index, usize::MAX as nat) {
            Some(n) => ValueView::Indexed(crate::entries::drop_key(e, n as usize)),
            None => v,
        },
        ValueView::Assoc(e) => ValueView::Assoc(crate::entries::drop_key(e, index)),
    }
}

/// The variable `v` with another value.
pub open spec fn with_value(v: VarView, value: ValueView) -> VarView {
    VarView { value, ..v }
}

/// One more than the greatest index, or zero.
pub open spec fn next_index(e: Seq<(usize, Seq<char>)>) -> int
    decreases e.len(),
{
    if e.len() == 0 {
        0
    } else {
        let m = next_index(e.drop_last());
        if e.last().0 + 1 > m {
            e.last().0 + 1
        } else {
            m
        }
    }
}

/// The pairs after the first `n` values were added at `next`, `next + 1`, ...
pub open spec fn appended(
    e: Seq<(usize, Seq<char>)>,
    next: int,
    values: Seq<Seq<char>>,
    n: int,
) -> Seq<(usize, Seq<char>)>
    decreases n,
{
    if n <= 0 {
        e
    } else {
        put(appended(e, next, values, n - 1), (next + n - 1) as usize, values[n - 1])
    }
}

/// The pairs that appending starts from: those of an indexed array, or a scalar that is not
/// empty as element zero.
pub open spec fn append_base(v: Option<VarView>) -> Seq<(usize, Seq<char>)> {
    match v {
        Some(x) => match x.value {
            ValueView::Indexed(e) => e,
            ValueView::Scalar(s) => if s.len() == 0 {
                Seq::empty()
            } else {
                seq![(0usize, s)]
            },
            ValueView::Assoc(_) => Seq::empty(),
        },
        None => Seq::empty(),
    }
}

/// The variables after values were appended to the array `name`. A readonly variable and an
/// associative array stay as they are.
pub open spec fn appended_env(env: EnvView, name: Seq<char>, values: Seq<Seq<char>>) -> EnvView {
    let v = lookup(env, name);
    let base = append_base(v);
    let e = appended(base, next_index(base), values, values.len() as int);
    match v {
        Some(x) => if x.readonly || x.value is Assoc {
            env
        } else {
            env_update(env, name, with_value(x, ValueView::Indexed(e)))
        },
        None => env_set(env, name, crate::vars::plain_var(ValueView::Indexed(e))),
    }
}

/// The variables after one element of the array `name` was set.
pub open spec fn element_set_env(
    env: EnvView,
    name: Seq<char>,
    index: Seq<char>,
    value: Seq<char>,
) -> EnvView {
    match lookup(env, name) {
        Some(x) => if x.readonly {
            env
        } else {
            env_update(env, name, with_value(x, with_element(x.value, index, value)))
        },
        None => env_set(
            env,
            name,
            crate::vars::plain_var(ValueView::Indexed(with_indexed(Seq::empty(), index, value))),
        ),
    }
}

/// The variables after one element of the array `name` was removed.
pub open spec fn element_unset_env(env: EnvView, name: Seq<char>, index: Seq<char>) -> EnvView {
    match lookup(env, name) {
        Some(x) => if x.readonly {
            env
        } else {
            env_update(env, name, with_value(x, without_element(x.value, index)))
        },
        None => env,
    }
}

/// The variables after `name` became an empty array, unless it is readonly.
pub open spec fn init_array_env(env: EnvView, name: Seq<char>, empty: ValueView) -> EnvView {
    let f = flags_of(lookup(env, name));
    if f.readonly {
        env
    } else {
        env_set(
            env,
            name,
            VarView {
                value: empty,
                exported: f.exported,
                readonly: false,
                integer: false,
                nameref: false,
            },
        )
    }
}

/// The keys of an array value as strings; a scalar that is not empty has the key zero.
pub open spec fn value_keys(v: ValueView) -> Seq<Seq<char>> {
    match v {
        ValueView::Scalar(s) => if s.len() == 0 {
            Seq::empty()
        } else {
            seq!["0"@]
        },
        ValueView::Indexed(e) => keys_of(e).map_values(|k: usize| dec(k as nat)),
        ValueView::Assoc(e) => keys_of(e),
    }
}

/// The values of an array value; a scalar that is not empty is its only value.
pub open spec fn value_values(v: ValueView) -> Seq<Seq<char>> {
    match v {
        ValueView::Scalar(s) => if s.len() == 0 {
            Seq::empty()
        } else {
            seq![s]
        },
        ValueView::Indexed(e) => values_of(e),
        ValueView::Assoc(e) => values_of(e),
    }
}

/// Whether some scope has the name.
pub open spec fn is_set(env: EnvView, name: Seq<char>) -> bool {
    exists|i: int| 0 <= i < env.len() && has_key(#[trigger] env[i], name)
}

/// The largest index that appending `n` values to an array gives is a `usize`.
pub open spec fn append_fits(v: Option<VarView>, n: nat) -> bool {
    next_index(append_base(v)) <= usize::MAX && next_index(append_base(v)) + n <= usize::MAX + 1
}

/// A readonly variable is changed by no assignment, no append, no change of an element and no
/// fresh array.
pub proof fn law_readonly_is_kept(
    env: EnvView,
    name: Seq<char>,
    index: Seq<char>,
    value: Seq<char>,
    values: Seq<Seq<char>>,
    empty: ValueView,
)
    requires
        lookup(env, name) is Some,
        lookup(env, name)->0.readonly,
    ensures
        assign_plain(env, name, value) == env,
        element_set_env(env, name, index, value) == env,
        element_unset_env(env, name, index) == env,
        appended_env(env, name, values) == env,
        init_array_env(env, name, empty) == env,
{
}

/// An assigned variable reads back as the value it was given, unless an indexed array took the
/// value as its element zero.
pub proof fn law_assign_then_read(env: EnvView, name: Seq<char>, value: Seq<char>)
    requires
        env.len() > 0,
        !flags_of(lookup(env, name)).readonly,
        lookup(env, name) matches Some(v) ==> !(v.value is Indexed),
    ensures
        lookup(assign_plain(env, name, value), name) is Some,
        lookup(assign_plain(env, name, value), name)->0.value.scalar() == value,
{
    let f = flags_of(lookup(env, name));
    crate::vars::law_set_then_lookup(
        env,
        name,
        VarView {
            value: assigned(lookup(env, name), value),
            exported: f.exported || (!is_internal_name(name) && allexport_on(env)),
            readonly: false,
            integer: f.integer,
            nameref: f.nameref,
        },
    );
}

/// An indexed array that is assigned a scalar has it as its element zero.
pub proof fn law_assign_to_array(
    env: EnvView,
    name: Seq<char>,
    value: Seq<char>,
    e: Seq<(usize, Seq<char>)>,
)
    requires
        env.len() > 0,
        !flags_of(lookup(env, name)).readonly,
        lookup(env, name) matches Some(v) && v.value == ValueView::Indexed(e),
    ensures
        lookup(assign_plain(env, name, value), name) is Some,
        lookup(assign_plain(env, name, value), name)->0.value == ValueView::Indexed(
            put(e, 0usize, value),
        ),
        value_of(put(e, 0usize, value), 0usize) == Some(value),
{
    let f = flags_of(lookup(env, name));
    crate::vars::law_set_then_lookup(
        env,
        name,
        VarView {
            value: assigned(lookup(env, name), value),
            exported: f.exported || (!is_internal_name(name) && allexport_on(env)),
            readonly: false,
            integer: f.integer,
            nameref: f.nameref,
        },
    );
    crate::entries::lemma_put(e, 0usize, value);
}

pub(crate) proof fn lemma_update_lookup(env: EnvView, name: Seq<char>, v: VarView)
    requires
        lookup(env, name) is Some,
    ensures
        env_update(env, name, v).len() == env.len(),
        lookup(env_update(env, name, v), name) == Some(v),
{
    lemma_scope_of(env, name);
    let i = crate::vars::scope_of(env, name);
    let after = env_update(env, name, v);
    crate::entries::lemma_put(env[i], name, v);
    crate::vars::lemma_scope_of_is(after, name, i);
}

/// An element that was set reads back, whatever the variable held before.
pub proof fn law_element_set_then_get(
    env: EnvView,
    name: Seq<char>,
    index: Seq<char>,
    value: Seq<char>,
)
    requires
        env.len() > 0,
        !flags_of(lookup(env, name)).readonly,
        parse_unsigned(index, usize::MAX as nat) is Some,
    ensures
        lookup(element_set_env(env, name, index, value), name) is Some,
        element_of(lookup(element_set_env(env, name, index, value), name)->0.value, index) == Some(
            value,
        ),
{
    let n = parse_unsigned(index, usize::MAX as nat)->0 as usize;
    match lookup(env, name) {
        Some(x) => {
            lemma_update_lookup(
                env,
                name,
                with_value(x, with_element(x.value, index, value)),
            );
            match x.value {
                ValueView::Scalar(_) => {
                    crate::entries::lemma_put(Seq::<(usize, Seq<char>)>::empty(), n, value);
                },
                ValueView::Indexed(e) => {
                    crate::entries::lemma_put(e, n, value);
                },
                ValueView::Assoc(e) => {
                    crate::entries::lemma_put(e, index, value);
                },
            }
        },
        None => {
            crate::vars::law_set_then_lookup(
                env,
                name,
                crate::vars::plain_var(
                    ValueView::Indexed(with_indexed(Seq::empty(), index, value)),
                ),
            );
            crate::entries::lemma_put(Seq::<(usize, Seq<char>)>::empty(), n, value);
        },
    }
}

/// Whether two states hold the same.
pub open spec fn same_state(a: ShellState, b: ShellState) -> bool {
    &&& a.env@ == b.env@
    &&& strs(a.positional@) == strs(b.positional@)
    &&& a.last_status == b.last_status
    &&& a.cwd@ == b.cwd@
    &&& a.lineno == b.lineno
    &&& a.random_seed == b.random_seed
    &&& a.start_time == b.start_time
    &&& strs(a.func_stack@) == strs(b.func_stack@)
    &&& strs(a.source_stack@) == strs(b.source_stack@)
}

impl Clone for ShellState {
    fn clone(&self) -> (r: ShellState)
        ensures
            same_state(r, *self),
    {
        ShellState {
            env: self.env.clone(),
            positional: crate::text::clone_strings(&self.positional),
            last_status: self.last_status,
            cwd: self.cwd.clone(),
            lineno: self.lineno,
            random_seed: self.random_seed,
            start_time: self.start_time,
            func_stack: crate::text::clone_strings(&self.func_stack),
            source_stack: crate::text::clone_strings(&self.source_stack),
        }
    }
}

impl ShellState {
    /// The state of a fresh shell.
    pub fn new() -> (r: ShellState)
        ensures
            r.env@ == seq![Seq::<(Seq<char>, VarView)>::empty()],
            r.positional@.len() == 0,
            r.last_status == 0,
            r.cwd@ == "/"@,
            r.lineno == 0,
            r.random_seed == 12345,
            r.func_stack@.len() == 0,
            r.source_stack@.len() == 0,
    {
        ShellState {
            env: ShellEnv::new(),
            positional: Vec::new(),
            last_status: 0,
            cwd: "/".to_owned(),
            lineno: 0,
            random_seed: 12345,
            start_time: clock_now(),
            func_stack: Vec::new(),
            source_stack: Vec::new(),
        }
    }

    /// Advances the generator and returns a number below 32768.
    fn next_random(&mut self) -> (r: u32)
        ensures
            r == xorshift(old(self).random_seed) % 32768,
            final(self).random_seed == xorshift(old(self).random_seed),
            final(self).env == old(self).env,
            same_but_env_and_seed(*final(self), *old(self)),
    {
        let x: u32 = self.random_seed;
        let a: u32 = x ^ (x << 13u32);
        let b: u32 = a ^ (a >> 17u32);
        let c: u32 = b ^ (b << 5u32);
        self.random_seed = c;
        c % 32768
    }

    /// The value of a special parameter or a variable. Reading `RANDOM` advances its
    /// generator; nothing else is changed. `SECONDS` is some number of seconds.
    pub fn get_var(&mut self, name: &str) -> (r: Option<String>)
        ensures
            exists|elapsed: u64|
                #![trigger var_value(*old(self), name@, elapsed as nat)]
                match r {
                    Some(v) => var_value(*old(self), name@, elapsed as nat) == Some(v@),
                    None => var_value(*old(self), name@, elapsed as nat) is None,
                },
            final(self).env == old(self).env,
            same_but_env_and_seed(*final(self), *old(self)),
            final(self).random_seed == if name@ == "RANDOM"@ {
                xorshift(old(self).random_seed)
            } else {
                old(self).random_seed
            },
    {
        let elapsed: u64 = seconds_since(&self.start_time);
        self.get_var_at(name, elapsed)
    }

    /// The value of a special parameter or a variable, `elapsed` seconds after the start.
    pub fn get_var_at(&mut self, name: &str, elapsed: u64) -> (r: Option<String>)
        ensures
            match r {
                Some(v) => var_value(*old(self), name@, elapsed as nat) == Some(v@),
                None => var_value(*old(self), name@, elapsed as nat) is None,
            },
            final(self).env == old(self).env,
            same_but_env_and_seed(*final(self), *old(self)),
            final(self).random_seed == if name@ == "RANDOM"@ {
                xorshift(old(self).random_seed)
            } else {
                old(self).random_seed
            },
    {
        proof {
            reveal_strlit("?");
            reveal_strlit("#");
            reveal_strlit("0");
            reveal_strlit("@");
            reveal_strlit("*");
            reveal_strlit("RANDOM");
            assert("RANDOM"@.len() == 6);
        }
        if str_eq(name, "?") {
            Some(i64_to_dec(self.last_status as i64))
        } else if str_eq(name, "#") {
            Some(u64_to_dec(self.positional.len() as u64))
        } else if str_eq(name, "0") {
            Some("wasmsh".to_owned())
        } else if str_eq(name, "@") || str_eq(name, "*") {
            Some(join(&self.positional, " "))
        } else if str_eq(name, "RANDOM") {
            let n: u32 = self.next_random();
            Some(u64_to_dec(n as u64))
        } else if str_eq(name, "LINENO") {
            Some(u64_to_dec(self.lineno as u64))
        } else if str_eq(name, "SECONDS") {
            Some(u64_to_dec(elapsed))
        } else if str_eq(name, "FUNCNAME") {
            Some(last_or_empty(&self.func_stack))
        } else if str_eq(name, "BASH_SOURCE") {
            Some(last_or_empty(&self.source_stack))
        } else {
            self.get_named(name)
        }
    }

    /// The value of a positional parameter or a variable.
    pub(crate) fn get_named(&self, name: &str) -> (r: Option<String>)
        ensures
            match r {
                Some(v) => named_value(self.env@, strs(self.positional@), name@) == Some(v@),
                None => named_value(self.env@, strs(self.positional@), name@) is None,
            },
    {
        if let Some(n) = parse_usize(name) {
            if n >= 1 {
                if n <= self.positional.len() {
                    assert(strs(self.positional@)[n - 1] == self.positional@[n - 1]@);
                    return Some(self.positional[n - 1].clone());
                }
                return None;
            }
        }
        match self.env.get(name) {
            Some(var) => {
                if var.nameref {
                    let target = var.value.as_scalar();
                    if !target.as_str().is_empty() && !str_eq(target.as_str(), name) {
                        return match self.env.get(target.as_str()) {
                            Some(v) => Some(v.value.as_scalar()),
                            None => None,
                        };
                    }
                }
                Some(var.value.as_scalar())
            },
            None => None,
        }
    }

    /// The variable at the end of the chain of references from `name`.
    fn resolve_nameref(&self, name: String) -> (r: String)
        requires
            chain_ends(self.env@, name@),
        ensures
            r@ == chain_end(self.env@, name@),
    {
        let ghost env = self.env@;
        let ghost first = name@;
        let ghost mut fuel = choose|fuel: nat| #[trigger] follow(env, first, fuel) is Some;
        let ghost end = follow(env, first, fuel);
        let mut current = name;
        loop
            invariant
                env == self.env@,
                follow(env, current@, fuel) == end,
                end is Some,
                end->0 == chain_end(env, first),
            ensures
                current@ == chain_end(env, first),
            decreases fuel,
        {
            let mut next: Option<String> = None;
            if let Some(var) = self.env.get(current.as_str()) {
                if var.nameref {
                    let target = var.value.as_scalar();
                    if !target.as_str().is_empty() && !str_eq(target.as_str(), current.as_str()) {
                        next = Some(target);
                    }
                }
            }
            match next {
                Some(target) => {
                    proof {
                        fuel = (fuel - 1) as nat;
                    }
                    current = target;
                },
                None => {
                    break;
                },
            }
        }
        current
    }

    /// Whether the chain of references from a name ends within so many steps. A chain that never
    /// ends cannot be assigned through.
    pub fn references_end(&self, name: &str, steps: usize) -> (r: bool)
        ensures
            r == (follow(self.env@, name@, steps as nat) is Some),
            r ==> chain_ends(self.env@, name@),
        decreases steps,
    {
        let mut next: Option<String> = None;
        if let Some(var) = self.env.get(name) {
            if var.nameref {
                let target = var.value.as_scalar();
                if !target.as_str().is_empty() && !str_eq(target.as_str(), name) {
                    next = Some(target);
                }
            }
        }
        match next {
            Some(target) => if steps == 0 {
                false
            } else {
                self.references_end(target.as_str(), steps - 1)
            },
            None => true,
        }
    }

    /// Sets a variable through its references. A readonly variable is left as it is; the
    /// variable's flags are kept, and an indexed array takes the value as its element zero.
    pub fn set_var(&mut self, name: String, value: String)
        requires
            chain_ends(old(self).env@, name@),
        ensures
            final(self).env@ == assign_plain(
                old(self).env@,
                chain_end(old(self).env@, name@),
                value@,
            ),
            same_but_env(*final(self), *old(self)),
    {
        let target = self.resolve_nameref(name);
        let mut exported: bool = false;
        let mut readonly: bool = false;
        let mut integer: bool = false;
        let mut nameref: bool = false;
        let mut base: Option<IndexMap<usize, String>> = None;
        if let Some(v) = self.env.get(target.as_str()) {
            exported = v.exported;
            readonly = v.readonly;
            integer = v.integer;
            nameref = v.nameref;
            if let VarValue::IndexedArray(m) = &v.value {
                base = Some(indexed_clone(m));
            }
        }
        if readonly {
            return;
        }
        if !exported && !str_starts_with(target.as_str(), "SHOPT_") && !str_starts_with(
            target.as_str(),
            "_",
        ) {
            exported = self.allexport();
        }
        let new_value = match base {
            Some(m) => {
                let mut map = m;
                indexed_insert(&mut map, 0, value);
                VarValue::IndexedArray(map)
            },
            None => VarValue::Scalar(value),
        };
        self.env.set(
            target,
            ShellVar { value: new_value, exported, readonly, integer, nameref },
        );
    }

    /// Whether `set -a` is on.
    fn allexport(&self) -> (r: bool)
        ensures
            r == allexport_on(self.env@),
    {
        match self.env.get("SHOPT_a") {
            Some(v) => match &v.value {
                VarValue::Scalar(s) => str_eq(s.as_str(), "1"),
                _ => false,
            },
            None => false,
        }
    }

    /// Sets a variable, or reports that it is readonly.
    pub fn set_var_checked(&mut self, name: String, value: String) -> (r: Result<(), String>)
        requires
            chain_ends(old(self).env@, name@),
        ensures
            match r {
                Ok(()) => !flags_of(lookup(old(self).env@, name@)).readonly && final(self).env@
                    == assign_plain(old(self).env@, chain_end(old(self).env@, name@), value@),
                Err(m) => flags_of(lookup(old(self).env@, name@)).readonly && m@
                    == readonly_message(name@) && final(self).env@ == old(self).env@,
            },
            same_but_env(*final(self), *old(self)),
    {
        if let Some(var) = self.env.get(name.as_str()) {
            if var.readonly {
                return Err(name.concat(": readonly variable"));
            }
        }
        self.set_var(name, value);
        Ok(())
    }

    /// Makes a variable readonly with the given value.
    pub fn set_readonly(&mut self, name: String, value: String)
        ensures
            final(self).env@ == env_set(
                old(self).env@,
                name@,
                VarView {
                    value: ValueView::Scalar(value@),
                    readonly: true,
                    ..flags_of(lookup(old(self).env@, name@))
                },
            ),
            same_but_env(*final(self), *old(self)),
    {
        let mut exported: bool = false;
        let mut integer: bool = false;
        let mut nameref: bool = false;
        if let Some(v) = self.env.get(name.as_str()) {
            exported = v.exported;
            integer = v.integer;
            nameref = v.nameref;
        }
        self.env.set(
            name,
            ShellVar {
                value: VarValue::Scalar(value),
                exported,
                readonly: true,
                integer,
                nameref,
            },
        );
    }

    /// Removes a variable from the innermost scope, or reports that it is readonly.
    pub fn unset_var(&mut self, name: &str) -> (r: Result<(), String>)
        ensures
            match r {
                Ok(()) => !flags_of(lookup(old(self).env@, name@)).readonly && final(self).env@
                    == env_remove(old(self).env@, name@) && (final(self).env@.len() > 0
                    ==> !has_key(final(self).env@.last(), name@)),
                Err(m) => flags_of(lookup(old(self).env@, name@)).readonly && m@
                    == readonly_message(name@) && final(self).env@ == old(self).env@,
            },
            same_but_env(*final(self), *old(self)),
    {
        if let Some(var) = self.env.get(name) {
            if var.readonly {
                return Err(name.to_owned().concat(": readonly variable"));
            }
        }
        self.env.remove(name);
        Ok(())
    }

    /// The names that start with a prefix, of all scopes, each once and in byte order.
    pub fn var_names_with_prefix(&self, prefix: &str) -> (r: Vec<String>)
        ensures
            in_strict_order(strs(r@)),
            forall|x: Seq<char>| #[trigger]
                strs(r@).contains(x) <==> (starts_with(x, prefix@) && is_set(self.env@, x)),
    {
        let ghost env = self.env@;
        let mut names: Vec<String> = Vec::new();
        let mut i: usize = 0;
        assert(strs(names@) =~= Seq::empty());
        while i < self.env.scopes.len()
            invariant
                i <= env.len(),
                env == self.env@,
                in_strict_order(strs(names@)),
                forall|x: Seq<char>| #[trigger]
                    strs(names@).contains(x) <==> (starts_with(x, prefix@) && is_set(
                        env.take(i as int),
                        x,
                    )),
            decreases env.len() - i,
        {
            let scope = &self.env.scopes[i];
            let ghost e = scope_entries(*scope);
            assert(env[i as int] == e);
            let n: usize = scope_len(scope);
            let mut k: usize = 0;
            assert(e.take(0) =~= Seq::empty());
            while k < n
                invariant
                    k <= n,
                    n == e.len(),
                    e == scope_entries(*scope),
                    in_strict_order(strs(names@)),
                    forall|x: Seq<char>| #[trigger]
                        strs(names@).contains(x) <==> (starts_with(x, prefix@) && (is_set(
                            env.take(i as int),
                            x,
                        ) || has_key(e.take(k as int), x))),
                decreases n - k,
            {
                let ghost before = strs(names@);
                if let Some((name, _)) = scope_at(scope, k) {
                    if str_starts_with(name.as_str(), prefix) {
                        insert_unique(&mut names, name.clone());
                    }
                    proof {
                        assert forall|x: Seq<char>| #[trigger]
                            strs(names@).contains(x) <==> (starts_with(x, prefix@) && (is_set(
                                env.take(i as int),
                                x,
                            ) || has_key(e.take(k + 1), x))) by {
                            lemma_has_key_take(e, k as int, x);
                            assert(before.contains(x) <==> (starts_with(x, prefix@) && (is_set(
                                env.take(i as int),
                                x,
                            ) || has_key(e.take(k as int), x))));
                        }
                    }
                }
                k = k + 1;
            }
            proof {
                assert(e.take(k as int) =~= e);
                assert forall|x: Seq<char>| #[trigger]
                    strs(names@).contains(x) <==> (starts_with(x, prefix@) && is_set(
                        env.take(i + 1),
                        x,
                    )) by {
                    lemma_is_set_take(env, i as int, x);
                }
            }
            i = i + 1;
        }
        assert(env.take(i as int) =~= env);
        names
    }

    /// One element of an array; a scalar is its own element zero.
    pub fn get_array_element(&self, name: &str, index: &str) -> (r: Option<String>)
        ensures
            match lookup(self.env@, name@) {
                Some(v) => match r {
                    Some(s) => element_of(v.value, index@) == Some(s@),
                    None => element_of(v.value, index@) is None,
                },
                None => r is None,
            },
    {
        match self.env.get(name) {
            Some(var) => match &var.value {
                VarValue::Scalar(s) => {
                    if str_eq(index, "0") {
                        Some(s.clone())
                    } else {
                        None
                    }
                },
                VarValue::IndexedArray(m) => match parse_usize(index) {
                    Some(i) => match indexed_get(m, i) {
                        Some(s) => Some(s.clone()),
                        None => None,
                    },
                    None => None,
                },
                VarValue::AssocArray(m) => match assoc_get(m, index) {
                    Some(s) => Some(s.clone()),
                    None => None,
                },
            },
            None => None,
        }
    }

    /// Sets one element of an array, which is made if there is none.
    pub fn set_array_element(&mut self, name: String, index: &str, value: String)
        ensures
            final(self).env@ == element_set_env(old(self).env@, name@, index@, value@),
            same_but_env(*final(self), *old(self)),
    {
        let mut readonly: bool = false;
        let mut exists_already: bool = false;
        if let Some(v) = self.env.get(name.as_str()) {
            readonly = v.readonly;
            exists_already = true;
        }
        if readonly {
            return;
        }
        let number = parse_usize(index);
        if exists_already {
            if let Some(var) = self.env.get_mut(name.as_str()) {
                match &mut var.value {
                    VarValue::IndexedArray(m) => {
                        if let Some(i) = number {
                            indexed_insert(m, i, value);
                        }
                    },
                    VarValue::AssocArray(m) => {
                        assoc_insert(m, index.to_owned(), value);
                    },
                    VarValue::Scalar(_) => {
                        let mut m = indexed_new();
                        if let Some(i) = number {
                            indexed_insert(&mut m, i, value);
                        }
                        var.value = VarValue::IndexedArray(m);
                    },
                }
            }
        } else {
            let mut m = indexed_new();
            if let Some(i) = number {
                indexed_insert(&mut m, i, value);
            }
            self.env.set(
                name,
                ShellVar {
                    value: VarValue::IndexedArray(m),
                    exported: false,
                    readonly: false,
                    integer: false,
                    nameref: false,
                },
            );
        }
    }

    /// The keys of an array.
    pub fn get_array_keys(&self, name: &str) -> (r: Vec<String>)
        ensures
            strs(r@) == match lookup(self.env@, name@) {
                Some(v) => value_keys(v.value),
                None => Seq::empty(),
            },
    {
        broadcast use lemma_strs_push;

        let mut keys: Vec<String> = Vec::new();
        assert(strs(keys@) =~= Seq::empty());
        if let Some(var) = self.env.get(name) {
            match &var.value {
                VarValue::Scalar(s) => {
                    if !s.as_str().is_empty() {
                        keys.push("0".to_owned());
                        assert(strs(keys@) =~= seq!["0"@]);
                    }
                },
                VarValue::IndexedArray(m) => {
                    let ghost e = indexed_entries(*m);
                    let ghost want = keys_of(e).map_values(|k: usize| dec(k as nat));
                    let n: usize = indexed_len(m);
                    let mut i: usize = 0;
                    assert(want.take(0) =~= Seq::empty());
                    while i < n
                        invariant
                            i <= n,
                            n == e.len(),
                            e == indexed_entries(*m),
                            want == keys_of(e).map_values(|k: usize| dec(k as nat)),
                            strs(keys@) == want.take(i as int),
                        decreases n - i,
                    {
                        if let Some((k, _)) = indexed_at(m, i) {
                            keys.push(u64_to_dec(*k as u64));
                            assert(want.take(i + 1) =~= want.take(i as int).push(want[i as int]));
                        }
                        i = i + 1;
                    }
                    assert(want.take(i as int) =~= want);
                },
                VarValue::AssocArray(m) => {
                    let ghost e = assoc_entries(*m);
                    let ghost want = keys_of(e);
                    let n: usize = assoc_len(m);
                    let mut i: usize = 0;
                    assert(want.take(0) =~= Seq::empty());
                    while i < n
                        invariant
                            i <= n,
                            n == e.len(),
                            e == assoc_entries(*m),
                            want == keys_of(e),
                            strs(keys@) == want.take(i as int),
                        decreases n - i,
                    {
                        if let Some((k, _)) = assoc_at(m, i) {
                            keys.push(k.clone());
                            assert(want.take(i + 1) =~= want.take(i as int).push(want[i as int]));
                        }
                        i = i + 1;
                    }
                    assert(want.take(i as int) =~= want);
                },
            }
        }
        keys
    }

    /// The values of an array.
    pub fn get_array_values(&self, name: &str) -> (r: Vec<String>)
        ensures
            strs(r@) == match lookup(self.env@, name@) {
                Some(v) => value_values(v.value),
                None => Seq::empty(),
            },
    {
        let mut values: Vec<String> = Vec::new();
        assert(strs(values@) =~= Seq::empty());
        if let Some(var) = self.env.get(name) {
            match &var.value {
                VarValue::Scalar(s) => {
                    if !s.as_str().is_empty() {
                        values.push(s.clone());
                        assert(strs(values@) =~= seq![s@]);
                    }
                    values
                },
                VarValue::IndexedArray(m) => indexed_values(m),
                VarValue::AssocArray(m) => assoc_values(m),
            }
        } else {
            values
        }
    }

    /// The number of elements of an array.
    pub fn get_array_length(&self, name: &str) -> (r: usize)
        ensures
            r == match lookup(self.env@, name@) {
                Some(v) => value_values(v.value).len(),
                None => 0,
            },
    {
        match self.env.get(name) {
            Some(var) => match &var.value {
                VarValue::Scalar(s) => {
                    if s.as_str().is_empty() {
                        0
                    } else {
                        1
                    }
                },
                VarValue::IndexedArray(m) => indexed_len(m),
                VarValue::AssocArray(m) => assoc_len(m),
            },
            None => 0,
        }
    }

    /// Whether so many values can be appended to an array: their indices are numbers that an
    /// array can have.
    pub fn can_append(&self, name: &str, count: usize) -> (r: bool)
        ensures
            r == append_fits(lookup(self.env@, name@), count as nat),
    {
        let mut next: Option<usize> = Some(0);
        if let Some(var) = self.env.get(name) {
            match &var.value {
                VarValue::IndexedArray(m) => {
                    next = index_after(m);
                },
                VarValue::Scalar(s) => {
                    if !s.as_str().is_empty() {
                        next = Some(1);
                    }
                    proof {
                        let e = seq![(0usize, s@)];
                        assert(e.drop_last() =~= Seq::empty());
                        assert(next_index(e) == 1) by {
                            reveal_with_fuel(next_index, 2);
                        }
                    }
                },
                VarValue::AssocArray(_) => {},
            }
        }
        match next {
            Some(n) => count == 0 || n <= usize::MAX - (count - 1),
            None => false,
        }
    }

    /// Appends values to an indexed array, which is made if there is none.
    pub fn append_array(&mut self, name: &str, values: Vec<String>)
        requires
            !flags_of(lookup(old(self).env@, name@)).readonly ==> append_fits(
                lookup(old(self).env@, name@),
                values@.len(),
            ),
        ensures
            final(self).env@ == appended_env(old(self).env@, name@, strs(values@)),
            same_but_env(*final(self), *old(self)),
    {
        let mut known: bool = false;
        if let Some(var) = self.env.get(name) {
            if var.readonly {
                return;
            }
            known = true;
        }
        if known {
            if let Some(var) = self.env.get_mut(name) {
                match &mut var.value {
                    VarValue::IndexedArray(m) => {
                        append_values(m, &values);
                    },
                    VarValue::AssocArray(_) => {
                        proof {
                            lemma_env_update_same(old(self).env@, name@);
                        }
                    },
                    VarValue::Scalar(s) => {
                        let mut m = indexed_new();
                        if !s.as_str().is_empty() {
                            indexed_insert(&mut m, 0, s.clone());
                            assert(indexed_entries(m) =~= seq![(0usize, s@)]);
                        }
                        append_values(&mut m, &values);
                        var.value = VarValue::IndexedArray(m);
                    },
                }
            }
        } else {
            let mut m = indexed_new();
            append_values(&mut m, &values);
            self.env.set(
                name.to_owned(),
                ShellVar {
                    value: VarValue::IndexedArray(m),
                    exported: false,
                    readonly: false,
                    integer: false,
                    nameref: false,
                },
            );
        }
    }

    /// Removes one element of an array.
    pub fn unset_array_element(&mut self, name: &str, index: &str)
        ensures
            final(self).env@ == element_unset_env(old(self).env@, name@, index@),
            same_but_env(*final(self), *old(self)),
    {
        if let Some(var) = self.env.get(name) {
            if var.readonly {
                return;
            }
        }
        let number = parse_usize(index);
        let is_zero: bool = str_eq(index, "0");
        proof {
            if lookup(old(self).env@, name@) is Some {
                lemma_env_update_same(old(self).env@, name@);
            }
        }
        if let Some(var) = self.env.get_mut(name) {
            match &mut var.value {
                VarValue::IndexedArray(m) => {
                    if let Some(i) = number {
                        indexed_remove(m, i);
                    }
                },
                VarValue::AssocArray(m) => {
                    assoc_remove(m, index);
                },
                VarValue::Scalar(_) => {
                    if is_zero {
                        var.value = VarValue::Scalar(String::new());
                    }
                },
            }
        }
    }

    /// Makes a variable an empty indexed array.
    pub fn init_indexed_array(&mut self, name: String)
        ensures
            final(self).env@ == init_array_env(
                old(self).env@,
                name@,
                ValueView::Indexed(Seq::empty()),
            ),
            same_but_env(*final(self), *old(self)),
    {
        self.init_array(name, VarValue::IndexedArray(indexed_new()))
    }

    /// Makes a variable an empty associative array.
    pub fn init_assoc_array(&mut self, name: String)
        ensures
            final(self).env@ == init_array_env(
                old(self).env@,
                name@,
                ValueView::Assoc(Seq::empty()),
            ),
            same_but_env(*final(self), *old(self)),
    {
        self.init_array(name, VarValue::AssocArray(assoc_new()))
    }

    fn init_array(&mut self, name: String, empty: VarValue)
        ensures
            final(self).env@ == init_array_env(old(self).env@, name@, empty@),
            same_but_env(*final(self), *old(self)),
    {
        let mut exported: bool = false;
        let mut readonly: bool = false;
        if let Some(v) = self.env.get(name.as_str()) {
            exported = v.exported;
            readonly = v.readonly;
        }
        if readonly {
            return;
        }
        self.env.set(
            name,
            ShellVar { value: empty, exported, readonly, integer: false, nameref: false },
        );
    }
}

impl Default for ShellState {
    fn default() -> (r: ShellState)
        ensures
            r.env@ == seq![Seq::<(Seq<char>, VarView)>::empty()],
            r.positional@.len() == 0,
            r.last_status == 0,
            r.cwd@ == "/"@,
            r.lineno == 0,
            r.random_seed == 12345,
            r.func_stack@.len() == 0,
            r.source_stack@.len() == 0,
    {
        ShellState::new()
    }
}

proof fn lemma_has_key_take(e: Seq<(Seq<char>, VarView)>, k: int, x: Seq<char>)
    requires
        0 <= k < e.len(),
    ensures
        has_key(e.take(k + 1), x) <==> (has_key(e.take(k), x) || x == e[k].0),
{
    let a = e.take(k);
    let b = e.take(k + 1);
    crate::entries::lemma_key_index(a, x);
    let m = crate::entries::key_index(a, x);
    if m < a.len() {
        crate::entries::lemma_key_index_is(b, x, m);
    } else if x == e[k].0 {
        crate::entries::lemma_key_index_is(b, x, k);
    } else {
        crate::entries::lemma_key_index_is(b, x, k + 1);
    }
}

proof fn lemma_is_set_take(env: EnvView, i: int, x: Seq<char>)
    requires
        0 <= i < env.len(),
    ensures
        is_set(env.take(i + 1), x) <==> (is_set(env.take(i), x) || has_key(env[i], x)),
{
    let a = env.take(i);
    let b = env.take(i + 1);
    if is_set(b, x) {
        let j = choose|j: int| 0 <= j < b.len() && has_key(#[trigger] b[j], x);
        if j < i {
            assert(a[j] == b[j]);
        }
    }
    if is_set(a, x) {
        let j = choose|j: int| 0 <= j < a.len() && has_key(#[trigger] a[j], x);
        assert(b[j] == a[j]);
    }
    if has_key(env[i], x) {
        assert(b[i] == env[i]);
    }
}

proof fn lemma_env_update_same(env: EnvView, name: Seq<char>)
    requires
        lookup(env, name) is Some,
    ensures
        env_update(env, name, lookup(env, name)->0) == env,
{
    lemma_scope_of(env, name);
    let i = crate::vars::scope_of(env, name);
    crate::entries::lemma_key_index(env[i], name);
    let p = crate::entries::key_index(env[i], name);
    assert(put(env[i], name, env[i][p].1) =~= env[i]);
    assert(env_update(env, name, lookup(env, name)->0) =~= env);
}

fn last_or_empty(stack: &Vec<String>) -> (r: String)
    ensures
        r@ == top_or_empty(stack@),
{
    let n: usize = stack.len();
    if n > 0 {
        stack[n - 1].clone()
    } else {
        String::new()
    }
}

/// One more than the greatest index of an array, where that is a `usize`.
fn index_after(m: &IndexMap<usize, String>) -> (r: Option<usize>)
    ensures
        match r {
            Some(n) => next_index(indexed_entries(*m)) == n,
            None => next_index(indexed_entries(*m)) > usize::MAX,
        },
{
    let ghost e = indexed_entries(*m);
    let n: usize = indexed_len(m);
    let mut next: usize = 0;
    let mut i: usize = 0;
    assert(e.take(0) =~= Seq::empty());
    while i < n
        invariant
            i <= n,
            n == e.len(),
            e == indexed_entries(*m),
            next == next_index(e.take(i as int)),
        decreases n - i,
    {
        if let Some((k, _)) = indexed_at(m, i) {
            proof {
                assert(e.take(i + 1).drop_last() =~= e.take(i as int));
                lemma_next_index_take(e, i + 1);
            }
            if *k >= next {
                if *k == usize::MAX {
                    return None;
                }
                next = *k + 1;
            }
        }
        i = i + 1;
    }
    assert(e.take(i as int) =~= e);
    Some(next)
}

/// Adds values after the greatest index of an array.
fn append_values(m: &mut IndexMap<usize, String>, values: &Vec<String>)
    requires
        next_index(indexed_entries(*old(m))) <= usize::MAX,
        next_index(indexed_entries(*old(m))) + values@.len() <= usize::MAX + 1,
    ensures
        indexed_entries(*final(m)) == appended(
            indexed_entries(*old(m)),
            next_index(indexed_entries(*old(m))),
            strs(values@),
            values@.len() as int,
        ),
{
    let ghost e = indexed_entries(*m);
    let next: usize = match index_after(m) {
        Some(n) => n,
        None => 0,
    };
    let mut k: usize = 0;
    while k < values.len()
        invariant
            k <= values@.len(),
            next == next_index(e),
            next + values@.len() <= usize::MAX + 1,
            indexed_entries(*m) == appended(e, next as int, strs(values@), k as int),
        decreases values@.len() - k,
    {
        assert(strs(values@)[k as int] == values@[k as int]@);
        indexed_insert(m, next + k, values[k].clone());
        k = k + 1;
    }
}

proof fn lemma_next_index_take(e: Seq<(usize, Seq<char>)>, k: int)
    requires
        0 <= k <= e.len(),
    ensures
        next_index(e.take(k)) <= next_index(e),
        0 <= next_index(e),
    decreases e.len(),
{
    if k < e.len() {
        lemma_next_index_take(e.drop_last(), k);
        assert(e.drop_last().take(k) =~= e.take(k));
    } else {
        assert(e.take(k) =~= e);
        if e.len() > 0 {
            lemma_next_index_take(e.drop_last(), 0);
        }
    }
}

} // verus!
