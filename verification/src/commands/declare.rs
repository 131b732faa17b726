//! `declare` and `typeset`.
use crate::commands::arrays::{
    array_elements, assoc_pairs, pairs_of, parse_array_elements, parse_assoc_pairs,
};
use crate::commands::assign::{
    assign_assoc_array, assign_indexed_array, assoc_env, compound_inner, compound_text,
    contains_key_mark, has_key_mark, indexed_env, AssignStep,
};
use crate::commands::printed::{prints, Printed, Stream};
use crate::commands::scope::assign_env;
use crate::state::{
    chain_ends, init_array_env, same_but_env, same_but_env_and_seed, value_in, xorshift,
    ShellState,
};
use crate::text::{
    after_char, before_char, chars_of, dec_int, i64_to_dec, lowercased, split_at_char,
    to_lowercase, to_uppercase, trim, trimmed, uppercased,
};
use crate::vars::{
    env_set, env_update, lookup, scope_at, scope_entries, scope_len, EnvView, ShellVar, ValueView,
    VarValue, VarView,
};
use crate::views::strs;
use vstd::prelude::*;

verus! {

/// What the flags of `declare` ask for.
#[derive(Clone, Copy, Debug, PartialEq, Eq, Structural)]
pub struct DeclareFlags {
    pub is_assoc: bool,
    pub is_indexed: bool,
    pub is_integer: bool,
    pub is_export: bool,
    pub is_readonly: bool,
    pub is_lower: bool,
    pub is_upper: bool,
    pub is_print: bool,
    pub is_nameref: bool,
}

/// Whether an argument is one of flags: a dash and something after it.
pub open spec fn is_flags(arg: Seq<char>) -> bool {
    arg.len() > 1 && arg[0] == '-'
}

/// Whether a letter is among the flags of the first `n` arguments.
pub open spec fn has_flag(args: Seq<Seq<char>>, n: int, letter: char) -> bool {
    exists|i: int|
        0 <= i < n && is_flags(#[trigger] args[i]) && args[i].skip(1).contains(letter)
}

/// What the flags of the first `n` arguments ask for.
pub open spec fn flags_upto(args: Seq<Seq<char>>, n: int) -> DeclareFlags {
    DeclareFlags {
        is_assoc: has_flag(args, n, 'A'),
        is_indexed: has_flag(args, n, 'a'),
        is_integer: has_flag(args, n, 'i'),
        is_export: has_flag(args, n, 'x'),
        is_readonly: has_flag(args, n, 'r'),
        is_lower: has_flag(args, n, 'l'),
        is_upper: has_flag(args, n, 'u'),
        is_print: has_flag(args, n, 'p'),
        is_nameref: has_flag(args, n, 'n'),
    }
}

/// The positions of the names among the first `n` arguments.
pub open spec fn names_upto(args: Seq<Seq<char>>, n: int) -> Seq<usize>
    decreases n,
{
    if n <= 0 {
        Seq::empty()
    } else if is_flags(args[n - 1]) {
        names_upto(args, n - 1)
    } else {
        names_upto(args, n - 1).push((n - 1) as usize)
    }
}

fn has_letter(chars: &Vec<char>, letter: char) -> (r: bool)
    requires
        chars@.len() > 0,
    ensures
        r == chars@.skip(1).contains(letter),
{
    let ghost letters = chars@.skip(1);
    let mut i: usize = 1;
    while i < chars.len()
        invariant
            1 <= i <= chars@.len(),
            letters == chars@.skip(1),
            forall|j: int| 0 <= j < i - 1 ==> letters[j] != letter,
        decreases chars@.len() - i,
    {
        if chars[i] == letter {
            assert(letters[i - 1] == letter);
            return true;
        }
        i = i + 1;
    }
    false
}

proof fn lemma_has_flag_step(args: Seq<Seq<char>>, i: int, letter: char)
    requires
        0 <= i < args.len(),
    ensures
        has_flag(args, i + 1, letter) == (has_flag(args, i, letter) || (is_flags(args[i])
            && args[i].skip(1).contains(letter))),
{
    if has_flag(args, i + 1, letter) {
        let k = choose|k: int|
            0 <= k < i + 1 && is_flags(#[trigger] args[k]) && args[k].skip(1).contains(letter);
        if k < i {
            assert(has_flag(args, i, letter));
        }
    }
    if has_flag(args, i, letter) {
        let k = choose|k: int|
            0 <= k < i && is_flags(#[trigger] args[k]) && args[k].skip(1).contains(letter);
        assert(0 <= k < i + 1 && is_flags(args[k]) && args[k].skip(1).contains(letter));
    }
    if is_flags(args[i]) && args[i].skip(1).contains(letter) {
        assert(has_flag(args, i + 1, letter));
    }
}

/// The flags of the arguments, and the positions of the names among them.
pub fn parse_declare_flags(args: &Vec<String>) -> (r: (DeclareFlags, Vec<usize>))
    ensures
        r.0 == flags_upto(strs(args@), args@.len() as int),
        r.1@ == names_upto(strs(args@), args@.len() as int),
{
    let ghost all = strs(args@);
    let mut flags = DeclareFlags {
        is_assoc: false,
        is_indexed: false,
        is_integer: false,
        is_export: false,
        is_readonly: false,
        is_lower: false,
        is_upper: false,
        is_print: false,
        is_nameref: false,
    };
    let mut names: Vec<usize> = Vec::new();
    let mut i: usize = 0;
    while i < args.len()
        invariant
            i <= args@.len(),
            all == strs(args@),
            flags == flags_upto(all, i as int),
            names@ == names_upto(all, i as int),
        decreases args@.len() - i,
    {
        assert(all[i as int] == args@[i as int]@);
        let chars = chars_of(args[i].as_str());
        proof {
            lemma_has_flag_step(all, i as int, 'A');
            lemma_has_flag_step(all, i as int, 'a');
            lemma_has_flag_step(all, i as int, 'i');
            lemma_has_flag_step(all, i as int, 'x');
            lemma_has_flag_step(all, i as int, 'r');
            lemma_has_flag_step(all, i as int, 'l');
            lemma_has_flag_step(all, i as int, 'u');
            lemma_has_flag_step(all, i as int, 'p');
            lemma_has_flag_step(all, i as int, 'n');
        }
        if chars.len() > 1 && chars[0] == '-' {
            flags = DeclareFlags {
                is_assoc: flags.is_assoc || has_letter(&chars, 'A'),
                is_indexed: flags.is_indexed || has_letter(&chars, 'a'),
                is_integer: flags.is_integer || has_letter(&chars, 'i'),
                is_export: flags.is_export || has_letter(&chars, 'x'),
                is_readonly: flags.is_readonly || has_letter(&chars, 'r'),
                is_lower: flags.is_lower || has_letter(&chars, 'l'),
                is_upper: flags.is_upper || has_letter(&chars, 'u'),
                is_print: flags.is_print || has_letter(&chars, 'p'),
                is_nameref: flags.is_nameref || has_letter(&chars, 'n'),
            };
        } else {
            names.push(i);
        }
        i = i + 1;
    }
    (flags, names)
}

/// The line on a variable.
pub open spec fn declare_line(name: Seq<char>, value: Seq<char>) -> Seq<char> {
    "declare -- "@ + name + "=\""@ + value + "\"\n"@
}

fn declare_text(name: &str, value: &str) -> (r: String)
    ensures
        r@ == declare_line(name@, value@),
{
    "declare -- ".to_owned().concat(name).concat("=\"").concat(value).concat("\"\n")
}

/// The lines on the variables of a scope.
pub open spec fn scope_listing(scope: Seq<(Seq<char>, VarView)>) -> Seq<(Stream, Seq<char>)> {
    scope.map_values(
        |e: (Seq<char>, VarView)| (Stream::Stdout, declare_line(e.0, e.1.value.scalar())),
    )
}

/// The lines on the variables of the first `n` scopes.
pub open spec fn env_listing(env: EnvView, n: int) -> Seq<(Stream, Seq<char>)>
    decreases n,
{
    if n <= 0 {
        Seq::empty()
    } else {
        env_listing(env, n - 1) + scope_listing(env[n - 1])
    }
}

fn print_all(state: &ShellState) -> (r: Printed)
    ensures
        prints(r, env_listing(state.env@, state.env@.len() as int), 0),
{
    let ghost env = state.env@;
    let mut printed = Printed::new();
    let mut i: usize = 0;
    while i < state.env.scopes.len()
        invariant
            i <= state.env.scopes@.len(),
            env == state.env@,
            prints(printed, env_listing(env, i as int), 0),
        decreases state.env.scopes@.len() - i,
    {
        let scope = &state.env.scopes[i];
        let ghost lines = scope_listing(scope_entries(*scope));
        assert(env[i as int] == scope_entries(*scope));
        let n: usize = scope_len(scope);
        let mut k: usize = 0;
        assert(env_listing(env, i as int) + lines.take(0) =~= env_listing(env, i as int));
        while k < n
            invariant
                k <= n,
                n == scope_entries(*scope).len(),
                lines == scope_listing(scope_entries(*scope)),
                prints(printed, env_listing(env, i as int) + lines.take(k as int), 0),
            decreases n - k,
        {
            if let Some((name, var)) = scope_at(scope, k) {
                let value = var.value.as_scalar();
                printed.out(declare_text(name.as_str(), value.as_str()));
            }
            proof {
                assert(env_listing(env, i as int) + lines.take(k + 1) =~= (env_listing(
                    env,
                    i as int,
                ) + lines.take(k as int)).push(lines[k as int]));
            }
            k = k + 1;
        }
        assert(lines.take(n as int) =~= lines);
        i = i + 1;
    }
    printed
}

/// What `declare -p` prints on the first `n` names: those that are set.
pub open spec fn declared_upto(env: EnvView, args: Seq<Seq<char>>, names: Seq<usize>, n: int) -> Seq<
    (Stream, Seq<char>),
>
    decreases n,
{
    if n <= 0 {
        Seq::empty()
    } else {
        let before = declared_upto(env, args, names, n - 1);
        let name = before_char(args[names[n - 1] as int], '=');
        match lookup(env, name) {
            Some(v) => before.push((Stream::Stdout, declare_line(name, v.value.scalar()))),
            None => before,
        }
    }
}

/// Carries out `declare -p`: all variables, or those that are named.
pub fn declare_print(state: &ShellState, args: &Vec<String>, names: &Vec<usize>) -> (r: Printed)
    requires
        forall|i: int| 0 <= i < names@.len() ==> (#[trigger] names@[i]) < args@.len(),
    ensures
        if names@.len() == 0 {
            prints(r, env_listing(state.env@, state.env@.len() as int), 0)
        } else {
            prints(
                r,
                declared_upto(state.env@, strs(args@), names@, names@.len() as int),
                0,
            )
        },
{
    if names.len() == 0 {
        return print_all(state);
    }
    let ghost env = state.env@;
    let ghost all = strs(args@);
    let mut printed = Printed::new();
    let mut i: usize = 0;
    while i < names.len()
        invariant
            i <= names@.len(),
            env == state.env@,
            all == strs(args@),
            forall|i: int| 0 <= i < names@.len() ==> (#[trigger] names@[i]) < args@.len(),
            prints(printed, declared_upto(env, all, names@, i as int), 0),
        decreases names@.len() - i,
    {
        let k: usize = names[i];
        assert(all[k as int] == args@[k as int]@);
        let (name, _) = split_at_char(args[k].as_str(), '=');
        if let Some(var) = state.env.get(name.as_str()) {
            let value = var.value.as_scalar();
            printed.out(declare_text(name.as_str(), value.as_str()));
        }
        i = i + 1;
    }
    printed
}

/// The variables after a name was made the array that the flags ask for.
pub open spec fn declare_init(env: EnvView, name: Seq<char>, flags: DeclareFlags) -> EnvView {
    if flags.is_assoc {
        init_array_env(env, name, ValueView::Assoc(Seq::empty()))
    } else if flags.is_indexed {
        init_array_env(env, name, ValueView::Indexed(Seq::empty()))
    } else {
        env
    }
}

/// The variables after a name was given the array between parentheses.
pub open spec fn declare_compound(
    env: EnvView,
    name: Seq<char>,
    inner: Seq<char>,
    flags: DeclareFlags,
) -> EnvView {
    if flags.is_assoc || has_key_mark(inner) {
        assoc_env(env, name, assoc_pairs(inner, 0), assoc_pairs(inner, 0).len() as int)
    } else {
        indexed_env(env, name, array_elements(inner), array_elements(inner).len() as int)
    }
}

/// A value in the case that the flags ask for.
pub open spec fn declare_scalar(value: Seq<char>, flags: DeclareFlags) -> Seq<char> {
    if flags.is_lower {
        lowercased(value)
    } else if flags.is_upper {
        uppercased(value)
    } else {
        value
    }
}

/// A variable with the attributes that the flags ask for.
pub open spec fn with_attributes(v: VarView, flags: DeclareFlags) -> VarView {
    VarView {
        exported: v.exported || flags.is_export,
        readonly: v.readonly || flags.is_readonly,
        integer: v.integer || flags.is_integer,
        ..v
    }
}

/// The variables after a name got the attributes that the flags ask for.
pub open spec fn declare_attributes(env: EnvView, name: Seq<char>, flags: DeclareFlags) -> EnvView {
    match lookup(env, name) {
        Some(v) => env_update(env, name, with_attributes(v, flags)),
        None => env,
    }
}

/// The variables after a name became a reference to the variable that its value names.
pub open spec fn declare_nameref(env: EnvView, name: Seq<char>) -> EnvView {
    let target = match lookup(env, name) {
        Some(v) => v.value.scalar(),
        None => Seq::empty(),
    };
    env_set(
        env,
        name,
        VarView {
            value: ValueView::Scalar(target),
            exported: false,
            readonly: false,
            integer: false,
            nameref: true,
        },
    )
}

/// The variables at the end of `declare` with a name.
pub open spec fn declare_end(env: EnvView, name: Seq<char>, flags: DeclareFlags) -> EnvView {
    let after = declare_attributes(env, name, flags);
    if flags.is_nameref {
        declare_nameref(after, name)
    } else {
        after
    }
}

fn finish_name(state: &mut ShellState, name: &str, flags: DeclareFlags)
    ensures
        final(state).env@ == declare_end(old(state).env@, name@, flags),
        same_but_env(*final(state), *old(state)),
{
    match state.env.get_mut(name) {
        Some(var) => {
            if flags.is_export {
                var.exported = true;
            }
            if flags.is_readonly {
                var.readonly = true;
            }
            if flags.is_integer {
                var.integer = true;
            }
        },
        None => {},
    }
    assert(state.env@ == declare_attributes(old(state).env@, name@, flags));
    if flags.is_nameref {
        let target = match state.env.get(name) {
            Some(var) => var.value.as_scalar(),
            None => String::new(),
        };
        proof {
            if lookup(state.env@, name@) is None {
                assert(target@ =~= Seq::empty());
            }
        }
        state.env.set(
            name.to_owned(),
            ShellVar {
                value: VarValue::Scalar(target),
                exported: false,
                readonly: false,
                integer: false,
                nameref: true,
            },
        );
    }
}

/// Whether the name in an argument of `declare` can be assigned where that is needed.
pub open spec fn declare_ok(env: EnvView, arg: Seq<char>, flags: DeclareFlags) -> bool {
    let name = before_char(arg, '=');
    chain_ends(declare_init(env, name, flags), name)
}

/// What `declare` with one name does: the array it is to be is made, the value is assigned, or an
/// empty one where the name is not set, and the attributes are added. For an integer the value is
/// an expression that is still to be evaluated.
pub open spec fn declared(
    before: ShellState,
    after: ShellState,
    arg: Seq<char>,
    flags: DeclareFlags,
    elapsed: nat,
    r: AssignStep,
) -> bool {
    let name = before_char(arg, '=');
    let env = declare_init(before.env@, name, flags);
    &&& same_but_env_and_seed(after, before)
    &&& match after_char(arg, '=') {
        Some(value) => {
            &&& after.random_seed == before.random_seed
            &&& match compound_text(value) {
                Some(inner) => {
                    &&& r is Done
                    &&& after.env@ == declare_end(
                        declare_compound(env, name, inner, flags),
                        name,
                        flags,
                    )
                },
                None => if flags.is_integer {
                    &&& after.env@ == env
                    &&& r matches AssignStep::Evaluate { name: n, expr } && n@ == name && expr@
                        == trimmed(value)
                } else {
                    &&& r is Done
                    &&& after.env@ == declare_end(
                        assign_env(env, name, declare_scalar(trimmed(value), flags)),
                        name,
                        flags,
                    )
                },
            }
        },
        None => {
            let plain = !flags.is_assoc && !flags.is_indexed;
            &&& r is Done
            &&& after.random_seed == if plain && name == "RANDOM"@ {
                xorshift(before.random_seed)
            } else {
                before.random_seed
            }
            &&& after.env@ == declare_end(
                if plain && value_in(before, env, before.random_seed, name, elapsed) is None {
                    assign_env(env, name, Seq::empty())
                } else {
                    env
                },
                name,
                flags,
            )
        },
    }
}

/// Carries out `declare` with one name; `elapsed` is how many seconds the shell runs.
pub fn declare_one_name(state: &mut ShellState, arg: &str, flags: DeclareFlags, elapsed: u64) -> (r:
    AssignStep)
    requires
        declare_ok(old(state).env@, arg@, flags),
    ensures
        declared(*old(state), *final(state), arg@, flags, elapsed as nat, r),
{
    let (name, value) = split_at_char(arg, '=');
    if flags.is_assoc {
        state.init_assoc_array(name.clone());
    } else if flags.is_indexed {
        state.init_indexed_array(name.clone());
    }
    match value {
        Some(v) => {
            match compound_inner(v.as_str()) {
                Some(inner) => {
                    if flags.is_assoc || contains_key_mark(inner.as_str()) {
                        let pairs = parse_assoc_pairs(inner.as_str());
                        assert(pairs@.len() == pairs_of(pairs@).len());
                        assign_assoc_array(state, name.as_str(), &pairs);
                    } else {
                        let elements = parse_array_elements(inner.as_str());
                        assert(elements@.len() == strs(elements@).len());
                        assign_indexed_array(state, name.as_str(), &elements);
                    }
                },
                None => {
                    let text = trim(v.as_str());
                    if flags.is_integer {
                        return AssignStep::Evaluate { name, expr: text };
                    }
                    let cased = if flags.is_lower {
                        to_lowercase(text.as_str())
                    } else if flags.is_upper {
                        to_uppercase(text.as_str())
                    } else {
                        text
                    };
                    state.set_var(name.clone(), cased);
                },
            }
        },
        None => {
            if !flags.is_assoc && !flags.is_indexed {
                if state.get_var_at(name.as_str(), elapsed).is_none() {
                    let empty = String::new();
                    assert(empty@ =~= Seq::empty());
                    state.set_var(name.clone(), empty);
                }
            }
        },
    }
    finish_name(state, name.as_str(), flags);
    AssignStep::Done
}

/// Ends `declare` with an integer, given the value of its expression.
pub fn declare_evaluated(state: &mut ShellState, name: String, value: i64, flags: DeclareFlags)
    requires
        chain_ends(old(state).env@, name@),
    ensures
        final(state).env@ == declare_end(
            assign_env(old(state).env@, name@, dec_int(value as int)),
            name@,
            flags,
        ),
        same_but_env(*final(state), *old(state)),
{
    state.set_var(name.clone(), i64_to_dec(value));
    finish_name(state, name.as_str(), flags);
}

/// A name that is declared readonly, exported or an integer has that attribute, and keeps those
/// that it had.
pub proof fn law_attributes_are_added(env: EnvView, name: Seq<char>, flags: DeclareFlags)
    requires
        lookup(env, name) is Some,
        !flags.is_nameref,
    ensures
        lookup(declare_end(env, name, flags), name) == Some(
            with_attributes(lookup(env, name)->0, flags),
        ),
{
    crate::state::lemma_update_lookup(env, name, with_attributes(lookup(env, name)->0, flags));
}

} // verus!
