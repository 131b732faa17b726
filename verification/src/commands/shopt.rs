//! `shopt`.
use crate::commands::printed::{prints, Printed, Stream};
use crate::commands::scope::assign_env;
use crate::runtime::flow::{is_option_on, option_on};
use crate::state::{chain_ends, same_but_env, ShellState};
use crate::text::str_eq;
use crate::vars::EnvView;
use crate::views::{lemma_strs_push, strs};
use vstd::prelude::*;

verus! {

/// The options that `shopt` knows.
pub open spec fn shopt_options() -> Seq<Seq<char>> {
    seq![
        "extglob"@,
        "nullglob"@,
        "dotglob"@,
        "globstar"@,
        "nocasematch"@,
        "nocaseglob"@,
        "failglob"@,
        "lastpipe"@,
        "expand_aliases"@,
    ]
}

/// The options that `shopt` knows.
pub fn shopt_option_names() -> (r: Vec<String>)
    ensures
        strs(r@) == shopt_options(),
{
    let mut v: Vec<String> = Vec::new();
    v.push("extglob".to_owned());
    v.push("nullglob".to_owned());
    v.push("dotglob".to_owned());
    v.push("globstar".to_owned());
    v.push("nocasematch".to_owned());
    v.push("nocaseglob".to_owned());
    v.push("failglob".to_owned());
    v.push("lastpipe".to_owned());
    v.push("expand_aliases".to_owned());
    assert(strs(v@) =~= shopt_options());
    v
}

/// The variable that holds an option.
pub open spec fn shopt_var(name: Seq<char>) -> Seq<char> {
    "SHOPT_"@ + name
}

/// The variable that holds an option.
pub fn shopt_var_name(name: &str) -> (r: String)
    ensures
        r@ == shopt_var(name@),
{
    "SHOPT_".to_owned().concat(name)
}

/// Whether an option is on.
pub fn get_shopt_value(state: &ShellState, name: &str) -> (r: bool)
    ensures
        r == option_on(state.env@, strs(state.positional@), shopt_var(name@)),
{
    let var = shopt_var_name(name);
    is_option_on(state, var.as_str())
}

/// What the arguments of `shopt` ask for: the last of `-s` and `-u`, if any, among the first `n`.
pub open spec fn shopt_mode(args: Seq<Seq<char>>, n: int) -> Option<bool>
    decreases n,
{
    if n <= 0 {
        None
    } else if args[n - 1] == "-s"@ {
        Some(true)
    } else if args[n - 1] == "-u"@ {
        Some(false)
    } else {
        shopt_mode(args, n - 1)
    }
}

/// The names among the first `n` arguments of `shopt`.
pub open spec fn shopt_names(args: Seq<Seq<char>>, n: int) -> Seq<Seq<char>>
    decreases n,
{
    if n <= 0 {
        Seq::empty()
    } else if args[n - 1] == "-s"@ || args[n - 1] == "-u"@ {
        shopt_names(args, n - 1)
    } else {
        shopt_names(args, n - 1).push(args[n - 1])
    }
}

/// Reads the arguments of `shopt`.
pub fn parse_shopt_args(args: &Vec<String>) -> (r: (Option<bool>, Vec<String>))
    ensures
        r.0 == shopt_mode(strs(args@), args@.len() as int),
        strs(r.1@) == shopt_names(strs(args@), args@.len() as int),
{
    broadcast use lemma_strs_push;
    let ghost all = strs(args@);
    let mut mode: Option<bool> = None;
    let mut names: Vec<String> = Vec::new();
    let mut i: usize = 0;
    assert(strs(names@) =~= Seq::empty());
    while i < args.len()
        invariant
            i <= args@.len(),
            all == strs(args@),
            mode == shopt_mode(all, i as int),
            strs(names@) == shopt_names(all, i as int),
        decreases args@.len() - i,
    {
        assert(all[i as int] == args@[i as int]@);
        if str_eq(args[i].as_str(), "-s") {
            mode = Some(true);
        } else if str_eq(args[i].as_str(), "-u") {
            mode = Some(false);
        } else {
            names.push(args[i].clone());
        }
        i = i + 1;
    }
    (mode, names)
}

/// Variables, what was printed, and the status, while `shopt` goes through its names.
pub struct ShoptRun {
    pub env: EnvView,
    pub pieces: Seq<(Stream, Seq<char>)>,
    pub status: i32,
}

/// The report on a name that is no option.
pub open spec fn invalid_option(name: Seq<char>) -> Seq<char> {
    "shopt: "@ + name + ": invalid shell option name\n"@
}

/// What `shopt` has done after its first `n` names, when it switches them on or off. A name that
/// is no option ends it.
pub open spec fn shopt_set_upto(env: EnvView, names: Seq<Seq<char>>, enable: bool, n: int) -> ShoptRun
    decreases n,
{
    if n <= 0 {
        ShoptRun { env, pieces: Seq::empty(), status: 0 }
    } else {
        let s = shopt_set_upto(env, names, enable, n - 1);
        if s.status != 0 {
            s
        } else if !shopt_options().contains(names[n - 1]) {
            ShoptRun {
                pieces: s.pieces.push((Stream::Stderr, invalid_option(names[n - 1]))),
                status: 1,
                ..s
            }
        } else {
            ShoptRun {
                env: assign_env(
                    s.env,
                    shopt_var(names[n - 1]),
                    if enable {
                        "1"@
                    } else {
                        "0"@
                    },
                ),
                ..s
            }
        }
    }
}

/// Whether every option that is switched is one whose references end.
pub open spec fn shopt_ends(env: EnvView, names: Seq<Seq<char>>, enable: bool) -> bool {
    forall|n: int|
        0 <= n < names.len() ==> chain_ends(
            (#[trigger] shopt_set_upto(env, names, enable, n)).env,
            shopt_var(names[n]),
        )
}

/// The line on an option.
pub open spec fn option_line(name: Seq<char>, on: bool) -> Seq<char> {
    name + "\t"@ + (if on {
        "on"@
    } else {
        "off"@
    }) + "\n"@
}

/// What `shopt` has printed after its first `n` names. A name that is no option ends it.
pub open spec fn shopt_print_upto(
    env: EnvView,
    positional: Seq<Seq<char>>,
    names: Seq<Seq<char>>,
    n: int,
) -> ShoptRun
    decreases n,
{
    if n <= 0 {
        ShoptRun { env, pieces: Seq::empty(), status: 0 }
    } else {
        let s = shopt_print_upto(env, positional, names, n - 1);
        if s.status != 0 {
            s
        } else if !shopt_options().contains(names[n - 1]) {
            ShoptRun {
                pieces: s.pieces.push((Stream::Stderr, invalid_option(names[n - 1]))),
                status: 1,
                ..s
            }
        } else {
            ShoptRun {
                pieces: s.pieces.push(
                    (
                        Stream::Stdout,
                        option_line(
                            names[n - 1],
                            option_on(env, positional, shopt_var(names[n - 1])),
                        ),
                    ),
                ),
                ..s
            }
        }
    }
}

proof fn lemma_set_failed(env: EnvView, names: Seq<Seq<char>>, enable: bool, n: int, m: int)
    requires
        0 <= n <= m,
        shopt_set_upto(env, names, enable, n).status != 0,
    ensures
        shopt_set_upto(env, names, enable, m) == shopt_set_upto(env, names, enable, n),
    decreases m - n,
{
    if n < m {
        lemma_set_failed(env, names, enable, n, m - 1);
    }
}

proof fn lemma_print_failed(
    env: EnvView,
    positional: Seq<Seq<char>>,
    names: Seq<Seq<char>>,
    n: int,
    m: int,
)
    requires
        0 <= n <= m,
        shopt_print_upto(env, positional, names, n).status != 0,
    ensures
        shopt_print_upto(env, positional, names, m) == shopt_print_upto(env, positional, names, n),
    decreases m - n,
{
    if n < m {
        lemma_print_failed(env, positional, names, n, m - 1);
    }
}

fn invalid_line(name: &str) -> (r: String)
    ensures
        r@ == invalid_option(name@),
{
    "shopt: ".to_owned().concat(name).concat(": invalid shell option name\n")
}

fn shopt_set_options(state: &mut ShellState, names: &Vec<String>, enable: bool) -> (r: Printed)
    requires
        shopt_ends(old(state).env@, strs(names@), enable),
    ensures
        if names@.len() == 0 {
            &&& prints(r, seq![(Stream::ShellStderr, "shopt: option name required\n"@)], 1)
            &&& final(state).env@ == old(state).env@
        } else {
            let end = shopt_set_upto(old(state).env@, strs(names@), enable, names@.len() as int);
            &&& prints(r, end.pieces, end.status)
            &&& final(state).env@ == end.env
        },
        same_but_env(*final(state), *old(state)),
{
    if names.len() == 0 {
        return Printed::shell_failure("shopt: option name required\n".to_owned());
    }
    let known = shopt_option_names();
    let ghost env0 = state.env@;
    let ghost all = strs(names@);
    let mut printed = Printed::new();
    let mut i: usize = 0;
    while i < names.len()
        invariant
            i <= names@.len(),
            names@.len() > 0,
            all == strs(names@),
            env0 == old(state).env@,
            strs(known@) == shopt_options(),
            shopt_ends(env0, all, enable),
            state.env@ == shopt_set_upto(env0, all, enable, i as int).env,
            prints(printed, shopt_set_upto(env0, all, enable, i as int).pieces, 0),
            shopt_set_upto(env0, all, enable, i as int).status == 0,
            same_but_env(*state, *old(state)),
        decreases names@.len() - i,
    {
        assert(all[i as int] == names@[i as int]@);
        if !crate::commands::resolve::lists(&known, names[i].as_str()) {
            printed.err(invalid_line(names[i].as_str()));
            printed.status = 1;
            proof {
                lemma_set_failed(env0, all, enable, i + 1, names@.len() as int);
            }
            return printed;
        }
        let value = if enable {
            "1".to_owned()
        } else {
            "0".to_owned()
        };
        state.set_var(shopt_var_name(names[i].as_str()), value);
        i = i + 1;
    }
    printed
}

fn shopt_print_options(state: &ShellState, names: &Vec<String>) -> (r: Printed)
    ensures
        ({
            let shown = if names@.len() == 0 {
                shopt_options()
            } else {
                strs(names@)
            };
            let end = shopt_print_upto(
                state.env@,
                strs(state.positional@),
                shown,
                shown.len() as int,
            );
            prints(r, end.pieces, end.status)
        }),
{
    let known = shopt_option_names();
    let shown = if names.len() == 0 {
        shopt_option_names()
    } else {
        crate::text::clone_strings(names)
    };
    let ghost env = state.env@;
    let ghost positional = strs(state.positional@);
    let ghost all = strs(shown@);
    let mut printed = Printed::new();
    let mut i: usize = 0;
    while i < shown.len()
        invariant
            i <= shown@.len(),
            all == strs(shown@),
            all == (if names@.len() == 0 {
                shopt_options()
            } else {
                strs(names@)
            }),
            env == state.env@,
            positional == strs(state.positional@),
            strs(known@) == shopt_options(),
            prints(printed, shopt_print_upto(env, positional, all, i as int).pieces, 0),
            shopt_print_upto(env, positional, all, i as int).status == 0,
        decreases shown@.len() - i,
    {
        assert(all[i as int] == shown@[i as int]@);
        let name = shown[i].as_str();
        if !crate::commands::resolve::lists(&known, name) {
            printed.err(invalid_line(name));
            printed.status = 1;
            proof {
                lemma_print_failed(env, positional, all, i + 1, shown@.len() as int);
            }
            return printed;
        }
        let on = if get_shopt_value(state, name) {
            "on"
        } else {
            "off"
        };
        printed.out(name.to_owned().concat("\t").concat(on).concat("\n"));
        i = i + 1;
    }
    printed
}

/// Carries out `shopt` with its arguments: `-s` and `-u` switch options, else they are shown.
pub fn execute_shopt(state: &mut ShellState, args: &Vec<String>) -> (r: Printed)
    requires
        ({
            let all = strs(args@);
            let n = args@.len() as int;
            shopt_mode(all, n) matches Some(enable) ==> shopt_ends(
                old(state).env@,
                shopt_names(all, n),
                enable,
            )
        }),
    ensures
        ({
            let all = strs(args@);
            let n = args@.len() as int;
            let names = shopt_names(all, n);
            match shopt_mode(all, n) {
                Some(enable) => if names.len() == 0 {
                    &&& prints(
                        r,
                        seq![(Stream::ShellStderr, "shopt: option name required\n"@)],
                        1,
                    )
                    &&& final(state).env@ == old(state).env@
                } else {
                    let end = shopt_set_upto(old(state).env@, names, enable, names.len() as int);
                    &&& prints(r, end.pieces, end.status)
                    &&& final(state).env@ == end.env
                },
                None => {
                    let shown = if names.len() == 0 {
                        shopt_options()
                    } else {
                        names
                    };
                    let end = shopt_print_upto(
                        old(state).env@,
                        strs(old(state).positional@),
                        shown,
                        shown.len() as int,
                    );
                    &&& prints(r, end.pieces, end.status)
                    &&& final(state).env@ == old(state).env@
                },
            }
        }),
        same_but_env(*final(state), *old(state)),
{
    let (mode, names) = parse_shopt_args(args);
    match mode {
        Some(enable) => shopt_set_options(state, &names, enable),
        None => shopt_print_options(state, &names),
    }
}

/// An option that is switched on is on, and one that is switched off is off, unless its variable
/// is readonly, a reference or an array.
pub proof fn law_switched_option_shows(
    env: EnvView,
    positional: Seq<Seq<char>>,
    name: Seq<char>,
    enable: bool,
)
    requires
        env.len() > 0,
        crate::vars::lookup(env, shopt_var(name)) matches Some(v) ==> !v.readonly && !v.nameref
            && !(v.value is Indexed),
    ensures
        ({
            let value = if enable {
                "1"@
            } else {
                "0"@
            };
            option_on(assign_env(env, shopt_var(name), value), positional, shopt_var(name))
                == enable
        }),
{
    let var = shopt_var(name);
    let value = if enable {
        "1"@
    } else {
        "0"@
    };
    reveal_strlit("SHOPT_");
    reveal_strlit("1");
    reveal_strlit("0");
    assert("1"@[0] != "0"@[0]);
    assert(var[0] == 'S');
    assert(crate::text::without_plus(var)[0] == 'S');
    assert(!crate::text::is_digit('S'));
    assert(crate::text::parse_unsigned(var, usize::MAX as nat) is None);
    assert(crate::state::follow(env, var, 0) == Some(var));
    crate::state::lemma_chain_end(env, var, 0);
    crate::state::law_assign_then_read(env, var, value);
    let after = assign_env(env, var, value);
    let f = crate::state::flags_of(crate::vars::lookup(env, var));
    crate::vars::law_set_then_lookup(
        env,
        var,
        crate::vars::VarView {
            value: crate::state::assigned(crate::vars::lookup(env, var), value),
            exported: f.exported || (!crate::state::is_internal_name(var)
                && crate::state::allexport_on(env)),
            readonly: false,
            integer: f.integer,
            nameref: f.nameref,
        },
    );
    assert(crate::vars::lookup(after, var)->0.nameref == false);
}

} // verus!
