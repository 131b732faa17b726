//! What holds of the commands that the shell runs itself.
use crate::commands::alias::{
    alias_listing, alias_one, alias_upto, type_piece, type_status, unalias_one, unalias_upto,
    AliasRun, AliasView,
};
use crate::commands::assign::AssignStep;
use crate::commands::declare::{
    declare_attributes, declare_end, declare_line, declared, env_listing, flags_upto, names_upto,
    with_attributes, DeclareFlags,
};
use crate::commands::printed::Stream;
use crate::commands::resolve::{
    alias_script, resolved, runtime_command, script_answers, traced, ResolvedCommand, RuntimeCommandKind,
    ShellScript, UtilityCommandKind,
};
use crate::commands::scope::{assign_env, local_one, put_back, LocalView};
use crate::commands::shopt::{
    option_line, shopt_mode, shopt_names, shopt_options, shopt_print_upto, shopt_set_upto,
};
use crate::entries::{has_key, law_removed_key_is_gone, lemma_put, value_of};
use crate::pipeline::stage::CommandFacts;
use crate::state::{lemma_update_lookup, named_value, ShellState};
use crate::text::{joined, lowercased, trimmed, uppercased};
use crate::text_laws::law_split_at_the_first;
use crate::vars::{lookup, EnvView, ValueView, VarView};
use vstd::prelude::*;

verus! {

/// `alias name=value` defines an alias and prints nothing; the other aliases stay.
pub proof fn law_alias_is_defined(s: AliasRun, name: Seq<char>, value: Seq<char>, other: Seq<char>)
    requires
        s.status == 0,
        !name.contains('='),
        other != name,
    ensures
        ({
            let r = alias_one(s, name + seq!['='] + value);
            &&& value_of(r.entries, name) == Some(value)
            &&& value_of(r.entries, other) == value_of(s.entries, other)
            &&& r.pieces == s.pieces
            &&& r.status == 0
        }),
{
    law_split_at_the_first(name, '=', value);
    lemma_put(s.entries, name, value);
}

/// `alias name` shows the alias in the form in which it is defined, and fails for a name that has none;
/// neither changes an alias.
pub proof fn law_alias_is_shown(s: AliasRun, name: Seq<char>)
    requires
        s.status == 0,
        !name.contains('='),
    ensures
        alias_one(s, name).entries == s.entries,
        value_of(s.entries, name) matches Some(value) ==> alias_one(s, name).status == 0
            && alias_one(s, name).pieces == s.pieces.push(
            (Stream::Stdout, "alias "@ + name + "='"@ + value + "'\n"@),
        ),
        value_of(s.entries, name) is None ==> alias_one(s, name).status == 1 && alias_one(
            s,
            name,
        ).pieces == s.pieces.push((Stream::Stderr, "alias: "@ + name + ": not found\n"@)),
{
    law_split_at_the_first(name, '=', Seq::empty());
}

/// The listing of aliases has one line for each, in their order.
pub proof fn law_aliases_are_listed(entries: AliasView, i: int)
    requires
        0 <= i < entries.len(),
    ensures
        alias_listing(entries).len() == entries.len(),
        alias_listing(entries)[i] == (
            Stream::Stdout,
            "alias "@ + entries[i].0 + "='"@ + entries[i].1 + "'\n"@,
        ),
{
}

/// `unalias` takes an alias away and leaves the others, `-a` takes all away, and a name that is no alias
/// is an error.
pub proof fn law_unalias(s: AliasRun, name: Seq<char>, other: Seq<char>)
    requires
        s.status == 0,
        name != "-a"@,
        other != name,
        crate::entries::distinct_keys(s.entries),
    ensures
        unalias_one(s, "-a"@).entries.len() == 0,
        unalias_one(s, "-a"@).status == 0,
        has_key(s.entries, name) ==> {
            let r = unalias_one(s, name);
            &&& value_of(r.entries, name) is None
            &&& value_of(r.entries, other) == value_of(s.entries, other)
            &&& r.status == 0 && r.pieces == s.pieces
        },
        !has_key(s.entries, name) ==> {
            let r = unalias_one(s, name);
            &&& r.entries == s.entries
            &&& r.status == 1
            &&& r.pieces == s.pieces.push((Stream::Stderr, "unalias: "@ + name + ": not found\n"@))
        },
{
    law_removed_key_is_gone(s.entries, name);
}

/// After the first error the arguments that follow are passed over.
pub proof fn law_first_error_ends(
    entries: AliasView,
    env: EnvView,
    positional: Seq<Seq<char>>,
    args: Seq<Seq<char>>,
    enable: bool,
    m: int,
    n: int,
)
    requires
        0 <= m <= n <= args.len(),
    ensures
        alias_upto(entries, args, m).status != 0 ==> alias_upto(entries, args, n) == alias_upto(
            entries,
            args,
            m,
        ),
        unalias_upto(entries, args, m).status != 0 ==> unalias_upto(entries, args, n)
            == unalias_upto(entries, args, m),
        shopt_set_upto(env, args, enable, m).status != 0 ==> shopt_set_upto(env, args, enable, n)
            == shopt_set_upto(env, args, enable, m),
        shopt_print_upto(env, positional, args, m).status != 0 ==> shopt_print_upto(
            env,
            positional,
            args,
            n,
        ) == shopt_print_upto(env, positional, args, m),
    decreases n - m,
{
    if m < n {
        law_first_error_ends(entries, env, positional, args, enable, m, n - 1);
    }
}

/// What `type` says of a name: an alias hides a function, that a builtin, that a utility.
pub proof fn law_type_names_what_would_run(entries: AliasView, name: Seq<char>, facts: CommandFacts)
    ensures
        value_of(entries, name) matches Some(v) ==> type_piece(entries, name, facts) == (
            Stream::Stdout,
            name + " is aliased to `"@ + v + "'\n"@,
        ),
        value_of(entries, name) is None ==> {
            &&& facts.function ==> type_piece(entries, name, facts) == (
                Stream::Stdout,
                name + " is a function\n"@,
            )
            &&& !facts.function && facts.builtin ==> type_piece(entries, name, facts) == (
                Stream::Stdout,
                name + " is a shell builtin\n"@,
            )
            &&& !facts.function && !facts.builtin && facts.utility ==> type_piece(
                entries,
                name,
                facts,
            ) == (Stream::Stdout, name + " is a shell utility\n"@)
            &&& !facts.function && !facts.builtin && !facts.utility ==> type_piece(
                entries,
                name,
                facts,
            ) == (Stream::Stderr, "wasmsh: type: "@ + name + ": not found\n"@)
        },
{
}

/// Whether a name stands for anything.
pub open spec fn is_known(entries: AliasView, name: Seq<char>, facts: CommandFacts) -> bool {
    value_of(entries, name) is Some || facts.function || facts.builtin || facts.utility
}

/// `type` succeeds where every name stands for something, and else its status is one.
pub proof fn law_type_status(
    entries: AliasView,
    names: Seq<Seq<char>>,
    facts: Seq<CommandFacts>,
    n: int,
)
    requires
        0 <= n <= names.len(),
    ensures
        type_status(entries, names, facts, n) == (if forall|i: int|
            0 <= i < n ==> is_known(entries, #[trigger] names[i], facts[i]) {
            0i32
        } else {
            1
        }),
    decreases n,
{
    if n > 0 {
        law_type_status(entries, names, facts, n - 1);
        if is_known(entries, names[n - 1], facts[n - 1]) {
            if type_status(entries, names, facts, n - 1) == 0 {
                assert forall|i: int| 0 <= i < n implies is_known(
                    entries,
                    #[trigger] names[i],
                    facts[i],
                ) by {}
            }
        }
    }
}

/// The commands that the shell runs itself, by name.
pub proof fn law_own_commands(name: Seq<char>)
    ensures
        name == "local"@ ==> runtime_command(name) == Some(RuntimeCommandKind::Local),
        name == "break"@ ==> runtime_command(name) == Some(RuntimeCommandKind::Break),
        name == "continue"@ ==> runtime_command(name) == Some(RuntimeCommandKind::Continue),
        name == "exit"@ ==> runtime_command(name) == Some(RuntimeCommandKind::Exit),
        name == "eval"@ ==> runtime_command(name) == Some(RuntimeCommandKind::Eval),
        name == "source"@ || name == "."@ ==> runtime_command(name) == Some(
            RuntimeCommandKind::Source,
        ),
        name == "declare"@ || name == "typeset"@ ==> runtime_command(name) == Some(
            RuntimeCommandKind::Declare,
        ),
        name == "let"@ ==> runtime_command(name) == Some(RuntimeCommandKind::Let),
        name == "shopt"@ ==> runtime_command(name) == Some(RuntimeCommandKind::Shopt),
        name == "alias"@ ==> runtime_command(name) == Some(RuntimeCommandKind::Alias),
        name == "unalias"@ ==> runtime_command(name) == Some(RuntimeCommandKind::Unalias),
        name == "builtin"@ ==> runtime_command(name) == Some(RuntimeCommandKind::BuiltinKeyword),
        name == "mapfile"@ || name == "readarray"@ ==> runtime_command(name) == Some(
            RuntimeCommandKind::Mapfile,
        ),
        name == "type"@ ==> runtime_command(name) == Some(RuntimeCommandKind::Type),
        runtime_command(name) is Some ==> {
            ||| name == "local"@ || name == "break"@ || name == "continue"@ || name == "exit"@
            ||| name == "eval"@ || name == "source"@ || name == "."@ || name == "declare"@
            ||| name == "typeset"@ || name == "let"@ || name == "shopt"@ || name == "alias"@
            ||| name == "unalias"@ || name == "builtin"@ || name == "mapfile"@
            ||| name == "readarray"@ || name == "type"@
        },
{
    reveal_strlit("local");
    reveal_strlit("break");
    reveal_strlit("continue");
    reveal_strlit("exit");
    reveal_strlit("eval");
    reveal_strlit("source");
    reveal_strlit(".");
    reveal_strlit("declare");
    reveal_strlit("typeset");
    reveal_strlit("let");
    reveal_strlit("shopt");
    reveal_strlit("alias");
    reveal_strlit("unalias");
    reveal_strlit("builtin");
    reveal_strlit("mapfile");
    reveal_strlit("readarray");
    reveal_strlit("type");
    if name.len() > 1 {
        assert("local"@[0] == 'l' && "break"@[0] == 'b' && "exit"@[0] == 'e' && "exit"@[1] == 'x'
            && "eval"@[0] == 'e' && "eval"@[1] == 'v' && "source"@[0] == 's' && "declare"@[0]
            == 'd' && "typeset"@[0] == 't' && "let"@[0] == 'l' && "shopt"@[0] == 's' && "alias"@[0]
            == 'a' && "unalias"@[0] == 'u' && "builtin"@[0] == 'b' && "mapfile"@[0] == 'm'
            && "type"@[0] == 't');
    }
}

/// `find` with `-exec` and `xargs` run other commands; every other utility runs by itself.
pub proof fn law_utilities_that_run_commands(
    name: Seq<char>,
    argv: Seq<Seq<char>>,
    facts: CommandFacts,
)
    requires
        resolved(name, argv, facts) is Utility,
    ensures
        resolved(name, argv, facts) == ResolvedCommand::Utility(UtilityCommandKind::FindWithExec)
            <==> name == "find"@ && (exists|i: int| 0 <= i < argv.len() && argv[i] == "-exec"@),
        resolved(name, argv, facts) == ResolvedCommand::Utility(UtilityCommandKind::Xargs)
            <==> name == "xargs"@,
{
    reveal_strlit("find");
    reveal_strlit("xargs");
    assert("find"@.len() == 4 && "xargs"@.len() == 5);
}

/// The script of an alias is its value, with the arguments behind it.
pub proof fn law_alias_takes_the_arguments(
    value: Seq<char>,
    name: Seq<char>,
    args: Seq<Seq<char>>,
)
    ensures
        alias_script(value, seq![name]) == value,
        args.len() > 0 ==> alias_script(value, seq![name] + args) == value + seq![' '] + joined(
            args,
            seq![' '],
        ),
{
    reveal_strlit(" ");
    assert(" "@ =~= seq![' ']);
    assert((seq![name] + args).skip(1) =~= args);
}

/// What `sh` runs: the text after `-c`, or a file, whose path is taken from the working directory.
pub proof fn law_scripts_of_a_shell(
    name: Seq<char>,
    text: Seq<char>,
    rest: Seq<Seq<char>>,
    cwd: Seq<char>,
    r: ShellScript,
)
    ensures
        script_answers(seq![name], cwd, r) <==> r is Nothing,
        script_answers(seq![name, "-c"@], cwd, r) <==> r is Nothing,
        script_answers(seq![name, "-c"@, text] + rest, cwd, r) <==> (r matches ShellScript::Text(s)
            && s@ == text),
        text != "-c"@ ==> (script_answers(seq![name, text] + rest, cwd, r) <==> (r matches
            ShellScript::File(p) && p@ == (if text.len() > 0 && text[0] == '/' {
            text
        } else {
            cwd + seq!['/'] + text
        }))),
{
    reveal_strlit("/");
    assert("/"@ =~= seq!['/']);
    let a = seq![name, "-c"@, text] + rest;
    assert(a[1] == "-c"@ && a[2] == text);
    let b = seq![name, text] + rest;
    assert(b[1] == text);
    assert(seq![name, "-c"@][1] == "-c"@);
    if text.len() > 0 {
        assert(text.take(1)[0] == text[0]);
        if text[0] == '/' {
            assert(text.take(1) =~= "/"@);
        }
    }
}

/// Whether one of the arguments is an option that has the letter.
pub open spec fn letter_given(args: Seq<Seq<char>>, n: int, letter: char) -> bool {
    exists|i: int, j: int|
        #![trigger args[i][j]]
        0 <= i < n && 1 <= j < args[i].len() && args[i][0] == '-' && args[i][j] == letter
}

proof fn lemma_letter(args: Seq<Seq<char>>, n: int, letter: char)
    ensures
        crate::commands::declare::has_flag(args, n, letter) == letter_given(args, n, letter),
{
    if crate::commands::declare::has_flag(args, n, letter) {
        let i = choose|i: int|
            0 <= i < n && crate::commands::declare::is_flags(#[trigger] args[i])
                && args[i].skip(1).contains(letter);
        let t = args[i].skip(1);
        let j = choose|j: int| 0 <= j < t.len() && t[j] == letter;
        assert(args[i][j + 1] == letter);
    }
    if letter_given(args, n, letter) {
        let (i, j) = choose|i: int, j: int|
            #![trigger args[i][j]]
            0 <= i < n && 1 <= j < args[i].len() && args[i][0] == '-' && args[i][j] == letter;
        assert(args[i].skip(1)[j - 1] == letter);
        assert(crate::commands::declare::is_flags(args[i]));
    }
}

/// The options of `declare`, each with its letter, wherever it stands.
pub proof fn law_declare_letters(args: Seq<Seq<char>>, n: int)
    ensures
        ({
            let f = flags_upto(args, n);
            &&& f.is_assoc == letter_given(args, n, 'A')
            &&& f.is_indexed == letter_given(args, n, 'a')
            &&& f.is_integer == letter_given(args, n, 'i')
            &&& f.is_export == letter_given(args, n, 'x')
            &&& f.is_readonly == letter_given(args, n, 'r')
            &&& f.is_lower == letter_given(args, n, 'l')
            &&& f.is_upper == letter_given(args, n, 'u')
            &&& f.is_print == letter_given(args, n, 'p')
            &&& f.is_nameref == letter_given(args, n, 'n')
        }),
{
    lemma_letter(args, n, 'A');
    lemma_letter(args, n, 'a');
    lemma_letter(args, n, 'i');
    lemma_letter(args, n, 'x');
    lemma_letter(args, n, 'r');
    lemma_letter(args, n, 'l');
    lemma_letter(args, n, 'u');
    lemma_letter(args, n, 'p');
    lemma_letter(args, n, 'n');
}

/// The names of `declare` are the arguments that are no options, in their order.
pub proof fn law_declare_names(args: Seq<Seq<char>>, n: int)
    requires
        0 <= n <= args.len() <= usize::MAX,
    ensures
        forall|k: int|
            0 <= k < n ==> ((exists|j: int|
                0 <= j < names_upto(args, n).len() && names_upto(args, n)[j] == k as usize) <==> !(
            (#[trigger] args[k]).len() > 1 && args[k][0] == '-')),
        forall|i: int, j: int|
            0 <= i < j < names_upto(args, n).len() ==> #[trigger] names_upto(args, n)[i]
                < #[trigger] names_upto(args, n)[j],
        forall|j: int|
            0 <= j < names_upto(args, n).len() ==> #[trigger] names_upto(args, n)[j] < n,
    decreases n,
{
    if n > 0 {
        law_declare_names(args, n - 1);
        let before = names_upto(args, n - 1);
        let all = names_upto(args, n);
        assert forall|k: int| 0 <= k < n implies ((exists|j: int|
            0 <= j < all.len() && all[j] == k as usize) <==> !((#[trigger] args[k]).len() > 1
            && args[k][0] == '-')) by {
            if k < n - 1 {
                if exists|j: int| 0 <= j < before.len() && before[j] == k as usize {
                    let j = choose|j: int| 0 <= j < before.len() && before[j] == k as usize;
                    assert(all[j] == k as usize);
                }
                if exists|j: int| 0 <= j < all.len() && all[j] == k as usize {
                    let j = choose|j: int| 0 <= j < all.len() && all[j] == k as usize;
                    assert(j < before.len());
                    assert(before[j] == k as usize);
                }
            } else {
                if all.len() > before.len() {
                    assert(all[before.len() as int] == k as usize);
                } else if exists|j: int| 0 <= j < all.len() && all[j] == k as usize {
                    let j = choose|j: int| 0 <= j < all.len() && all[j] == k as usize;
                    assert(before[j] < n - 1);
                }
            }
        }
    }
}

/// What options do to a variable: they add what they name, take nothing away, and leave the value.
pub proof fn law_declared_attributes(env: EnvView, name: Seq<char>, flags: DeclareFlags, v: VarView)
    requires
        lookup(env, name) == Some(v),
    ensures
        lookup(declare_attributes(env, name, flags), name) matches Some(w) && w.value == v.value
            && (w.exported <==> v.exported || flags.is_export) && (w.readonly <==> v.readonly
            || flags.is_readonly) && (w.integer <==> v.integer || flags.is_integer) && w.nameref
            == v.nameref,
        !flags.is_nameref ==> declare_end(env, name, flags) == declare_attributes(env, name, flags),
        env.len() > 0 && flags.is_nameref ==> (lookup(declare_end(env, name, flags), name) matches
            Some(w) && w.nameref && w.value == ValueView::Scalar(v.value.scalar())),
{
    lemma_update_lookup(env, name, with_attributes(v, flags));
    let after = declare_attributes(env, name, flags);
    if flags.is_nameref {
        crate::vars::law_set_then_lookup(
            after,
            name,
            VarView {
                value: ValueView::Scalar(v.value.scalar()),
                exported: false,
                readonly: false,
                integer: false,
                nameref: true,
            },
        );
    }
}

/// The value that `declare name=value` gives: without blanks at its ends, in lower case with `-l`, in
/// upper case with `-u` alone.
pub proof fn law_declared_value(
    before: ShellState,
    after: ShellState,
    name: Seq<char>,
    value: Seq<char>,
    flags: DeclareFlags,
    elapsed: nat,
    r: AssignStep,
)
    requires
        !name.contains('='),
        crate::commands::assign::compound_text(value) is None,
        !flags.is_assoc,
        !flags.is_indexed,
        declared(before, after, name + seq!['='] + value, flags, elapsed, r),
    ensures
        flags.is_integer ==> after.env@ == before.env@ && (r matches AssignStep::Evaluate {
            name: n,
            expr,
        } && n@ == name && expr@ == trimmed(value)),
        !flags.is_integer ==> r is Done && after.env@ == declare_end(
            assign_env(
                before.env@,
                name,
                if flags.is_lower {
                    lowercased(trimmed(value))
                } else if flags.is_upper {
                    uppercased(trimmed(value))
                } else {
                    trimmed(value)
                },
            ),
            name,
            flags,
        ),
        after.random_seed == before.random_seed,
{
    law_split_at_the_first(name, '=', value);
}

/// The form in which a variable is shown, and that all variables of all scopes are, the outermost first.
pub proof fn law_declared_variables_are_listed(
    env: EnvView,
    name: Seq<char>,
    value: Seq<char>,
    n: int,
    i: int,
)
    requires
        0 < n <= env.len(),
        0 <= i < env[n - 1].len(),
    ensures
        declare_line(name, value) == "declare -- "@ + name + "=\""@ + value + "\"\n"@,
        env_listing(env, n).len() == env_listing(env, n - 1).len() + env[n - 1].len(),
        env_listing(env, n).take(env_listing(env, n - 1).len() as int) == env_listing(env, n - 1),
        env_listing(env, n)[env_listing(env, n - 1).len() + i] == (
            Stream::Stdout,
            declare_line(env[n - 1][i].0, env[n - 1][i].1.value.scalar()),
        ),
{
    let all = env_listing(env, n);
    let b = env_listing(env, n - 1);
    assert(all.take(b.len() as int) =~= b);
}

/// `local name=value` gives the name its value and keeps what it stood for before.
pub proof fn law_local_keeps_the_old_value(
    st: ShellState,
    v: LocalView,
    name: Seq<char>,
    value: Seq<char>,
    elapsed: nat,
)
    requires
        !name.contains('='),
    ensures
        ({
            let held = crate::state::value_in(st, v.env, v.seed, name, elapsed);
            let given = local_one(st, v, name + seq!['='] + value, elapsed);
            let bare = local_one(st, v, name, elapsed);
            &&& given.env == assign_env(v.env, name, value)
            &&& given.saved == v.saved.push((name, held))
            &&& bare.env == assign_env(v.env, name, Seq::empty())
            &&& bare.saved == v.saved.push((name, held))
        }),
{
    law_split_at_the_first(name, '=', value);
}

/// What was kept is put back from the last to the first, so of two values for one name the older stays.
pub proof fn law_older_value_is_put_back(
    env: EnvView,
    name: Seq<char>,
    older: Seq<char>,
    newer: Seq<char>,
)
    ensures
        put_back(env, seq![(name, Some(older)), (name, Some(newer))], 2) == assign_env(
            assign_env(env, name, newer),
            name,
            older,
        ),
{
    let saved = seq![(name, Some(older)), (name, Some(newer))];
    assert(saved[0] == (name, Some(older)) && saved[1] == (name, Some(newer)));
    assert(put_back(env, saved, 0) == env);
    assert(put_back(env, saved, 1) == assign_env(env, name, newer));
}

/// The last of `-s` and `-u` decides, and every other argument names an option.
pub proof fn law_shopt_arguments(args: Seq<Seq<char>>, arg: Seq<char>)
    ensures
        ({
            let more = args.push(arg);
            let n = args.len() as int;
            &&& arg == "-s"@ ==> shopt_mode(more, n + 1) == Some(true)
            &&& arg == "-u"@ ==> shopt_mode(more, n + 1) == Some(false)
            &&& arg != "-s"@ && arg != "-u"@ ==> shopt_mode(more, n + 1) == shopt_mode(args, n)
                && shopt_names(more, n + 1) == shopt_names(args, n).push(arg)
            &&& arg == "-s"@ || arg == "-u"@ ==> shopt_names(more, n + 1) == shopt_names(args, n)
        }),
        shopt_mode(args, 0) is None,
        shopt_names(args, 0).len() == 0,
{
    reveal_strlit("-s");
    reveal_strlit("-u");
    assert("-s"@[1] == 's' && "-u"@[1] == 'u');
    lemma_shopt_prefix(args, args.push(arg), args.len() as int);
}

proof fn lemma_shopt_prefix(a: Seq<Seq<char>>, b: Seq<Seq<char>>, n: int)
    requires
        0 <= n <= a.len() <= b.len(),
        forall|i: int| 0 <= i < a.len() ==> a[i] == b[i],
    ensures
        shopt_mode(a, n) == shopt_mode(b, n),
        shopt_names(a, n) == shopt_names(b, n),
    decreases n,
{
    if n > 0 {
        lemma_shopt_prefix(a, b, n - 1);
        assert(a[n - 1] == b[n - 1]);
    }
}

/// An option that the shell has is switched; one that it has not is an error, and changes nothing.
pub proof fn law_options_are_switched(
    env: EnvView,
    names: Seq<Seq<char>>,
    enable: bool,
    n: int,
)
    requires
        0 < n <= names.len(),
        shopt_set_upto(env, names, enable, n - 1).status == 0,
    ensures
        ({
            let before = shopt_set_upto(env, names, enable, n - 1);
            let after = shopt_set_upto(env, names, enable, n);
            let name = names[n - 1];
            &&& shopt_options().contains(name) ==> after.status == 0 && after.pieces
                == before.pieces && after.env == assign_env(
                before.env,
                "SHOPT_"@ + name,
                if enable {
                    "1"@
                } else {
                    "0"@
                },
            )
            &&& !shopt_options().contains(name) ==> after.status == 1 && after.env == before.env
                && after.pieces == before.pieces.push(
                (Stream::Stderr, "shopt: "@ + name + ": invalid shell option name\n"@),
            )
        }),
        shopt_set_upto(env, names, enable, 0).env == env,
        shopt_set_upto(env, names, enable, 0).status == 0,
{
}

/// The line of an option: its name, a tab, and whether it is on.
pub proof fn law_option_lines(name: Seq<char>)
    ensures
        option_line(name, true) == name + seq!['\t', 'o', 'n', '\n'],
        option_line(name, false) == name + seq!['\t', 'o', 'f', 'f', '\n'],
        shopt_options().contains("extglob"@) && shopt_options().contains("nullglob"@)
            && shopt_options().contains("dotglob"@) && shopt_options().contains("globstar"@)
            && shopt_options().contains("nocasematch"@) && shopt_options().contains("nocaseglob"@)
            && shopt_options().contains("failglob"@) && shopt_options().contains("lastpipe"@)
            && shopt_options().contains("expand_aliases"@),
        shopt_options().len() == 9,
{
    reveal_strlit("\t");
    reveal_strlit("on");
    reveal_strlit("off");
    reveal_strlit("\n");
    assert(option_line(name, true) =~= name + seq!['\t', 'o', 'n', '\n']);
    assert(option_line(name, false) =~= name + seq!['\t', 'o', 'f', 'f', '\n']);
    let o = shopt_options();
    assert(o[0] == "extglob"@ && o[1] == "nullglob"@ && o[2] == "dotglob"@ && o[3] == "globstar"@);
    assert(o[4] == "nocasematch"@ && o[5] == "nocaseglob"@ && o[6] == "failglob"@);
    assert(o[7] == "lastpipe"@ && o[8] == "expand_aliases"@);
}

/// With `set -x` a command is shown before it runs, its words behind the prompt for that; without it
/// nothing is shown.
pub proof fn law_traced_commands(
    env: EnvView,
    positional: Seq<Seq<char>>,
    argv: Seq<Seq<char>>,
)
    ensures
        named_value(env, positional, "SHOPT_x"@) != Some("1"@) ==> traced(env, positional, argv)
            is None,
        named_value(env, positional, "SHOPT_x"@) == Some("1"@) ==> traced(env, positional, argv)
            == Some(
            (match named_value(env, positional, "PS4"@) {
                Some(p) => p,
                None => seq!['+', ' '],
            }) + joined(argv, seq![' ']) + seq!['\n'],
        ),
{
    reveal_strlit("+ ");
    reveal_strlit(" ");
    reveal_strlit("\n");
    assert("+ "@ =~= seq!['+', ' ']);
    assert(" "@ =~= seq![' ']);
    assert("\n"@ =~= seq!['\n']);
}

} // verus!
