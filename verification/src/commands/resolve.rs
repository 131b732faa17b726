//! What a command name stands for.
use crate::pipeline::stage::CommandFacts;
use crate::runtime::flow::{is_option_on, option_on};
use crate::state::{named_value, ShellState};
use crate::text::{join, joined, str_eq};
use crate::vars::{assoc_entries, assoc_get, EnvView};
use crate::views::{lemma_strs_push, strs};
use indexmap::IndexMap;
use vstd::prelude::*;

verus! {

/// A command that the runtime itself carries out.
#[derive(Clone, Copy, Debug, PartialEq, Eq, Structural)]
pub enum RuntimeCommandKind {
    Local,
    Break,
    Continue,
    Exit,
    Eval,
    Source,
    Declare,
    Let,
    Shopt,
    Alias,
    Unalias,
    BuiltinKeyword,
    Mapfile,
    Type,
}

/// How a utility is run.
#[derive(Clone, Copy, Debug, PartialEq, Eq, Structural)]
pub enum UtilityCommandKind {
    Plain,
    FindWithExec,
    Xargs,
}

/// What a command name stands for.
#[derive(Clone, Copy, Debug, PartialEq, Eq, Structural)]
pub enum ResolvedCommand {
    Runtime(RuntimeCommandKind),
    ShellScript,
    Function,
    Builtin,
    Utility(UtilityCommandKind),
    External,
}

/// The command of the runtime that has a name.
pub open spec fn runtime_command(name: Seq<char>) -> Option<RuntimeCommandKind> {
    if name == "local"@ {
        Some(RuntimeCommandKind::Local)
    } else if name == "break"@ {
        Some(RuntimeCommandKind::Break)
    } else if name == "continue"@ {
        Some(RuntimeCommandKind::Continue)
    } else if name == "exit"@ {
        Some(RuntimeCommandKind::Exit)
    } else if name == "eval"@ {
        Some(RuntimeCommandKind::Eval)
    } else if name == "source"@ || name == "."@ {
        Some(RuntimeCommandKind::Source)
    } else if name == "declare"@ || name == "typeset"@ {
        Some(RuntimeCommandKind::Declare)
    } else if name == "let"@ {
        Some(RuntimeCommandKind::Let)
    } else if name == "shopt"@ {
        Some(RuntimeCommandKind::Shopt)
    } else if name == "alias"@ {
        Some(RuntimeCommandKind::Alias)
    } else if name == "unalias"@ {
        Some(RuntimeCommandKind::Unalias)
    } else if name == "builtin"@ {
        Some(RuntimeCommandKind::BuiltinKeyword)
    } else if name == "mapfile"@ || name == "readarray"@ {
        Some(RuntimeCommandKind::Mapfile)
    } else if name == "type"@ {
        Some(RuntimeCommandKind::Type)
    } else {
        None
    }
}

/// The command of the runtime that has a name.
pub fn resolve_runtime_command(name: &str) -> (r: Option<RuntimeCommandKind>)
    ensures
        r == runtime_command(name@),
{
    if str_eq(name, "local") {
        Some(RuntimeCommandKind::Local)
    } else if str_eq(name, "break") {
        Some(RuntimeCommandKind::Break)
    } else if str_eq(name, "continue") {
        Some(RuntimeCommandKind::Continue)
    } else if str_eq(name, "exit") {
        Some(RuntimeCommandKind::Exit)
    } else if str_eq(name, "eval") {
        Some(RuntimeCommandKind::Eval)
    } else if str_eq(name, "source") || str_eq(name, ".") {
        Some(RuntimeCommandKind::Source)
    } else if str_eq(name, "declare") || str_eq(name, "typeset") {
        Some(RuntimeCommandKind::Declare)
    } else if str_eq(name, "let") {
        Some(RuntimeCommandKind::Let)
    } else if str_eq(name, "shopt") {
        Some(RuntimeCommandKind::Shopt)
    } else if str_eq(name, "alias") {
        Some(RuntimeCommandKind::Alias)
    } else if str_eq(name, "unalias") {
        Some(RuntimeCommandKind::Unalias)
    } else if str_eq(name, "builtin") {
        Some(RuntimeCommandKind::BuiltinKeyword)
    } else if str_eq(name, "mapfile") || str_eq(name, "readarray") {
        Some(RuntimeCommandKind::Mapfile)
    } else if str_eq(name, "type") {
        Some(RuntimeCommandKind::Type)
    } else {
        None
    }
}

/// What a command name stands for: a command of the runtime, a shell, a function, a builtin, a
/// utility, and else a command of the host.
pub open spec fn resolved(name: Seq<char>, argv: Seq<Seq<char>>, facts: CommandFacts) -> ResolvedCommand {
    if runtime_command(name) is Some {
        ResolvedCommand::Runtime(runtime_command(name)->0)
    } else if name == "bash"@ || name == "sh"@ {
        ResolvedCommand::ShellScript
    } else if facts.function {
        ResolvedCommand::Function
    } else if facts.builtin {
        ResolvedCommand::Builtin
    } else if facts.utility {
        ResolvedCommand::Utility(
            if name == "find"@ && argv.contains("-exec"@) {
                UtilityCommandKind::FindWithExec
            } else if name == "xargs"@ {
                UtilityCommandKind::Xargs
            } else {
                UtilityCommandKind::Plain
            },
        )
    } else {
        ResolvedCommand::External
    }
}

/// Whether a list of strings holds one.
pub fn lists(v: &Vec<String>, s: &str) -> (r: bool)
    ensures
        r == strs(v@).contains(s@),
{
    let ghost all = strs(v@);
    let mut i: usize = 0;
    while i < v.len()
        invariant
            i <= v@.len(),
            all == strs(v@),
            forall|j: int| 0 <= j < i ==> all[j] != s@,
        decreases v@.len() - i,
    {
        assert(all[i as int] == v@[i as int]@);
        if str_eq(v[i].as_str(), s) {
            assert(all.contains(s@));
            return true;
        }
        i = i + 1;
    }
    false
}

/// What a command name stands for.
pub fn resolve_command(name: &str, argv: &Vec<String>, facts: CommandFacts) -> (r: ResolvedCommand)
    ensures
        r == resolved(name@, strs(argv@), facts),
{
    if let Some(kind) = resolve_runtime_command(name) {
        return ResolvedCommand::Runtime(kind);
    }
    if str_eq(name, "bash") || str_eq(name, "sh") {
        return ResolvedCommand::ShellScript;
    }
    if facts.function {
        return ResolvedCommand::Function;
    }
    if facts.builtin {
        return ResolvedCommand::Builtin;
    }
    if facts.utility {
        let kind = if str_eq(name, "find") && lists(argv, "-exec") {
            UtilityCommandKind::FindWithExec
        } else if str_eq(name, "xargs") {
            UtilityCommandKind::Xargs
        } else {
            UtilityCommandKind::Plain
        };
        return ResolvedCommand::Utility(kind);
    }
    ResolvedCommand::External
}

/// A function hides a builtin of the same name, and a builtin a utility; the commands of the
/// runtime and the shells hide all of them.
pub proof fn law_resolution_order(name: Seq<char>, argv: Seq<Seq<char>>, facts: CommandFacts)
    ensures
        runtime_command(name) is Some ==> resolved(name, argv, facts) is Runtime,
        runtime_command(name) is None && name != "bash"@ && name != "sh"@ ==> {
            &&& facts.function <==> resolved(name, argv, facts) is Function
            &&& !facts.function && facts.builtin <==> resolved(name, argv, facts) is Builtin
            &&& !facts.function && !facts.builtin && facts.utility <==> resolved(
                name,
                argv,
                facts,
            ) is Utility
        },
{
}

/// The strings from a position on.
pub fn strings_from(argv: &Vec<String>, start: usize) -> (r: Vec<String>)
    requires
        start <= argv@.len(),
    ensures
        strs(r@) == strs(argv@).skip(start as int),
{
    broadcast use lemma_strs_push;
    let ghost all = strs(argv@).skip(start as int);
    let mut rest: Vec<String> = Vec::new();
    let mut i: usize = start;
    assert(strs(rest@) =~= all.take(0));
    while i < argv.len()
        invariant
            start <= i <= argv@.len(),
            all == strs(argv@).skip(start as int),
            strs(rest@) == all.take(i - start),
        decreases argv@.len() - i,
    {
        rest.push(argv[i].clone());
        proof {
            assert(all[i - start] == argv@[i as int]@);
            assert(all.take(i + 1 - start) =~= all.take(i - start).push(all[i - start]));
        }
        i = i + 1;
    }
    assert(all.take(all.len() as int) =~= all);
    rest
}

/// The arguments joined by blanks.
pub open spec fn rest_text(argv: Seq<Seq<char>>) -> Seq<char> {
    joined(argv.skip(1), " "@)
}

/// The script that `eval` runs.
pub fn eval_text(argv: &Vec<String>) -> (r: String)
    requires
        argv@.len() > 0,
    ensures
        r@ == rest_text(strs(argv@)),
{
    let rest = strings_from(argv, 1);
    join(&rest, " ")
}

/// The script that an alias stands for, with the arguments after it.
pub open spec fn alias_script(value: Seq<char>, argv: Seq<Seq<char>>) -> Seq<char> {
    if argv.len() > 1 {
        value + " "@ + rest_text(argv)
    } else {
        value
    }
}

/// The script to run instead of a command whose name is an alias; nothing where aliases are off
/// or there is none of that name.
pub fn try_alias_expansion(
    state: &ShellState,
    aliases: &IndexMap<String, String>,
    argv: &Vec<String>,
) -> (r: Option<String>)
    requires
        argv@.len() > 0,
    ensures
        ({
            let value = crate::entries::value_of(assoc_entries(*aliases), argv@[0]@);
            if option_on(state.env@, strs(state.positional@), "SHOPT_expand_aliases"@) && value
                is Some {
                r matches Some(s) && s@ == alias_script(value->0, strs(argv@))
            } else {
                r is None
            }
        }),
{
    if !is_option_on(state, "SHOPT_expand_aliases") {
        return None;
    }
    match assoc_get(aliases, argv[0].as_str()) {
        Some(value) => {
            if argv.len() > 1 {
                let rest = eval_text(argv);
                Some(value.clone().concat(" ").concat(rest.as_str()))
            } else {
                Some(value.clone())
            }
        },
        None => None,
    }
}

/// The line that traces a command, where commands are traced.
pub open spec fn traced(env: EnvView, positional: Seq<Seq<char>>, argv: Seq<Seq<char>>) -> Option<
    Seq<char>,
> {
    if option_on(env, positional, "SHOPT_x"@) {
        let prompt = match named_value(env, positional, "PS4"@) {
            Some(p) => p,
            None => "+ "@,
        };
        Some(prompt + joined(argv, " "@) + "\n"@)
    } else {
        None
    }
}

/// The line that `set -x` prints before a command, where it is on.
pub fn trace_line(state: &ShellState, argv: &Vec<String>) -> (r: Option<String>)
    ensures
        match traced(state.env@, strs(state.positional@), strs(argv@)) {
            Some(line) => r matches Some(s) && s@ == line,
            None => r is None,
        },
{
    if !is_option_on(state, "SHOPT_x") {
        return None;
    }
    let prefix = match state.get_named("PS4") {
        Some(p) => p,
        None => "+ ".to_owned(),
    };
    let text = join(argv, " ");
    Some(prefix.concat(text.as_str()).concat("\n"))
}

/// The report on a command that nobody knows; its status is 127.
pub fn not_found_line(name: &str) -> (r: String)
    ensures
        r@ == "wasmsh: "@ + name@ + ": command not found\n"@,
{
    "wasmsh: ".to_owned().concat(name).concat(": command not found\n")
}

/// The report on a variable that `set -u` misses; the status is one.
pub fn unbound_line(name: &str) -> (r: String)
    ensures
        r@ == "wasmsh: "@ + name@ + ": unbound variable\n"@,
{
    "wasmsh: ".to_owned().concat(name).concat(": unbound variable\n")
}

/// What `bash` or `sh` is asked to run.
#[derive(Debug)]
pub enum ShellScript {
    /// Nothing: there is no interactive shell.
    Nothing,
    /// The text after `-c`.
    Text(String),
    /// The file at a path.
    File(String),
}

/// Whether `r` is what a shell is asked to run.
pub open spec fn script_answers(argv: Seq<Seq<char>>, cwd: Seq<char>, r: ShellScript) -> bool {
    if argv.len() < 2 {
        r is Nothing
    } else if argv[1] == "-c"@ {
        if argv.len() > 2 {
            r matches ShellScript::Text(s) && s@ == argv[2]
        } else {
            r is Nothing
        }
    } else if crate::text::starts_with(argv[1], "/"@) {
        r matches ShellScript::File(p) && p@ == argv[1]
    } else {
        r matches ShellScript::File(p) && p@ == cwd + "/"@ + argv[1]
    }
}

/// What `bash` or `sh` is asked to run.
pub fn shell_script(argv: &Vec<String>, cwd: &str) -> (r: ShellScript)
    ensures
        script_answers(strs(argv@), cwd@, r),
{
    if argv.len() < 2 {
        return ShellScript::Nothing;
    }
    assert(strs(argv@)[1] == argv@[1]@);
    if str_eq(argv[1].as_str(), "-c") {
        if argv.len() > 2 {
            assert(strs(argv@)[2] == argv@[2]@);
            return ShellScript::Text(argv[2].clone());
        }
        return ShellScript::Nothing;
    }
    if crate::text::str_starts_with(argv[1].as_str(), "/") {
        ShellScript::File(argv[1].clone())
    } else {
        ShellScript::File(cwd.to_owned().concat("/").concat(argv[1].as_str()))
    }
}

/// The report on a script that cannot be opened; its status is 127.
pub fn no_script_line(shell: &str, path: &str) -> (r: String)
    ensures
        r@ == shell@ + ": "@ + path@ + ": No such file or directory\n"@,
{
    shell.to_owned().concat(": ").concat(path).concat(": No such file or directory\n")
}

} // verus!
