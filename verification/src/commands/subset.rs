//! Which commands may take the fast path.
use crate::commands::resolve::{resolve_command, resolved, ResolvedCommand};
use crate::entries::has_key;
use crate::pipeline::stage::CommandFacts;
use crate::runtime::flow::{is_option_on, option_on};
use crate::state::ShellState;
use crate::text::{contains_char, ends_with, str_ends_with};
use crate::vars::{assoc_entries, assoc_get, EnvView};
use crate::views::strs;
use crate::words::{
    literal_word_text, parts_have_magic, parts_need_expansion, parts_need_shell, parts_supported,
    parts_text, vm_supported_word, vm_word_requires_full_shell_execution,
    word_has_brace_or_glob_literal, word_parts_require_runtime_expansion, Word,
};
use indexmap::IndexMap;
use vstd::prelude::*;

verus! {

/// Why a command does not take the fast path.
#[derive(Clone, Copy, Debug, PartialEq, Eq, Structural)]
pub enum VmSubsetFallbackReason {
    /// The fast path is switched off.
    Disabled,
    /// More than one command in the pipeline, or a negated one.
    PipelineShape,
    /// A command that is neither an assignment nor a simple one.
    CommandKind,
    AssignmentShape,
    CommandEnvPrefixes,
    UnsupportedWord,
    UnsupportedRedirection,
    ShellExpansion,
    AliasExpansion,
    NonBuiltinCommand,
}

/// What a redirection does.
#[derive(Clone, Copy, Debug, PartialEq, Eq, Structural)]
pub enum RedirectionOp {
    Input,
    Output,
    Append,
    HereDoc,
    HereDocStrip,
    HereString,
    DupOutput,
    DupInput,
    ReadWrite,
}

/// A redirection as it is written.
#[derive(Debug)]
pub struct Redirection {
    pub op: RedirectionOp,
    pub fd: Option<u32>,
    pub target: Word,
    pub has_here_doc: bool,
}

/// An assignment as it is written.
#[derive(Debug)]
pub struct Assignment {
    pub name: String,
    pub value: Option<Word>,
}

/// A command as it is written, as far as the fast path asks.
#[derive(Debug)]
pub enum Command {
    Assign { assignments: Vec<Assignment>, redirections: Vec<Redirection> },
    Exec { env: Vec<Assignment>, argv: Vec<Word>, redirections: Vec<Redirection> },
    Other,
}

/// A pipeline as it is written.
#[derive(Debug)]
pub struct Pipeline {
    pub negated: bool,
    pub commands: Vec<Command>,
}

/// Whether the fast path can assign to a name: no element of an array, no appending.
pub open spec fn name_supported(name: Seq<char>) -> bool {
    !name.contains('[') && !ends_with(name, "+"@)
}

/// Whether the fast path can assign to a name.
pub fn vm_supported_assignment_name(name: &str) -> (r: bool)
    ensures
        r == name_supported(name@),
{
    !contains_char(name, '[') && !str_ends_with(name, "+")
}

/// Whether the fast path can make an assignment.
pub open spec fn assignment_supported(a: Assignment) -> bool {
    name_supported(a.name@) && (a.value matches Some(w) ==> parts_supported(w.parts@))
}

/// Whether the fast path can do a redirection: standard output to a file.
pub open spec fn redirection_supported(r: Redirection) -> bool {
    &&& r.op == RedirectionOp::Output || r.op == RedirectionOp::Append
    &&& r.fd is None || r.fd == Some(1u32)
    &&& !r.has_here_doc
    &&& parts_supported(r.target.parts@)
}

/// Whether the fast path can do a redirection.
pub fn vm_supported_redirection(r: &Redirection) -> (b: bool)
    ensures
        b == redirection_supported(*r),
{
    let writes: bool = match r.op {
        RedirectionOp::Output => true,
        RedirectionOp::Append => true,
        _ => false,
    };
    let stdout: bool = match r.fd {
        Some(fd) => fd == 1,
        None => true,
    };
    writes && stdout && !r.has_here_doc && vm_supported_word(&r.target)
}

/// What the shell knows that decides about the fast path.
pub struct SubsetContext {
    pub env: EnvView,
    pub positional: Seq<Seq<char>>,
    pub aliases: Seq<(Seq<char>, Seq<char>)>,
    pub facts: CommandFacts,
}

/// Whether a command may take the fast path, or the first reason why not.
pub open spec fn command_verdict(cmd: Command, x: SubsetContext) -> Result<
    (),
    VmSubsetFallbackReason,
> {
    match cmd {
        Command::Assign { assignments, redirections } => if redirections@.len() == 0 && (
        forall|i: int|
            0 <= i < assignments@.len() ==> assignment_supported(#[trigger] assignments@[i])) {
            Ok(())
        } else {
            Err(VmSubsetFallbackReason::AssignmentShape)
        },
        Command::Exec { env, argv, redirections } => if env@.len() > 0 {
            Err(VmSubsetFallbackReason::CommandEnvPrefixes)
        } else if argv@.len() == 0 || !(forall|i: int|
            0 <= i < argv@.len() ==> parts_supported((#[trigger] argv@[i]).parts@)) {
            Err(VmSubsetFallbackReason::UnsupportedWord)
        } else if !(forall|i: int|
            0 <= i < redirections@.len() ==> redirection_supported(#[trigger] redirections@[i])) {
            Err(VmSubsetFallbackReason::UnsupportedRedirection)
        } else if option_on(x.env, x.positional, "SHOPT_x"@) || (exists|i: int|
            0 <= i < argv@.len() && parts_need_shell((#[trigger] argv@[i]).parts@)) {
            Err(VmSubsetFallbackReason::ShellExpansion)
        } else {
            match parts_text(argv@[0].parts, argv@[0].parts.len() as nat) {
                None => Err(VmSubsetFallbackReason::UnsupportedWord),
                Some(name) => if option_on(x.env, x.positional, "SHOPT_expand_aliases"@)
                    && has_key(x.aliases, name) {
                    Err(VmSubsetFallbackReason::AliasExpansion)
                } else if resolved(name, seq![name], x.facts) == ResolvedCommand::Builtin {
                    Ok(())
                } else {
                    Err(VmSubsetFallbackReason::NonBuiltinCommand)
                },
            }
        },
        Command::Other => Err(VmSubsetFallbackReason::CommandKind),
    }
}

fn assignments_supported(v: &Vec<Assignment>) -> (r: bool)
    ensures
        r == (forall|i: int| 0 <= i < v@.len() ==> assignment_supported(#[trigger] v@[i])),
{
    let mut i: usize = 0;
    while i < v.len()
        invariant
            i <= v@.len(),
            forall|j: int| 0 <= j < i ==> assignment_supported(#[trigger] v@[j]),
        decreases v@.len() - i,
    {
        let a = &v[i];
        let value_ok: bool = match &a.value {
            Some(w) => vm_supported_word(w),
            None => true,
        };
        if !vm_supported_assignment_name(a.name.as_str()) || !value_ok {
            assert(!assignment_supported(v@[i as int]));
            return false;
        }
        i = i + 1;
    }
    true
}

fn words_supported(v: &Vec<Word>) -> (r: bool)
    ensures
        r == (forall|i: int| 0 <= i < v@.len() ==> parts_supported((#[trigger] v@[i]).parts@)),
{
    let mut i: usize = 0;
    while i < v.len()
        invariant
            i <= v@.len(),
            forall|j: int| 0 <= j < i ==> parts_supported((#[trigger] v@[j]).parts@),
        decreases v@.len() - i,
    {
        if !vm_supported_word(&v[i]) {
            assert(!parts_supported(v@[i as int].parts@));
            return false;
        }
        i = i + 1;
    }
    true
}

fn redirections_supported(v: &Vec<Redirection>) -> (r: bool)
    ensures
        r == (forall|i: int| 0 <= i < v@.len() ==> redirection_supported(#[trigger] v@[i])),
{
    let mut i: usize = 0;
    while i < v.len()
        invariant
            i <= v@.len(),
            forall|j: int| 0 <= j < i ==> redirection_supported(#[trigger] v@[j]),
        decreases v@.len() - i,
    {
        if !vm_supported_redirection(&v[i]) {
            assert(!redirection_supported(v@[i as int]));
            return false;
        }
        i = i + 1;
    }
    true
}

fn words_need_shell(v: &Vec<Word>) -> (r: bool)
    ensures
        r == (exists|i: int| 0 <= i < v@.len() && parts_need_shell((#[trigger] v@[i]).parts@)),
{
    let mut i: usize = 0;
    while i < v.len()
        invariant
            i <= v@.len(),
            forall|j: int| 0 <= j < i ==> !parts_need_shell((#[trigger] v@[j]).parts@),
        decreases v@.len() - i,
    {
        if vm_word_requires_full_shell_execution(&v[i]) {
            return true;
        }
        i = i + 1;
    }
    false
}

fn words_need_expansion(v: &Vec<Word>) -> (r: bool)
    ensures
        r == (exists|i: int| 0 <= i < v@.len() && parts_need_expansion((#[trigger] v@[i]).parts@)),
{
    let mut i: usize = 0;
    while i < v.len()
        invariant
            i <= v@.len(),
            forall|j: int| 0 <= j < i ==> !parts_need_expansion((#[trigger] v@[j]).parts@),
        decreases v@.len() - i,
    {
        if word_parts_require_runtime_expansion(&v[i].parts) {
            return true;
        }
        i = i + 1;
    }
    false
}

fn words_have_magic(v: &Vec<Word>) -> (r: bool)
    ensures
        r == (exists|i: int| 0 <= i < v@.len() && parts_have_magic((#[trigger] v@[i]).parts@)),
{
    let mut i: usize = 0;
    while i < v.len()
        invariant
            i <= v@.len(),
            forall|j: int| 0 <= j < i ==> !parts_have_magic((#[trigger] v@[j]).parts@),
        decreases v@.len() - i,
    {
        if word_has_brace_or_glob_literal(&v[i]) {
            return true;
        }
        i = i + 1;
    }
    false
}

/// Whether a command may take the fast path, or the first reason why not. The facts are those of
/// the command's name, where it is literal.
pub fn validate_vm_subset_command(
    cmd: &Command,
    state: &ShellState,
    aliases: &IndexMap<String, String>,
    facts: CommandFacts,
) -> (r: Result<(), VmSubsetFallbackReason>)
    ensures
        r == command_verdict(
            *cmd,
            SubsetContext {
                env: state.env@,
                positional: strs(state.positional@),
                aliases: assoc_entries(*aliases),
                facts,
            },
        ),
{
    match cmd {
        Command::Assign { assignments, redirections } => {
            if redirections.len() > 0 || !assignments_supported(assignments) {
                return Err(VmSubsetFallbackReason::AssignmentShape);
            }
            Ok(())
        },
        Command::Exec { env, argv, redirections } => {
            if env.len() > 0 {
                return Err(VmSubsetFallbackReason::CommandEnvPrefixes);
            }
            if argv.len() == 0 || !words_supported(argv) {
                return Err(VmSubsetFallbackReason::UnsupportedWord);
            }
            if !redirections_supported(redirections) {
                return Err(VmSubsetFallbackReason::UnsupportedRedirection);
            }
            if is_option_on(state, "SHOPT_x") || words_need_shell(argv) {
                return Err(VmSubsetFallbackReason::ShellExpansion);
            }
            match literal_word_text(&argv[0]) {
                None => Err(VmSubsetFallbackReason::UnsupportedWord),
                Some(name) => {
                    if is_option_on(state, "SHOPT_expand_aliases") && assoc_get(
                        aliases,
                        name.as_str(),
                    ).is_some() {
                        return Err(VmSubsetFallbackReason::AliasExpansion);
                    }
                    let ghost n = name@;
                    let mut one: Vec<String> = Vec::new();
                    one.push(name.clone());
                    assert(strs(one@) =~= seq![n]);
                    if resolve_command(name.as_str(), &one, facts) == ResolvedCommand::Builtin {
                        Ok(())
                    } else {
                        Err(VmSubsetFallbackReason::NonBuiltinCommand)
                    }
                },
            }
        },
        Command::Other => Err(VmSubsetFallbackReason::CommandKind),
    }
}

/// Whether a pipeline may take the fast path: it is one command, not negated, that may.
pub open spec fn pipeline_verdict(p: Pipeline, x: SubsetContext) -> Result<
    (),
    VmSubsetFallbackReason,
> {
    if p.negated || p.commands@.len() != 1 {
        Err(VmSubsetFallbackReason::PipelineShape)
    } else {
        command_verdict(p.commands@[0], x)
    }
}

/// Whether pipelines joined by `&&` and `||` may take the fast path: all of them may, and it is
/// switched on.
pub open spec fn and_or_verdict(
    enabled: bool,
    pipelines: Seq<Pipeline>,
    xs: Seq<SubsetContext>,
    n: int,
) -> Result<(), VmSubsetFallbackReason>
    decreases n,
{
    if !enabled {
        Err(VmSubsetFallbackReason::Disabled)
    } else if n <= 0 {
        Ok(())
    } else {
        match and_or_verdict(enabled, pipelines, xs, n - 1) {
            Err(e) => Err(e),
            Ok(()) => pipeline_verdict(pipelines[n - 1], xs[n - 1]),
        }
    }
}

/// What decides about each pipeline: the state is the same, the facts are those of its command.
pub open spec fn contexts(
    state: ShellState,
    aliases: Seq<(Seq<char>, Seq<char>)>,
    facts: Seq<CommandFacts>,
) -> Seq<SubsetContext> {
    facts.map_values(
        |f: CommandFacts|
            SubsetContext {
                env: state.env@,
                positional: strs(state.positional@),
                aliases,
                facts: f,
            },
    )
}

proof fn lemma_verdict_err(
    enabled: bool,
    pipelines: Seq<Pipeline>,
    xs: Seq<SubsetContext>,
    n: int,
    m: int,
)
    requires
        0 <= n <= m,
        and_or_verdict(enabled, pipelines, xs, n) is Err,
    ensures
        and_or_verdict(enabled, pipelines, xs, m) == and_or_verdict(enabled, pipelines, xs, n),
    decreases m - n,
{
    if n < m {
        lemma_verdict_err(enabled, pipelines, xs, n, m - 1);
    }
}

/// Whether pipelines joined by `&&` and `||` may take the fast path, or the first reason why not.
pub fn lower_vm_subset_and_or(
    enabled: bool,
    pipelines: &Vec<Pipeline>,
    state: &ShellState,
    aliases: &IndexMap<String, String>,
    facts: &Vec<CommandFacts>,
) -> (r: Result<(), VmSubsetFallbackReason>)
    requires
        facts@.len() == pipelines@.len(),
    ensures
        r == and_or_verdict(
            enabled,
            pipelines@,
            contexts(*state, assoc_entries(*aliases), facts@),
            pipelines@.len() as int,
        ),
{
    let ghost xs = contexts(*state, assoc_entries(*aliases), facts@);
    if !enabled {
        return Err(VmSubsetFallbackReason::Disabled);
    }
    let mut i: usize = 0;
    while i < pipelines.len()
        invariant
            i <= pipelines@.len(),
            facts@.len() == pipelines@.len(),
            enabled,
            xs == contexts(*state, assoc_entries(*aliases), facts@),
            and_or_verdict(enabled, pipelines@, xs, i as int) is Ok,
        decreases pipelines@.len() - i,
    {
        let p = &pipelines[i];
        let verdict = if p.negated || p.commands.len() != 1 {
            Err(VmSubsetFallbackReason::PipelineShape)
        } else {
            validate_vm_subset_command(&p.commands[0], state, aliases, facts[i])
        };
        assert(verdict == pipeline_verdict(pipelines@[i as int], xs[i as int]));
        match verdict {
            Ok(()) => {},
            Err(e) => {
                proof {
                    lemma_verdict_err(enabled, pipelines@, xs, i + 1, pipelines@.len() as int);
                }
                return Err(e);
            },
        }
        i = i + 1;
    }
    Ok(())
}

/// Whether the words of a simple command take more than removing quotes.
pub fn command_requires_runtime_expansion(cmd: &Command) -> (r: bool)
    ensures
        r == (match *cmd {
            Command::Exec { env, argv, redirections } => exists|i: int|
                0 <= i < argv@.len() && parts_need_expansion((#[trigger] argv@[i]).parts@),
            _ => false,
        }),
{
    match cmd {
        Command::Exec { env: _, argv, redirections: _ } => words_need_expansion(argv),
        _ => false,
    }
}

/// Whether a command that stands alone is run by the full shell: commands are traced, or its
/// words may be subject to brace or pathname expansion.
pub fn command_needs_full_single_stage_execution(cmd: &Command, state: &ShellState) -> (r: bool)
    ensures
        r == (option_on(state.env@, strs(state.positional@), "SHOPT_x"@) || match *cmd {
            Command::Exec { env, argv, redirections } => exists|i: int|
                0 <= i < argv@.len() && parts_have_magic((#[trigger] argv@[i]).parts@),
            _ => false,
        }),
{
    if is_option_on(state, "SHOPT_x") {
        return true;
    }
    match cmd {
        Command::Exec { env: _, argv, redirections: _ } => words_have_magic(argv),
        _ => false,
    }
}

/// A command that takes the fast path is an assignment, or a builtin that no alias hides and
/// whose words need no expansion that only the full shell does.
pub proof fn law_fast_path_is_plain(cmd: Command, x: SubsetContext)
    requires
        command_verdict(cmd, x) is Ok,
    ensures
        cmd is Assign || cmd is Exec,
        cmd matches Command::Exec { env, argv, redirections } ==> {
            &&& env@.len() == 0
            &&& argv@.len() > 0
            &&& !option_on(x.env, x.positional, "SHOPT_x"@)
            &&& forall|i: int|
                0 <= i < argv@.len() ==> !parts_need_shell((#[trigger] argv@[i]).parts@)
            &&& x.facts.builtin && !x.facts.function
        },
{
}

} // verus!
