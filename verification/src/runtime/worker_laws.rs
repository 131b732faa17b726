//! What holds of how a host and a shell answer each other.
use crate::commands::alias::{type_piece, type_upto, AliasView};
use crate::commands::declare::{declare_line, declared_upto};
use crate::commands::printed::Stream;
use crate::commands::resolve::{resolved, ResolvedCommand};
use crate::commands::scope::{local_one, locals_upto, too_deep};
use crate::commands::subset::{
    and_or_verdict, assignment_supported, command_verdict, pipeline_verdict, redirection_supported,
    Assignment, Command, Pipeline, Redirection, RedirectionOp, SubsetContext,
    VmSubsetFallbackReason,
};
use crate::entries::{has_key, lemma_key_index_is};
use crate::pipeline::process::{read_error_message, staging_error_message, tee_error_message};
use crate::pipeline::stage::CommandFacts;
use crate::runtime::flow::{option_on, prefix_of, undisturbed, ExecState};
use crate::runtime::protocol::{
    list_answer, parse_error_text, read_answer, write_answer, DiagnosticLevel, EventView,
    ReadFailure,
};
use crate::runtime::worker::{
    initial_env, replies, restarted, signal_answer, stop_message, terminate_message, Request,
    WorkerRuntime,
};
use crate::signals::RuntimeSignalSpec;
use crate::state::{named_value, readonly_message, ShellState};
use crate::text::{before_char, joined};
use crate::vars::{lemma_scope_of_is, lookup, plain_var, EnvView, ValueView};
use crate::views::strs;
use crate::words::{parts_need_shell, parts_supported, parts_text};
use vstd::prelude::*;
use vstd::utf8::encode_utf8;

verus! {

/// A shell starts with extended patterns and aliases switched on, and without any other variable.
pub proof fn law_variables_at_the_start(name: Seq<char>)
    ensures
        name == "SHOPT_extglob"@ || name == "SHOPT_expand_aliases"@ ==> lookup(
            initial_env(),
            name,
        ) == Some(plain_var(ValueView::Scalar("1"@))),
        name != "SHOPT_extglob"@ && name != "SHOPT_expand_aliases"@ ==> lookup(initial_env(), name)
            is None,
{
    reveal_strlit("SHOPT_extglob");
    reveal_strlit("SHOPT_expand_aliases");
    assert("SHOPT_extglob"@.len() == 13 && "SHOPT_expand_aliases"@.len() == 20);
    let env = initial_env();
    let g = env[0];
    assert(env.len() == 1 && g.len() == 2);
    assert(g[0].0 == "SHOPT_extglob"@ && g[1].0 == "SHOPT_expand_aliases"@);
    if name == "SHOPT_extglob"@ {
        lemma_key_index_is(g, name, 0);
        lemma_scope_of_is(env, name, 0);
    } else if name == "SHOPT_expand_aliases"@ {
        lemma_key_index_is(g, name, 1);
        lemma_scope_of_is(env, name, 0);
    } else {
        lemma_key_index_is(g, name, 2);
        assert(!has_key(g, name));
        lemma_scope_of_is(env, name, -1);
    }
}

/// After a restart nothing is left of what ran before: no parameters, no output, no aliases, no script,
/// the root as the working directory, and the limits and hosts that were asked for.
pub proof fn law_restart(
    before: WorkerRuntime,
    after: WorkerRuntime,
    step_budget: u64,
    hosts: Seq<Seq<char>>,
)
    requires
        restarted(before, after, step_budget, hosts),
    ensures
        after.initialized,
        after.config.step_budget == step_budget,
        strs(after.config.allowed_hosts@) == hosts,
        after.config.output_byte_limit == before.config.output_byte_limit,
        after.state.positional@.len() == 0,
        after.state.last_status == 0,
        after.state.cwd@ == seq!['/'],
        after.console@.stdout.len() == 0 && after.console@.stderr.len() == 0,
        after.console@.output_bytes == 0 && !after.console@.resource_exhausted,
        after.console@.output_limit == before.config.output_byte_limit,
        after.flow.exit_requested is None && after.flow.break_depth == 0,
        !after.flow.loop_continue && !after.flow.expansion_failed && !after.flow.errexit_suppressed,
        after.active_run is None && !after.cancelled && after.diagnostics@.len() == 0,
{
    reveal_strlit("/");
    assert("/"@ =~= seq!['/']);
}

/// What the host is told of a signal: the handler runs where there is one; one that ends the shell makes
/// it exit with its number and that of signals, at once where nothing runs; one that would stop it is
/// answered with a warning; and one that is ignored with nothing.
pub proof fn law_signals_are_answered(
    w: WorkerRuntime,
    spec: RuntimeSignalSpec,
    r: Request,
    exit: Option<i32>,
)
    requires
        signal_answer(w, spec, r, exit),
        0 < spec.number < 64,
    ensures
        ({
            let env = w.state.env@;
            let positional = strs(w.state.positional@);
            let handler = named_value(env, positional, spec.handler_var@);
            let trapped = spec.trappable && (handler matches Some(h) && h.len() > 0);
            let ignored = spec.trappable && option_on(env, positional, spec.ignore_var@);
            let free = !trapped && !ignored;
            &&& trapped ==> (r matches Request::RunHandler(h) && Some(h@) == handler) && exit
                == w.flow.exit_requested
            &&& !trapped && ignored ==> replies(r, Seq::empty()) && exit == w.flow.exit_requested
            &&& free && spec.default_action is Terminate ==> exit == Some(
                (128 + spec.number) as i32,
            ) && (w.active_run is None ==> r is Finish) && (w.active_run is Some ==> replies(
                r,
                seq![
                    EventView::Diagnostic(
                        DiagnosticLevel::Info,
                        "signal "@ + spec.name@ + " received"@,
                    ),
                ],
            ))
            &&& free && spec.default_action is StopLike ==> exit == w.flow.exit_requested
                && replies(
                r,
                seq![
                    EventView::Diagnostic(
                        DiagnosticLevel::Warning,
                        "signal "@ + spec.name@
                            + ": job-control stop semantics are not supported"@,
                    ),
                ],
            )
            &&& free && (spec.default_action is Ignore || spec.default_action is ContinueLike)
                ==> exit == w.flow.exit_requested && replies(r, Seq::empty())
        }),
{
}

/// The text up to a byte of a script; its newlines number the lines.
pub proof fn law_text_before_an_offset(input: Seq<char>, offset: int)
    requires
        0 <= offset,
    ensures
        offset <= encode_utf8(input).len() ==> prefix_of(input, offset) == encode_utf8(input).take(
            offset,
        ),
        offset >= encode_utf8(input).len() ==> prefix_of(input, offset) == encode_utf8(input),
        prefix_of(input, 0).len() == 0,
{
    let b = encode_utf8(input);
    assert(b.take(b.len() as int) =~= b);
}

/// The messages of the shell, each with what it is about.
pub proof fn law_messages(name: Seq<char>, err: Seq<char>)
    ensures
        parse_error_text(err) == "wasmsh: parse error: "@ + err + "\n"@,
        readonly_message(name) == name + ": readonly variable"@,
        too_deep() == "wasmsh: maximum recursion depth exceeded\n"@,
        tee_error_message(name, err) == "tee: "@ + name + ": "@ + err + "\n"@,
        read_error_message(name, err) == "wasmsh: "@ + name + ": streaming pipeline read error: "@
            + err + "\n"@,
        staging_error_message(name, err) == "wasmsh: "@ + name
            + ": failed to stage pipeline input for streaming: "@ + err + "\n"@,
        stop_message(name) == "signal "@ + name
            + ": job-control stop semantics are not supported"@,
        terminate_message(name) == "signal "@ + name + " received"@,
{
}

/// The names of one `type` are answered in order, one line each, and so are those of `declare -p` that
/// are set; the names of one `local` are taken in order.
pub proof fn law_names_are_answered_in_order(
    entries: AliasView,
    names: Seq<Seq<char>>,
    facts: Seq<CommandFacts>,
    env: EnvView,
    args: Seq<Seq<char>>,
    places: Seq<usize>,
    st: ShellState,
    saved: Seq<(Seq<char>, Option<Seq<char>>)>,
    elapsed: nat,
    n: int,
)
    requires
        n > 0,
    ensures
        type_upto(entries, names, facts, n) == type_upto(entries, names, facts, n - 1).push(
            type_piece(entries, names[n - 1], facts[n - 1]),
        ),
        type_upto(entries, names, facts, 0).len() == 0,
        ({
            let name = before_char(args[places[n - 1] as int], '=');
            let before = declared_upto(env, args, places, n - 1);
            &&& lookup(env, name) matches Some(v) ==> declared_upto(env, args, places, n)
                == before.push((Stream::Stdout, declare_line(name, v.value.scalar())))
            &&& lookup(env, name) is None ==> declared_upto(env, args, places, n) == before
        }),
        locals_upto(st, saved, args, elapsed, n) == local_one(
            st,
            locals_upto(st, saved, args, elapsed, n - 1),
            args[n - 1],
            elapsed,
        ),
        locals_upto(st, saved, args, elapsed, 0).env == st.env@,
        locals_upto(st, saved, args, elapsed, 0).saved == saved,
{
}

/// A list takes the fast path where that is switched on and each of its pipelines is one command that is
/// not negated and may take it; the reason of the first that may not is given.
pub proof fn law_fast_path_of_lists(pipelines: Seq<Pipeline>, xs: Seq<SubsetContext>, n: int)
    requires
        0 <= n <= pipelines.len(),
    ensures
        and_or_verdict(false, pipelines, xs, n) == Err::<(), _>(VmSubsetFallbackReason::Disabled),
        and_or_verdict(true, pipelines, xs, n) is Ok <==> forall|i: int|
            0 <= i < n ==> !(#[trigger] pipelines[i]).negated && pipelines[i].commands@.len() == 1
                && command_verdict(pipelines[i].commands@[0], xs[i]) is Ok,
        n > 0 && (pipelines[n - 1].negated || pipelines[n - 1].commands@.len() != 1)
            && and_or_verdict(true, pipelines, xs, n - 1) is Ok ==> and_or_verdict(
            true,
            pipelines,
            xs,
            n,
        ) == Err::<(), _>(VmSubsetFallbackReason::PipelineShape),
        n > 0 && and_or_verdict(true, pipelines, xs, n - 1) is Err ==> and_or_verdict(
            true,
            pipelines,
            xs,
            n,
        ) == and_or_verdict(true, pipelines, xs, n - 1),
    decreases n,
{
    if n > 0 {
        law_fast_path_of_lists(pipelines, xs, n - 1);
        if and_or_verdict(true, pipelines, xs, n - 1) is Ok && pipeline_verdict(
            pipelines[n - 1],
            xs[n - 1],
        ) is Ok {
            assert forall|i: int| 0 <= i < n implies !(#[trigger] pipelines[i]).negated
                && pipelines[i].commands@.len() == 1 && command_verdict(
                pipelines[i].commands@[0],
                xs[i],
            ) is Ok by {}
        }
    }
}

/// A command takes the fast path exactly where it is a builtin with words and redirections that need no
/// shell, no variables of its own, no tracing and no alias.
pub proof fn law_fast_path_of_a_command(cmd: Command, x: SubsetContext)
    ensures
        cmd is Other ==> command_verdict(cmd, x) == Err::<(), _>(
            VmSubsetFallbackReason::CommandKind,
        ),
        cmd matches Command::Exec { env, argv, redirections } ==> (command_verdict(cmd, x) is Ok
            <==> {
            &&& env@.len() == 0
            &&& argv@.len() > 0
            &&& forall|i: int| 0 <= i < argv@.len() ==> parts_supported((#[trigger] argv@[i]).parts@)
            &&& forall|i: int|
                0 <= i < redirections@.len() ==> redirection_supported(#[trigger] redirections@[i])
            &&& named_value(x.env, x.positional, "SHOPT_x"@) != Some("1"@)
            &&& forall|i: int|
                0 <= i < argv@.len() ==> !parts_need_shell((#[trigger] argv@[i]).parts@)
            &&& parts_text(argv@[0].parts, argv@[0].parts.len() as nat) matches Some(name)
                && !(named_value(x.env, x.positional, "SHOPT_expand_aliases"@) == Some("1"@)
                && has_key(x.aliases, name)) && resolved(name, seq![name], x.facts)
                == ResolvedCommand::Builtin
        }),
        cmd matches Command::Assign { assignments, redirections } ==> (command_verdict(cmd, x) is Ok
            <==> redirections@.len() == 0 && forall|i: int|
            0 <= i < assignments@.len() ==> assignment_supported(#[trigger] assignments@[i])),
{
}

/// Which redirections and assignments the fast path takes: the standard output to a file, and variables
/// that are no elements and are not appended to.
pub proof fn law_fast_path_parts(r: Redirection, a: Assignment)
    ensures
        redirection_supported(r) ==> r.op == RedirectionOp::Output || r.op == RedirectionOp::Append,
        redirection_supported(r) ==> (r.fd matches Some(fd) ==> fd == 1) && !r.has_here_doc,
        assignment_supported(a) ==> !a.name@.contains('[') && !(a.name@.len() > 0 && a.name@.last()
            == '+'),
        (r.op == RedirectionOp::Output || r.op == RedirectionOp::Append) && r.fd is None
            && !r.has_here_doc && parts_supported(r.target.parts@) ==> redirection_supported(r),
        a.value is None && !a.name@.contains('[') && a.name@.len() > 0 && a.name@.last() != '+'
            ==> assignment_supported(a),
{
    reveal_strlit("+");
    let n = a.name@;
    if n.len() > 0 {
        assert(n.skip(n.len() - 1)[0] == n.last());
        if n.last() == '+' {
            assert(n.skip(n.len() - 1) =~= "+"@);
        }
    }
    assert("+"@[0] == '+');
}

/// A flow that nothing disturbs goes on with the next command.
pub proof fn law_undisturbed_flow(e: ExecState)
    ensures
        undisturbed(e) ==> !crate::runtime::flow::loop_stops(e) && !e.loop_continue
            && e.exit_requested is None,
{
}

/// The files of the shell as the host sees them: a file that can be read is told as it is, names one in a
/// line, a file that was written by its path, and whatever fails as an error that says why.
pub proof fn law_files_are_told(path: Seq<char>, data: Vec<u8>, names: Vec<String>, e: String)
    ensures
        read_answer(path, Ok(data)) == EventView::Stdout(data@),
        read_answer(path, Err(ReadFailure::Open(e))) == EventView::Diagnostic(
            DiagnosticLevel::Error,
            "read error: "@ + e@,
        ),
        read_answer(path, Err(ReadFailure::Read(e))) == EventView::Diagnostic(
            DiagnosticLevel::Error,
            "read error: "@ + path + ": "@ + e@,
        ),
        write_answer(path, Ok(())) == EventView::FsChanged(path),
        write_answer(path, Err(e)) == EventView::Diagnostic(
            DiagnosticLevel::Error,
            "write error: "@ + e@,
        ),
        list_answer(Ok(names)) == EventView::Stdout(
            encode_utf8(joined(strs(names@), seq!['\n'])),
        ),
        list_answer(Err(e)) == EventView::Diagnostic(
            DiagnosticLevel::Error,
            "readdir error: "@ + e@,
        ),
{
    reveal_strlit("\n");
    assert("\n"@ =~= seq!['\n']);
}

} // verus!
