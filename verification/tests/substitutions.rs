//! Substitutions, stages that stand alone, network replies and options of pathname expansion.
use wasmsh::external::{
    external_answer, ChunkReader, ExternalCommandResult, ExternalCommandStdin,
};
use wasmsh::fd_table::{ExecIo, InputTarget};
use wasmsh::fetch::{fetch_result, FetchOutcome, FetchReply, NetworkError};
use wasmsh::globs::glob_options;
use wasmsh::pipeline::network::Network;
use wasmsh::pipeline::process::{BufferedProcess, PipeProcessPoll};
use wasmsh::pipeline::stage::{
    command_label, compile_pipeline_stage, stage_args_readable, uses_native_pipe_scheduler,
    BufferedPipelineCommand, CommandFacts, StreamingPipelineStage,
};
use wasmsh::redirect::{
    collect_stdin_from_redirections, ResolvedRedirection, SourceKind,
};
use wasmsh::runtime::isolated::PendingSubst;
use wasmsh::runtime::output::Console;
use wasmsh::runtime::single::{execute_scheduled_single_stage, SingleStage};
use wasmsh::runtime::subst::SubstScopes;
use wasmsh::state::ShellState;
use wasmsh::stream::simple::STREAMING_YES_MAX_LINES;
use wasmsh::words::{pending_substs, resolve_command_subst, SubstKind, Word, WordPart};

fn strings(words: &[&str]) -> Vec<String> {
    words.iter().map(|w| w.to_string()).collect()
}

fn filter(words: &[&str]) -> StreamingPipelineStage {
    let facts = CommandFacts { function: false, builtin: false, utility: true, external: false };
    compile_pipeline_stage(Some(strings(words)), false, false, facts)
}

#[test]
fn substitutions_are_found_and_filled_in_order() {
    let words = vec![
        Word {
            parts: vec![
                WordPart::Literal("a".to_string()),
                WordPart::CommandSubstitution("echo one".to_string()),
            ],
        },
        Word {
            parts: vec![
                WordPart::DoubleQuoted(vec![
                    WordPart::Parameter("x".to_string()),
                    WordPart::CommandSubstitution("echo two".to_string()),
                ]),
                WordPart::ProcessSubstIn("seq 3".to_string()),
            ],
        },
    ];
    let found = pending_substs(&words);
    assert_eq!(found.len(), 3);
    assert!(matches!(found[0].kind, SubstKind::Command));
    assert_eq!(found[0].script, "echo one");
    assert!(matches!(found[1].kind, SubstKind::Command));
    assert_eq!(found[1].script, "echo two");
    assert!(matches!(found[2].kind, SubstKind::ProcessIn));
    assert_eq!(found[2].script, "seq 3");

    let made = resolve_command_subst(&words, &strings(&["one", "two", "/tmp/_proc_subst_0"]));
    assert_eq!(made.len(), 2);
    assert!(matches!(&made[0].parts[0], WordPart::Literal(s) if s == "a"));
    assert!(matches!(&made[0].parts[1], WordPart::Literal(s) if s == "one"));
    match &made[1].parts[0] {
        WordPart::DoubleQuoted(inner) => {
            assert!(matches!(&inner[0], WordPart::Parameter(s) if s == "x"));
            assert!(matches!(&inner[1], WordPart::Literal(s) if s == "two"));
        }
        other => panic!("{other:?}"),
    }
    assert!(matches!(&made[1].parts[1], WordPart::Literal(s) if s == "/tmp/_proc_subst_0"));
}

#[test]
fn written_data_reaches_its_substitution() {
    let mut scopes = SubstScopes::new();
    scopes.push_scope();
    let outer = scopes.register("cat", None);
    scopes.push_scope();
    let inner = scopes.register("wc -c", Some(7));
    assert_eq!(outer, "/tmp/_proc_subst_0");
    assert_eq!(inner, "/tmp/_proc_subst_1");
    assert_eq!(scopes.write(&outer, b"ab"), None);
    assert_eq!(scopes.write(&outer, b"c"), None);
    assert_eq!(scopes.write(&inner, b"x"), Some(7));
    assert_eq!(scopes.write("/tmp/other", b"x"), None);
    let closed = scopes.pop_scope();
    assert_eq!(closed.len(), 1);
    assert_eq!(closed[0].script, "wc -c");
    let closed = scopes.pop_scope();
    assert!(matches!(&closed[0].pending, PendingSubst::Buffered(d) if d == b"abc"));
}

#[test]
fn a_stage_that_stands_alone_writes_its_output() {
    let mut console = Console::new(0);
    let literal = StreamingPipelineStage::Literal(b"hi\n".to_vec());
    let left = execute_scheduled_single_stage(&mut console, &None, literal);
    assert!(matches!(left, SingleStage::Done(0)));
    assert_eq!(console.stdout, b"hi\n");

    let mut console = Console::new(0);
    let yes = StreamingPipelineStage::Yes(b"y\n".to_vec());
    let left = execute_scheduled_single_stage(&mut console, &None, yes);
    assert!(matches!(left, SingleStage::Done(0)));
    assert_eq!(console.stdout.len(), 2 * STREAMING_YES_MAX_LINES);

    let mut limited = Console::new(5);
    let yes = StreamingPipelineStage::Yes(b"y\n".to_vec());
    let left = execute_scheduled_single_stage(&mut limited, &None, yes);
    assert!(matches!(left, SingleStage::Done(1)));
    assert!(limited.resource_exhausted);

    let mut console = Console::new(0);
    let left = execute_scheduled_single_stage(&mut console, &None, filter(&["cat"]));
    match left {
        SingleStage::Unsupported(m) => {
            assert_eq!(m, "wasmsh: unsupported single-stage scheduler node\n");
        }
        other => panic!("{other:?}"),
    }
}

#[test]
fn network_replies_become_responses_or_errors() {
    assert_eq!(
        fetch_result(FetchOutcome::Missing),
        Err(NetworkError::Other("fetch returned null".to_string()))
    );
    assert_eq!(
        fetch_result(FetchOutcome::Invalid("bad".to_string())),
        Err(NetworkError::Other("invalid fetch response: bad".to_string()))
    );
    let reply = |error: Option<String>| FetchReply {
        status: 200,
        headers: vec![("a".to_string(), "b".to_string())],
        body_base64: "aGVsbG8=".to_string(),
        error,
    };
    assert_eq!(
        fetch_result(FetchOutcome::Reply(reply(Some("refused".to_string())))),
        Err(NetworkError::ConnectionFailed("refused".to_string()))
    );
    let response = fetch_result(FetchOutcome::Reply(reply(None))).unwrap();
    assert_eq!(response.status, 200);
    assert_eq!(response.headers, vec![("a".to_string(), "b".to_string())]);
    assert_eq!(response.body, b"hello");
}

#[test]
fn output_is_read_in_pieces() {
    let stages = vec![filter(&["cat"]), filter(&["rev"])];
    let mut net = Network::with_source(b"abc\nde\n".to_vec(), stages, 1).unwrap();
    let mut all = Vec::new();
    loop {
        let piece = net.read_output(2).unwrap();
        if piece.is_empty() {
            break;
        }
        assert!(piece.len() <= 2);
        all.extend(piece);
    }
    assert_eq!(all, b"cba\ned\n");
}

#[test]
fn options_of_pathname_expansion_come_from_the_shell() {
    let mut state = ShellState::new();
    let options = glob_options(&state).unwrap();
    assert!(!options.nullglob && !options.dotglob && !options.globstar && !options.extglob);
    state.set_var("SHOPT_dotglob".to_string(), "1".to_string());
    assert!(glob_options(&state).unwrap().dotglob);
    state.set_var("SHOPT_f".to_string(), "1".to_string());
    assert!(glob_options(&state).is_none());
}

#[test]
fn commands_are_labelled_by_name_or_kind() {
    let named = BufferedPipelineCommand::Argv(strings(&["sort", "-u"]));
    assert_eq!(command_label(&named, "exec"), "sort");
    assert_eq!(command_label(&BufferedPipelineCommand::Argv(Vec::new()), "exec"), "command");
    assert_eq!(command_label(&BufferedPipelineCommand::Whole, "while"), "while");
    assert!(uses_native_pipe_scheduler(&filter(&["cat"])));
    assert!(!uses_native_pipe_scheduler(&StreamingPipelineStage::BufferedCommand(named)));
}

#[test]
fn sed_delimiters_of_more_than_one_byte_are_told_apart() {
    assert!(stage_args_readable(&strings(&["sed", "s/a/b/"]), false));
    assert!(stage_args_readable(&strings(&["sed", "s/é/b/"]), false));
    assert!(!stage_args_readable(&strings(&["sed", "séaébé"]), false));
    assert!(!stage_args_readable(&strings(&["sed", "p; 2s→a→b→"]), false));
    assert!(stage_args_readable(&strings(&["sed", "séaébé"]), true));
}

#[test]
fn input_redirections_are_collected_until_one_fails() {
    let mut io = ExecIo::default();
    let refused = collect_stdin_from_redirections(
        &mut io,
        vec![
            ResolvedRedirection::HereString("two".to_string()),
            ResolvedRedirection::DupOutput { fd: Some(2), target: "1".to_string() },
        ],
    );
    assert!(refused.is_none());
    assert!(matches!(io.take_stdin(), InputTarget::Bytes(d) if d == b"two\n"));

    let missing = |kind: SourceKind| ResolvedRedirection::Input {
        target: "f".to_string(),
        path: "/f".to_string(),
        kind,
    };
    let mut io = ExecIo::default();
    let refused = collect_stdin_from_redirections(
        &mut io,
        vec![
            ResolvedRedirection::HereDoc(Some(b"doc".to_vec())),
            missing(SourceKind::Missing),
            ResolvedRedirection::HereString("late".to_string()),
        ],
    );
    assert_eq!(refused.as_deref(), Some("wasmsh: f: No such file or directory\n"));
    assert!(matches!(io.take_stdin(), InputTarget::Bytes(d) if d == b"doc"));
    let refused = collect_stdin_from_redirections(&mut io, vec![missing(SourceKind::Directory)]);
    assert_eq!(refused.as_deref(), Some("wasmsh: f: Is a directory\n"));
    assert!(collect_stdin_from_redirections(&mut io, vec![missing(SourceKind::File)]).is_none());
    assert!(matches!(io.take_stdin(), InputTarget::File { path, .. } if path == "/f"));
}

#[test]
fn names_with_a_prefix_come_once_and_in_order() {
    let mut state = ShellState::new();
    for name in ["zb", "za", "y"] {
        state.set_var(name.to_string(), "1".to_string());
    }
    state.env.push_scope();
    state.set_var("za".to_string(), "2".to_string());
    assert_eq!(state.var_names_with_prefix("z"), strings(&["za", "zb"]));
    assert!(state.var_names_with_prefix("q").is_empty());
}

#[test]
fn the_input_of_an_external_command_is_read_from_its_source() {
    let reader = ChunkReader { chunks: vec![b"abc".to_vec(), b"d".to_vec()], fault: None };
    let mut stdin = ExternalCommandStdin::from_reader(reader);
    let mut buf = [0u8; 2];
    assert_eq!(stdin.read_chunk(&mut buf).unwrap(), 2);
    assert_eq!(&buf, b"ab");
    assert_eq!(stdin.read_chunk(&mut buf).unwrap(), 1);
    assert_eq!(buf[0], b'c');
    assert_eq!(stdin.read_chunk(&mut buf).unwrap(), 1);
    assert_eq!(buf[0], b'd');
    assert_eq!(stdin.read_chunk(&mut buf).unwrap(), 0);
}

#[test]
fn a_command_whose_input_cannot_be_kept_is_over() {
    let mut process = BufferedProcess::new(true, 0, false);
    assert_eq!(process.staging_failed("sort", "disk full"), PipeProcessPoll::Exited);
    assert_eq!(process.status, 1);
    assert_eq!(
        process.stderr,
        b"wasmsh: sort: failed to stage pipeline input for streaming: disk full\n"
    );
}

#[test]
fn a_command_that_the_host_does_not_know_is_reported() {
    let unknown = external_answer("nope", None);
    assert_eq!(unknown.stderr, b"wasmsh: nope: command not found\n");
    assert_eq!((unknown.stdout.len(), unknown.status), (0, 127));
    let result = ExternalCommandResult { stdout: b"o".to_vec(), stderr: Vec::new(), status: 4 };
    let known = external_answer("yes", Some(result));
    assert_eq!((known.stdout.as_slice(), known.status), (&b"o"[..], 4));
}
