//! The commands of the runtime itself, and the parts that they are made of.
use wasmsh::base64::{base64_encode, decode_base64};
use wasmsh::commands::alias::{execute_alias, execute_type, execute_unalias, not_a_builtin_line};
use wasmsh::commands::arrays::{parse_array_elements, parse_assoc_pairs};
use wasmsh::commands::assign::{
    assign_value, assignment_target, finish_integer, vm_assign, AssignStep, AssignTarget,
};
use wasmsh::commands::declare::{
    declare_evaluated, declare_one_name, declare_print, parse_declare_flags,
};
use wasmsh::commands::files::{
    extract_find_exec, find_exec_line, let_result, nonempty_lines, note_status, search_path,
    shell_quote, source_places, source_read_error, xargs_runs_command,
};
use wasmsh::commands::mapfile::{
    fill_mapfile, mapfile_elements, parse_mapfile_args, select_choice, select_menu,
};
use wasmsh::commands::printed::{Printed, Stream};
use wasmsh::commands::resolve::{
    eval_text, resolve_command, shell_script, unbound_line, ResolvedCommand, RuntimeCommandKind,
    ShellScript, UtilityCommandKind,
};
use wasmsh::commands::scope::{execute_local, restore_locals};
use wasmsh::commands::shopt::{execute_shopt, get_shopt_value};
use wasmsh::membrane::{set_allowed_hosts, InstallStep, Membrane};
use wasmsh::pipeline::drive::{pipeline_status, set_pipestatus, settle_pipeline};
use wasmsh::pipeline::stage::CommandFacts;
use wasmsh::python::{
    extract_code, is_python_command, python_internal_error, python_result, run_paths, wrap_code,
    CodeSource,
};
use wasmsh::runtime::control::{
    after_condition, case_pattern_matches, loop_runs_body, CaseRun, CaseTerminator, IfStep,
};
use wasmsh::runtime::flow::{line_number_for_offset, ExecState};
use wasmsh::runtime::isolated::{proc_subst_path, substituted, sync_steps, PendingSubst};
use wasmsh::runtime::output::{BudgetCategory, Console, StopReason};
use wasmsh::runtime::protocol::WorkerEvent;
use wasmsh::runtime::worker::WorkerRuntime;
use wasmsh::signals::{find_runtime_signal_spec, runtime_signal_specs};
use wasmsh::state::ShellState;
use wasmsh::words::{
    literal_word_text, text_has_brace_or_glob_literal, word_parts_require_runtime_expansion, Word,
    WordPart,
};

fn strings(words: &[&str]) -> Vec<String> {
    words.iter().map(|w| w.to_string()).collect()
}

fn text(printed: &Printed) -> String {
    printed.pieces.iter().map(|p| p.text.as_str()).collect()
}

fn facts() -> CommandFacts {
    CommandFacts { function: false, builtin: false, utility: false, external: false }
}

#[test]
fn aliases_are_made_shown_and_removed() {
    let mut rt = WorkerRuntime::new("v".to_string());
    let made = execute_alias(&mut rt.aliases, &strings(&["ll=ls -l", "g=grep"]));
    assert_eq!(made.status, 0);
    let listed = execute_alias(&mut rt.aliases, &strings(&[]));
    assert_eq!(text(&listed), "alias ll='ls -l'\nalias g='grep'\n");
    let shown = execute_alias(&mut rt.aliases, &strings(&["g"]));
    assert_eq!(text(&shown), "alias g='grep'\n");
    let missing = execute_alias(&mut rt.aliases, &strings(&["nope", "x=y"]));
    assert_eq!(missing.status, 1);
    assert_eq!(text(&missing), "alias: nope: not found\n");
    let removed = execute_unalias(&mut rt.aliases, &strings(&["ll"]));
    assert_eq!(removed.status, 0);
    let again = execute_unalias(&mut rt.aliases, &strings(&["ll"]));
    assert_eq!(text(&again), "unalias: ll: not found\n");
    execute_unalias(&mut rt.aliases, &strings(&["-a"]));
    assert_eq!(text(&execute_alias(&mut rt.aliases, &strings(&[]))), "");
    let usage = execute_unalias(&mut rt.aliases, &strings(&[]));
    assert_eq!(usage.status, 1);
    assert_eq!(text(&usage), "unalias: usage: unalias [-a] name ...\n");
}

#[test]
fn type_says_what_a_name_is() {
    let mut rt = WorkerRuntime::new("v".to_string());
    execute_alias(&mut rt.aliases, &strings(&["ll=ls"]));
    let names = strings(&["ll", "f", "echo", "cat", "nope"]);
    let mut kinds = vec![facts(); 5];
    kinds[1].function = true;
    kinds[2].builtin = true;
    kinds[3].utility = true;
    let printed = execute_type(&rt.aliases, &names, &kinds);
    assert_eq!(
        text(&printed),
        "ll is aliased to `ls'\nf is a function\necho is a shell builtin\ncat is a shell utility\nwasmsh: type: nope: not found\n"
    );
    assert_eq!(printed.status, 1);
    assert_eq!(printed.pieces[4].stream, Stream::Stderr);
    assert_eq!(not_a_builtin_line("x"), "builtin: x: not a shell builtin\n");
}

#[test]
fn shopt_switches_and_shows_options() {
    let mut state = ShellState::new();
    assert_eq!(execute_shopt(&mut state, &strings(&["-s", "nullglob"])).status, 0);
    assert!(get_shopt_value(&state, "nullglob"));
    let shown = execute_shopt(&mut state, &strings(&["nullglob", "dotglob"]));
    assert_eq!(text(&shown), "nullglob\ton\ndotglob\toff\n");
    execute_shopt(&mut state, &strings(&["-u", "nullglob"]));
    assert!(!get_shopt_value(&state, "nullglob"));
    let wrong = execute_shopt(&mut state, &strings(&["-s", "nope"]));
    assert_eq!(wrong.status, 1);
    assert_eq!(text(&wrong), "shopt: nope: invalid shell option name\n");
    let empty = execute_shopt(&mut state, &strings(&["-s"]));
    assert_eq!(text(&empty), "shopt: option name required\n");
    assert_eq!(empty.pieces[0].stream, Stream::ShellStderr);
    assert_eq!(text(&execute_shopt(&mut state, &strings(&[]))).lines().count(), 9);
}

#[test]
fn commands_are_found_in_order() {
    let argv = strings(&["find", ".", "-exec", "rm", "{}", ";"]);
    let mut known = facts();
    known.utility = true;
    assert_eq!(
        resolve_command("find", &argv, known),
        ResolvedCommand::Utility(UtilityCommandKind::FindWithExec)
    );
    assert_eq!(
        resolve_command("xargs", &strings(&["xargs"]), known),
        ResolvedCommand::Utility(UtilityCommandKind::Xargs)
    );
    known.builtin = true;
    assert_eq!(resolve_command("x", &strings(&["x"]), known), ResolvedCommand::Builtin);
    known.function = true;
    assert_eq!(resolve_command("x", &strings(&["x"]), known), ResolvedCommand::Function);
    assert_eq!(
        resolve_command(".", &strings(&["."]), known),
        ResolvedCommand::Runtime(RuntimeCommandKind::Source)
    );
    assert_eq!(resolve_command("sh", &strings(&["sh"]), known), ResolvedCommand::ShellScript);
    assert_eq!(resolve_command("y", &strings(&["y"]), facts()), ResolvedCommand::External);
    assert_eq!(eval_text(&strings(&["eval", "echo", "a"])), "echo a");
    assert_eq!(unbound_line("x"), "wasmsh: x: unbound variable\n");
    assert!(matches!(shell_script(&strings(&["sh"]), "/"), ShellScript::Nothing));
    assert!(matches!(
        shell_script(&strings(&["sh", "-c", "x"]), "/"),
        ShellScript::Text(t) if t == "x"
    ));
    assert!(matches!(
        shell_script(&strings(&["sh", "s.sh"]), "/home"),
        ShellScript::File(p) if p == "/home/s.sh"
    ));
}

#[test]
fn array_words_keep_their_quotes_out() {
    assert_eq!(parse_array_elements("a 'b c' \"d e\" f\\ g"), vec!["a", "b c", "d e", "f g"]);
    assert_eq!(parse_array_elements("one two three"), vec!["one", "two", "three"]);
    assert!(parse_array_elements("  ").is_empty());
}

#[test]
fn pairs_are_read_from_brackets() {
    let pairs = parse_assoc_pairs("[a]=1 [b]=\"two words\" junk [c]='x y'");
    let seen: Vec<(&str, &str)> =
        pairs.iter().map(|(k, v)| (k.as_str(), v.as_str())).collect();
    assert_eq!(seen, vec![("a", "1"), ("b", "two words"), ("c", "x y")]);
}

#[test]
fn assignments_reach_elements_arrays_and_scalars() {
    let mut state = ShellState::new();
    let step = assign_value(
        &mut state,
        assignment_target("arr"),
        "(one two)".to_string(),
        0,
    );
    assert!(matches!(step, AssignStep::Done));
    assert_eq!(state.get_array_values("arr"), vec!["one", "two"]);
    assign_value(&mut state, assignment_target("arr+"), "(three)".to_string(), 0);
    assert_eq!(state.get_array_length("arr"), 3);
    assign_value(&mut state, assignment_target("arr[0]"), "uno".to_string(), 0);
    assert_eq!(state.get_array_element("arr", "0").unwrap(), "uno");
    assign_value(&mut state, assignment_target("s"), "ab".to_string(), 0);
    assign_value(&mut state, assignment_target("s+"), "cd".to_string(), 0);
    assert_eq!(state.get_var("s").unwrap(), "abcd");
    assign_value(&mut state, assignment_target("m"), "([k]=v [l]=w)".to_string(), 0);
    assert_eq!(state.get_array_element("m", "l").unwrap(), "w");
    assert!(matches!(
        assignment_target("x[1]"),
        AssignTarget::Element { base, index } if base == "x" && index == "1"
    ));
}

#[test]
fn integer_variables_ask_for_evaluation() {
    let mut state = ShellState::new();
    let (flags, names) = parse_declare_flags(&strings(&["-i", "n=1+2"]));
    assert!(flags.is_integer);
    assert_eq!(names, vec![1]);
    match declare_one_name(&mut state, "n=1+2", flags, 0) {
        AssignStep::Evaluate { name, expr } => {
            assert_eq!(expr, "1+2");
            declare_evaluated(&mut state, name, 3, flags);
        }
        AssignStep::Done => panic!("an expression was expected"),
    }
    assert_eq!(state.get_var("n").unwrap(), "3");
    match assign_value(&mut state, assignment_target("n+"), "4".to_string(), 0) {
        AssignStep::Evaluate { name, expr } => {
            assert_eq!(expr, "3+4");
            finish_integer(&mut state, name, 7);
        }
        AssignStep::Done => panic!("an expression was expected"),
    }
    assert_eq!(state.get_var("n").unwrap(), "7");
    match vm_assign(&mut state, "n".to_string(), " 8 ".to_string()) {
        AssignStep::Evaluate { expr, .. } => assert_eq!(expr, "8"),
        AssignStep::Done => panic!("an expression was expected"),
    }
}

#[test]
fn declare_sets_attributes_and_prints() {
    let mut state = ShellState::new();
    let (flags, _) = parse_declare_flags(&strings(&["-rx", "K=v"]));
    declare_one_name(&mut state, "K=v", flags, 0);
    let var = state.env.get("K").unwrap();
    assert!(var.readonly && var.exported && !var.integer);
    assert!(state.set_var_checked("K".to_string(), "w".to_string()).is_err());
    let (upper, _) = parse_declare_flags(&strings(&["-u"]));
    declare_one_name(&mut state, "U=stra\u{df}e", upper, 0);
    assert_eq!(state.get_var("U").unwrap(), "STRASSE");
    let (lower, _) = parse_declare_flags(&strings(&["-l"]));
    declare_one_name(&mut state, "L=ABC", lower, 0);
    assert_eq!(state.get_var("L").unwrap(), "abc");
    let (assoc, _) = parse_declare_flags(&strings(&["-A"]));
    declare_one_name(&mut state, "M=([a]=1)", assoc, 0);
    assert_eq!(state.get_array_element("M", "a").unwrap(), "1");
    let (reference, _) = parse_declare_flags(&strings(&["-n"]));
    declare_one_name(&mut state, "R=L", reference, 0);
    assert_eq!(state.get_var("R").unwrap(), "abc");
    let (_, names) = parse_declare_flags(&strings(&["-p", "L"]));
    let printed = declare_print(&state, &strings(&["-p", "L"]), &names);
    assert_eq!(text(&printed), "declare -- L=\"abc\"\n");
    let all = declare_print(&state, &strings(&["-p"]), &Vec::new());
    assert!(text(&all).starts_with("declare -- K=\"v\"\n"));
}

#[test]
fn local_variables_come_back() {
    let mut state = ShellState::new();
    state.set_var("x".to_string(), "outer".to_string());
    let mut saved = Vec::new();
    execute_local(&mut state, &mut saved, &strings(&["x=inner", "y"]), 0);
    assert_eq!(state.get_var("x").unwrap(), "inner");
    assert_eq!(state.get_var("y").unwrap(), "");
    restore_locals(&mut state, &mut saved, 0);
    assert_eq!(state.get_var("x").unwrap(), "outer");
    assert!(state.get_var("y").is_none());
    assert!(saved.is_empty());
}

#[test]
fn find_and_xargs_make_command_lines() {
    let argv = strings(&["find", ".", "-exec", "rm", "{}", ";", "-print"]);
    let (template, cleaned) = extract_find_exec(&argv).unwrap();
    assert_eq!(template, vec!["rm", "{}"]);
    assert_eq!(cleaned, vec!["find", ".", "-print"]);
    assert!(extract_find_exec(&strings(&["find", "-exec", "rm"])).is_none());
    assert!(extract_find_exec(&strings(&["find", "-exec", ";"])).is_none());
    assert_eq!(find_exec_line(&template, "a b"), "rm 'a b'");
    assert_eq!(shell_quote("a/b-c_d.e"), "a/b-c_d.e");
    assert_eq!(shell_quote("it's"), "'it'\\''s'");
    assert_eq!(parse_array_elements(&shell_quote("it's")), vec!["it's"]);
    assert!(xargs_runs_command(&strings(&["xargs", "-n", "1", "rm"])));
    assert!(!xargs_runs_command(&strings(&["xargs", "-0", "echo"])));
    assert!(!xargs_runs_command(&strings(&["xargs"])));
    assert_eq!(nonempty_lines("a\r\n\nb\r"), vec!["a", "b\r"]);
    assert_eq!(note_status(note_status(2, 0), 0), 2);
    assert_eq!(note_status(2, 3), 3);
}

#[test]
fn scripts_are_looked_for_along_the_path() {
    let path = Some("/bin::lib".to_string());
    assert_eq!(search_path(&path, "/home", "x"), vec!["/bin/x", "/home/lib/x"]);
    assert_eq!(source_places("a/x", &path, "/home"), vec!["/home/a/x"]);
    assert_eq!(
        source_places("x", &path, "/home"),
        vec!["/home/x", "/bin/x", "/home/lib/x"]
    );
    assert_eq!(source_read_error("x", "gone"), "source: x: read error: gone\n");
}

#[test]
fn let_fails_on_zero() {
    assert_eq!(let_result(&vec![0, 2]).status, 0);
    assert_eq!(let_result(&vec![2, 0]).status, 1);
    let none = let_result(&vec![]);
    assert_eq!(none.status, 1);
    assert_eq!(text(&none), "let: expression expected\n");
}

#[test]
fn mapfile_reads_lines() {
    assert_eq!(parse_mapfile_args(&strings(&["-t", "lines"])), (true, "lines".to_string()));
    assert_eq!(parse_mapfile_args(&strings(&[])), (false, "MAPFILE".to_string()));
    let mut state = ShellState::new();
    fill_mapfile(&mut state, "m", b"a\nb", true, false);
    assert_eq!(state.get_array_values("m"), vec!["a", "b"]);
    assert_eq!(mapfile_elements(b"a\nb", false, false), vec!["a\n", "b\n"]);
    assert_eq!(mapfile_elements(b"", true, false), vec![""]);
    assert_eq!(mapfile_elements(b"a\nb", true, true), vec!["a"]);
    assert_eq!(mapfile_elements(b"\xff\n", true, false), vec!["\u{fffd}"]);
}

#[test]
fn select_picks_by_number() {
    let words = strings(&["red", "green"]);
    assert_eq!(select_menu(&words), vec!["1) red\n", "2) green\n"]);
    assert_eq!(select_choice(" 2 ", &words), ("2".to_string(), "green".to_string()));
    assert_eq!(select_choice("3", &words), ("3".to_string(), String::new()));
    assert_eq!(select_choice("x", &words), ("x".to_string(), String::new()));
}

#[test]
fn loops_conditions_and_cases() {
    let mut flow = ExecState::new();
    flow.request_break(Some("2"));
    assert!(flow.handle_loop_control());
    assert!(flow.handle_loop_control());
    assert!(!flow.handle_loop_control());
    flow.request_break(None);
    assert!(flow.handle_for_control());
    flow.request_continue();
    assert!(flow.should_stop_execution(false));
    assert!(!flow.handle_loop_control());
    assert_eq!(flow.request_exit(Some("7"), 0), 7);
    assert_eq!(flow.request_exit(Some("x"), 4), 4);
    assert!(flow.handle_loop_control());
    let held: bool = flow.begin_condition();
    assert!(flow.errexit_suppressed && !held);
    flow.end_condition(held);
    assert!(!flow.errexit_suppressed);
    assert_eq!(after_condition(0, 2, true, 1), IfStep::Condition(1));
    assert_eq!(after_condition(1, 2, true, 0), IfStep::Body(1));
    assert_eq!(after_condition(1, 2, true, 1), IfStep::Else);
    assert_eq!(after_condition(1, 2, false, 1), IfStep::End);
    assert!(loop_runs_body(false, 0) && loop_runs_body(true, 1));
    let mut case = CaseRun::new();
    case.advance(false, CaseTerminator::Break);
    assert_eq!(case.current(3), Some(1));
    case.advance(true, CaseTerminator::Fallthrough);
    assert!(case.runs(false));
    case.advance(false, CaseTerminator::Break);
    assert_eq!(case.current(3), None);
    assert!(case_pattern_matches("a*", "abc", false));
    assert!(!case_pattern_matches("A*", "abc", false));
    assert!(case_pattern_matches("A*", "abc", true));
    assert_eq!(line_number_for_offset("a\nb\nc", 4), 3);
    assert_eq!(line_number_for_offset("a", 99), 1);
}

#[test]
fn output_goes_to_the_innermost_scope() {
    let mut console = Console::new(4);
    assert!(console.write_output(&None, b"seen", true).is_none());
    console.push_output_capture(true, false);
    console.write_output(&None, b"hidden", true);
    console.write_output(&None, b"!", false);
    assert_eq!(console.current_stdout_len(), 6);
    assert_eq!(console.capture_stdout(3), b"den");
    let captured = console.pop_output_capture();
    assert_eq!(captured.stdout, b"hid");
    assert_eq!(console.stdout, b"seen");
    assert_eq!(console.take_stderr(), b"!");
    assert!(console.resource_exhausted);
    let mut limited = Console::new(2);
    let reason = limited.write_builtin_output(&None, b"abc", true).unwrap().unwrap();
    assert_eq!(reason.category, BudgetCategory::VisibleOutputBytes);
    assert_eq!((reason.used, reason.limit), (3, 2));
}

#[test]
fn why_a_run_stopped_is_noted_before_its_exit_trap() {
    let mut rt = WorkerRuntime::new("1".to_string());
    rt.state.set_var("_TRAP_EXIT".to_string(), "echo bye".to_string());
    rt.flow.exit_requested = Some(3);
    rt.console.resource_exhausted = true;
    rt.cancelled = true;
    let (code, handler) = rt.leave_run(None).unwrap();
    assert_eq!((code, handler.as_str()), (3, "echo bye"));
    assert_eq!(rt.console.stop_reason, Some(StopReason::Cancelled));
    assert_eq!(rt.current_run_exit_status(), 130);
    assert!(rt.console.write_builtin_output(&None, b"bye\n", true).unwrap().is_none());
    let events = rt.finish_run(Some((code, Vec::new())));
    assert!(matches!(events.last(), Some(WorkerEvent::Exit(128))));

    rt.console.resource_exhausted = true;
    assert!(rt.leave_run(None).is_none());
    let events = rt.finish_run(None);
    assert!(matches!(events.last(), Some(WorkerEvent::Exit(130))));
}

#[test]
fn substitutions_and_steps() {
    assert_eq!(substituted(b"a\nb\n\n"), "a\nb");
    assert_eq!(substituted(b"\xffx\n"), "\u{fffd}x");
    assert_eq!(proc_subst_path(7), "/tmp/_proc_subst_7");
    let synced = sync_steps(10, 5, 2, 12);
    assert_eq!((synced.steps, synced.synced), (13, 5));
    assert_eq!(synced.exhausted.unwrap().used, 13);
    let twice = sync_steps(synced.steps, 5, synced.synced, 12);
    assert_eq!(twice.steps, 13);
    assert_eq!(sync_steps(u64::MAX, 2, 0, 0).steps, u64::MAX);
    let mut pending = PendingSubst::Buffered(Vec::new());
    assert!(pending.write(b"ab").is_none());
    pending.clear();
    pending.write(b"c");
    assert!(matches!(pending, PendingSubst::Buffered(data) if data == b"c"));
    assert_eq!(PendingSubst::Live(3).write(b"x"), Some(3));
}

#[test]
fn statuses_of_pipelines() {
    assert_eq!(pipeline_status(&vec![1, 0], false), 0);
    assert_eq!(pipeline_status(&vec![3, 0], true), 3);
    assert_eq!(pipeline_status(&vec![0, 0], true), 0);
    let mut state = ShellState::new();
    set_pipestatus(&mut state, &vec![0, 1]);
    assert_eq!(state.get_array_values("PIPESTATUS"), vec!["0", "1"]);
    settle_pipeline(&mut state, &vec![3, 0], true, false);
    assert_eq!(state.last_status, 3);
    settle_pipeline(&mut state, &vec![0, 7], false, true);
    assert_eq!(state.last_status, 3);
    assert_eq!(state.get_array_values("PIPESTATUS"), vec!["0", "7"]);
}

#[test]
fn words_are_literal_or_not() {
    let literal = Word {
        parts: vec![
            WordPart::Literal("a".to_string()),
            WordPart::DoubleQuoted(vec![WordPart::SingleQuoted("b c".to_string())]),
        ],
    };
    assert_eq!(literal_word_text(&literal).unwrap(), "ab c");
    assert!(!word_parts_require_runtime_expansion(&literal.parts));
    let expanded = Word { parts: vec![WordPart::Parameter("x".to_string())] };
    assert!(literal_word_text(&expanded).is_none());
    assert!(word_parts_require_runtime_expansion(&expanded.parts));
    assert!(text_has_brace_or_glob_literal("{a,b}"));
    assert!(!text_has_brace_or_glob_literal("a,b"));
}

#[test]
fn signals_are_found_by_name_and_number() {
    assert_eq!(find_runtime_signal_spec("15").unwrap().name, "TERM");
    assert_eq!(find_runtime_signal_spec("SIGINT").unwrap().number, 2);
    assert_eq!(find_runtime_signal_spec("hup").unwrap().number, 1);
    assert!(find_runtime_signal_spec("NOPE").is_none());
    let specs = runtime_signal_specs();
    for pair in specs.windows(2) {
        assert!(pair[0].number < pair[1].number);
    }
}

#[test]
fn base64_round_trips() {
    assert_eq!(base64_encode(b"hello"), "aGVsbG8=");
    assert_eq!(decode_base64("aGVsbG8="), b"hello");
    assert_eq!(decode_base64(" aGVs\nbG8 "), b"hello");
    let bytes: Vec<u8> = (0..=255).collect();
    assert_eq!(decode_base64(&base64_encode(&bytes)), bytes);
}

#[test]
fn python_commands_are_wrapped_and_read_back() {
    assert!(is_python_command("python3"));
    assert!(!is_python_command("perl"));
    match extract_code(&strings(&["python3", "-c", "print(1)"]), None) {
        CodeSource::Code(code) => assert_eq!(code, "print(1)"),
        CodeSource::Script(path) => panic!("unexpected script {path}"),
    }
    match extract_code(&strings(&["python3", "s.py"]), None) {
        CodeSource::Script(path) => assert_eq!(path, "s.py"),
        CodeSource::Code(code) => panic!("unexpected code {code}"),
    }
    let paths = run_paths(3);
    let wrapped = wrap_code("print('x')", &paths);
    assert!(wrapped.contains(&base64_encode(b"print('x')")));
    assert!(wrapped.contains(&paths.stdout));
    let result = python_result(0, b"o".to_vec(), b"e".to_vec(), b" 3 ");
    assert_eq!((result.stdout, result.stderr, result.status), (b"o".to_vec(), b"e".to_vec(), 3));
    assert_eq!(python_result(1, vec![], vec![], b"0").status, 1);
    assert_eq!(python_result(0, vec![], vec![], b"\xff").status, 0);
    assert_eq!(python_internal_error().status, 1);
}

#[test]
fn the_membrane_is_installed_once_per_list_of_hosts() {
    let mut membrane = Membrane::new();
    set_allowed_hosts(&mut membrane, strings(&["a.example"]));
    match membrane.ensure_installed() {
        InstallStep::Run(script) => assert!(script.contains("WASMSH_MEMBRANE_INSTALLED")),
        InstallStep::Ready => panic!("nothing was installed yet"),
    }
    assert!(membrane.finish_install(0).is_ok());
    assert!(matches!(membrane.ensure_installed(), InstallStep::Ready));
    let mut failing = Membrane::new();
    set_allowed_hosts(&mut failing, strings(&["b.example"]));
    assert!(matches!(failing.ensure_installed(), InstallStep::Run(_)));
    assert!(failing.finish_install(1).is_err());
}
