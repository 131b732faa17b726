//! The protocol of the runtime, driven by a small host: it parses a few forms of commands, keeps
//! files in memory, and does what the runtime asks for.
use std::collections::BTreeMap;
use wasmsh::commands::assign::{
    assign_value, assignment_target, finish_integer, vm_assign, AssignStep,
};
use wasmsh::commands::alias::{execute_alias, execute_type};
use wasmsh::commands::files::{cwd_path, first_line, source_not_found, source_places};
use wasmsh::commands::printed::{Printed, Stream};
use wasmsh::commands::resolve::{
    not_found_line, resolve_command, trace_line, try_alias_expansion, ResolvedCommand,
    RuntimeCommandKind,
};
use wasmsh::commands::shopt::{execute_shopt, get_shopt_value};
use wasmsh::commands::subset::{
    lower_vm_subset_and_or, Assignment, Command, Pipeline, Redirection, RedirectionOp,
    VmSubsetFallbackReason,
};
use wasmsh::external::{ExternalCommandResult, ExternalCommandStdin};
use wasmsh::fd_table::{leave_io_scope, InputTarget, OutputTarget};
use wasmsh::globs::{collect_globs, finalize_glob_matches, glob_plan, list_matches, GlobOptions, GlobPlan};
use wasmsh::pipeline::body::Body;
use wasmsh::pipeline::drive::{and_or_runs, set_pipestatus, settle_pipeline, AndOrOp};
use wasmsh::pipeline::network::run_pipeline;
use wasmsh::pipeline::pipe::PIPEBUFFER_STREAMING_CAPACITY;
use wasmsh::pipeline::schedule::{Schedule, Step};
use wasmsh::pipeline::stage::{
    compile_pipeline_stage, parse_streaming_stage,
    BufferedPipelineCommand, CommandFacts, StreamingPipelineStage,
};
use wasmsh::redirect::{prepare_exec_io, ResolvedRedirection, SinkState, SourceKind};
use wasmsh::runtime::flow::{AndOrShape, ExecState};
use wasmsh::runtime::isolated::{proc_subst_path, substituted, PendingSubst};
use wasmsh::runtime::output::{BudgetCategory, ExhaustionReason, StopReason};
use wasmsh::runtime::protocol::{
    collect_poll, list_dir_reply, poll_reply, read_file_reply, write_file_reply, Diagnostic,
    DiagnosticLevel, ExecutionPoll, HostCommand, ReadFailure, WorkerEvent,
};
use wasmsh::runtime::run::{ActiveRun, CommandSpan};
use wasmsh::runtime::signal::{handler_to_run, TrapKind};
use wasmsh::runtime::worker::{Request, WorkerRuntime};
use wasmsh::stages::sources::streaming_echo_bytes;
use wasmsh::words::{Word, WordPart};

const PROTOCOL_VERSION: &str = "0.1";

#[derive(Clone, Debug, PartialEq)]
enum Token {
    Word(Vec<Part>),
    Op(String),
}

#[derive(Clone, Debug, PartialEq)]
struct Part {
    text: String,
    quote: char,
}

#[derive(Clone, Debug)]
struct Redir {
    op: String,
    fd: Option<u32>,
    target: Vec<Part>,
}

#[derive(Clone, Debug)]
enum Cmd {
    Simple { words: Vec<Vec<Part>>, redirs: Vec<Redir>, both: bool },
    Function { name: String, body: String },
}

#[derive(Clone, Debug)]
struct AndOr {
    first: Vec<Cmd>,
    rest: Vec<(AndOrOp, Vec<Cmd>)>,
}

type Handler = Box<dyn FnMut(&str, &[String], Option<ExternalCommandStdin>) -> Option<ExternalCommandResult>>;

/// The words that a range of numbers in braces stands for; another word stands for itself.
fn number_range(word: String) -> Vec<String> {
    let inner = word.strip_prefix('{').and_then(|w| w.strip_suffix('}'));
    let ends = inner.and_then(|w| w.split_once(".."));
    match ends.map(|(a, b)| (a.parse::<i32>(), b.parse::<i32>())) {
        Some((Ok(a), Ok(b))) => (a..=b).map(|n| n.to_string()).collect(),
        _ => vec![word],
    }
}

struct Host {
    rt: WorkerRuntime,
    files: BTreeMap<String, Vec<u8>>,
    functions: BTreeMap<String, String>,
    program: Vec<Vec<AndOr>>,
    handler: Option<Handler>,
    substs: Vec<Subst>,
    readers: BTreeMap<String, Live>,
    next_subst: u64,
    depth: u64,
    in_trap: bool,
}

struct Subst {
    path: String,
    script: String,
    live: Option<Live>,
    captured: Vec<u8>,
    pending: PendingSubst,
}

/// A pipeline behind a process substitution, while it runs.
struct Live {
    net: Schedule,
    cmds: Vec<Cmd>,
    both: Vec<bool>,
    copies: Vec<(usize, String)>,
}

fn tokenize(input: &str) -> Vec<(usize, Token)> {
    let chars: Vec<char> = input.chars().collect();
    let mut tokens: Vec<(usize, Token)> = Vec::new();
    let mut i: usize = 0;
    while i < chars.len() {
        let c = chars[i];
        if c == ' ' {
            i += 1;
            continue;
        }
        let two: String = chars[i..(i + 2).min(chars.len())].iter().collect();
        let four: String = chars[i..(i + 4).min(chars.len())].iter().collect();
        let three: String = chars[i..(i + 3).min(chars.len())].iter().collect();
        if four == "2>&1" || four == "1>&2" {
            tokens.push((i, Token::Op(four)));
            i += 4;
        } else if three == ">&2" {
            tokens.push((i, Token::Op("1>&2".to_string())));
            i += 3;
        } else if two == ">(" {
            let close: usize = (i..chars.len()).find(|k| chars[*k] == ')').unwrap();
            let text: String = chars[i + 2..close].iter().collect();
            tokens.push((i, Token::Word(vec![Part { text, quote: '>' }])));
            i = close + 1;
        } else if two == "&&" || two == "||" || two == ">>" || two == "|&" {
            tokens.push((i, Token::Op(two)));
            i += 2;
        } else if c == ';' || c == '|' || c == '>' || c == '<' || c == '\n' {
            tokens.push((i, Token::Op(c.to_string())));
            i += 1;
        } else {
            let start: usize = i;
            let mut parts: Vec<Part> = Vec::new();
            while i < chars.len() && !" ;|<>\n".contains(chars[i]) {
                let q = chars[i];
                if q == '\'' || q == '"' {
                    let end: usize = (i + 1..chars.len()).find(|k| chars[*k] == q).unwrap();
                    let text: String = chars[i + 1..end].iter().collect();
                    parts.push(Part { text, quote: q });
                    i = end + 1;
                } else if q == '(' && i + 1 < chars.len() && chars[i + 1] == ')' {
                    let open: usize = (i..chars.len()).find(|k| chars[*k] == '{').unwrap();
                    let close: usize = (open..chars.len()).find(|k| chars[*k] == '}').unwrap();
                    let body: String = chars[open + 1..close].iter().collect();
                    parts.push(Part { text: body, quote: '(' });
                    i = close + 1;
                } else {
                    let mut text = String::new();
                    let mut depth: usize = 0;
                    while i < chars.len() {
                        let x = chars[i];
                        if x == '{' || (x == '(' && (text.ends_with('=') || text.ends_with('$'))) {
                            depth += 1;
                        }
                        if depth == 0 && (" ;|<>\n'\"".contains(x) || x == '(') {
                            break;
                        }
                        if (x == '}' || x == ')') && depth > 0 {
                            depth -= 1;
                        }
                        text.push(x);
                        i += 1;
                    }
                    parts.push(Part { text, quote: ' ' });
                }
            }
            tokens.push((start, Token::Word(parts)));
        }
    }
    tokens
}

fn parse(input: &str) -> Result<(Vec<CommandSpan>, Vec<Vec<AndOr>>), String> {
    let mut spans: Vec<CommandSpan> = Vec::new();
    let mut items: Vec<Vec<AndOr>> = Vec::new();
    let mut lists: Vec<AndOr> = Vec::new();
    let mut start: Option<usize> = None;
    let mut pipeline: Vec<Cmd> = Vec::new();
    let mut words: Vec<Vec<Part>> = Vec::new();
    let mut redirs: Vec<Redir> = Vec::new();
    let mut current: Option<AndOr> = None;
    let mut joint: Option<AndOrOp> = None;
    let mut pending: Option<String> = None;
    let mut tokens = tokenize(input);
    tokens.push((input.len(), Token::Op("\n".to_string())));
    for (at, token) in tokens {
        match token {
            Token::Word(parts) => {
                if start.is_none() {
                    start = Some(at);
                }
                if let Some(op) = pending.take() {
                    redirs.push(Redir { op, fd: None, target: parts });
                } else if parts.len() == 2 && parts[1].quote == '(' {
                    pipeline.push(Cmd::Function {
                        name: parts[0].text.clone(),
                        body: parts[1].text.clone(),
                    });
                } else {
                    words.push(parts);
                }
            }
            Token::Op(op) => match op.as_str() {
                ">" | ">>" | "<" => pending = Some(op),
                "2>&1" | "1>&2" => {
                    let (fd, target): (u32, &str) = if op == "2>&1" { (2, "1") } else { (1, "2") };
                    redirs.push(Redir {
                        op: "dup".to_string(),
                        fd: Some(fd),
                        target: vec![Part { text: target.to_string(), quote: ' ' }],
                    });
                }
                _ => {
                    if pending.is_some() {
                        return Err("unexpected end of input".to_string());
                    }
                    if !words.is_empty() || !redirs.is_empty() {
                        pipeline.push(Cmd::Simple {
                            words: std::mem::take(&mut words),
                            redirs: std::mem::take(&mut redirs),
                            both: op == "|&",
                        });
                    }
                    if op == "|" || op == "|&" {
                        continue;
                    }
                    if !pipeline.is_empty() {
                        let done = std::mem::take(&mut pipeline);
                        match (current.as_mut(), joint.take()) {
                            (Some(list), Some(joint)) => list.rest.push((joint, done)),
                            _ => current = Some(AndOr { first: done, rest: Vec::new() }),
                        }
                    }
                    match op.as_str() {
                        "&&" => joint = Some(AndOrOp::And),
                        "||" => joint = Some(AndOrOp::Or),
                        _ => {
                            if let Some(list) = current.take() {
                                lists.push(list);
                            }
                            if op == "\n" && !lists.is_empty() {
                                spans.push(CommandSpan {
                                    start: start.take().unwrap_or(0),
                                    lists: lists.len(),
                                });
                                items.push(std::mem::take(&mut lists));
                            }
                        }
                    }
                }
            },
        }
    }
    Ok((spans, items))
}

/// What stands between the braces of a group.
fn group_body(words: &[Vec<Part>]) -> Option<&str> {
    match words {
        [word] if word.len() == 1 => word[0].text.strip_prefix("{ ")?.strip_suffix('}'),
        _ => None,
    }
}

fn is_assignment(parts: &[Part]) -> bool {
    parts[0].quote == ' '
        && parts[0].text.contains('=')
        && !parts[0].text.starts_with('=')
        && !parts[0].text.starts_with('-')
}

fn library_word(parts: &[Part]) -> Word {
    let mut out: Vec<WordPart> = Vec::new();
    for part in parts {
        match part.quote {
            '\'' => out.push(WordPart::SingleQuoted(part.text.clone())),
            '"' => {
                let inner = library_word(&[Part { text: part.text.clone(), quote: ' ' }]);
                out.push(WordPart::DoubleQuoted(inner.parts));
            }
            _ => match part.text.split_once('$') {
                Some((literal, name)) => {
                    if !literal.is_empty() {
                        out.push(WordPart::Literal(literal.to_string()));
                    }
                    out.push(WordPart::Parameter(name.to_string()));
                }
                None => out.push(WordPart::Literal(part.text.clone())),
            },
        }
    }
    Word { parts: out }
}

impl Host {
    fn bare() -> Host {
        Host {
            rt: WorkerRuntime::new(PROTOCOL_VERSION.to_string()),
            files: BTreeMap::new(),
            functions: BTreeMap::new(),
            program: Vec::new(),
            handler: None,
            substs: Vec::new(),
            readers: BTreeMap::new(),
            next_subst: 0,
            depth: 0,
            in_trap: false,
        }
    }

    fn set_external_handler(&mut self, handler: Handler) {
        self.handler = Some(handler);
    }

    fn set_vm_subset_enabled(&mut self, enabled: bool) {
        self.rt.set_vm_subset_enabled(enabled);
    }

    fn handle_command(&mut self, cmd: HostCommand) -> Vec<WorkerEvent> {
        match self.rt.handle_command(cmd) {
            Request::Reply(events) => events,
            Request::Restart(events) => {
                self.files.clear();
                self.functions.clear();
                events
            }
            Request::Start { input, to_end } => match self.start_execution(input) {
                Ok(()) if to_end => self.poll_to_end(),
                Ok(()) => WorkerRuntime::started_reply(),
                Err(events) => events,
            },
            Request::Poll => {
                let poll = self.poll_active_run();
                poll_reply(poll)
            }
            Request::RunHandler(handler) => self.run_inner(&handler),
            Request::Finish => self.finish(),
            Request::ReadFile { path } => {
                let content = match (self.readers.remove(&path), self.files.get(&path)) {
                    (Some(mut live), _) => Ok(self.pump(&mut live)),
                    (None, Some(data)) => Ok(data.clone()),
                    (None, None) => Err(ReadFailure::Open("no such file".to_string())),
                };
                read_file_reply(&path, content)
            }
            Request::WriteFile { path, data } => {
                self.files.insert(path.clone(), data);
                write_file_reply(path, Ok(()))
            }
            Request::ListDir { path } => list_dir_reply(Ok(self.names_in(&path))),
        }
    }

    fn names_in(&self, dir: &str) -> Vec<String> {
        let prefix = if dir.ends_with('/') { dir.to_string() } else { format!("{dir}/") };
        self.files
            .keys()
            .filter_map(|path| path.strip_prefix(&prefix))
            .filter(|name| !name.contains('/'))
            .map(|name| name.to_string())
            .collect()
    }

    fn start_execution(&mut self, input: String) -> Result<(), Vec<WorkerEvent>> {
        let parsed = parse(&input);
        let spans = match &parsed {
            Ok((spans, _)) => Ok(spans.clone()),
            Err(e) => Err(e.clone()),
        };
        self.rt.start_execution(input, spans)?;
        self.program = parsed.unwrap().1;
        Ok(())
    }

    fn begin_step(&self) -> Result<(), Option<StopReason>> {
        if self.rt.cancelled {
            Err(Some(StopReason::Cancelled))
        } else {
            Ok(())
        }
    }

    fn poll_active_run(&mut self) -> Option<ExecutionPoll> {
        let mut poll = self.rt.poll_active_run()?;
        while !poll.finished && poll.remaining > 0 {
            let begun = self.begin_step();
            if let Some(target) = self.rt.begin_step(&mut poll, begun) {
                let list = self.program[target.item][target.list].clone();
                self.execute_and_or(&list);
                self.rt.end_step(&mut poll, shape(&list));
            }
        }
        if self.rt.poll_ends_run(&poll) {
            Some(ExecutionPoll::Done(self.finish()))
        } else {
            Some(self.rt.yield_run())
        }
    }

    fn finish(&mut self) -> Vec<WorkerEvent> {
        let trap = match self.rt.leave_run(None) {
            Some((code, handler)) => Some((code, self.run_inner(&handler))),
            None => None,
        };
        self.rt.finish_run(trap)
    }

    fn poll_to_end(&mut self) -> Vec<WorkerEvent> {
        let mut events: Vec<WorkerEvent> = Vec::new();
        while let Some(poll) = self.poll_active_run() {
            if collect_poll(&mut events, poll) {
                break;
            }
        }
        events
    }

    fn run_inner(&mut self, script: &str) -> Vec<WorkerEvent> {
        if let Err(events) = self.rt.enter_inner(Ok(())) {
            return events;
        }
        match parse(script) {
            Err(e) => self.rt.fail_inner(&e),
            Ok((spans, items)) => {
                let mut run = ActiveRun::new(script.to_string(), spans);
                while let Some(target) = self.rt.next_inner(&run) {
                    let list = items[target.item][target.list].clone();
                    self.execute_and_or(&list);
                    self.rt.inner_ran(&mut run, shape(&list));
                }
                self.rt.leave_inner()
            }
        }
    }

    fn facts(&self, name: &str) -> CommandFacts {
        CommandFacts {
            function: self.functions.contains_key(name),
            builtin: ["echo", "printf", "true", "false", "trap", "set"].contains(&name),
            utility: ["cat", "sort", "grep"].contains(&name),
            external: self.handler.is_some(),
        }
    }

    fn execute_and_or(&mut self, list: &AndOr) {
        let fast: bool = self.fast_path(list).is_ok();
        self.run_one(&list.first, fast);
        for (op, pipeline) in &list.rest {
            if and_or_runs(*op, self.rt.state.last_status) {
                self.run_one(pipeline, fast);
            }
        }
    }

    fn run_one(&mut self, pipeline: &[Cmd], fast: bool) {
        if !matches!(pipeline[0], Cmd::Function { .. }) {
            self.run_trap(TrapKind::Debug);
        }
        if fast {
            self.run_fast(pipeline);
        } else {
            self.execute_pipeline(pipeline);
        }
        if self.rt.state.last_status != 0 {
            self.run_trap(TrapKind::Failure);
        }
    }

    fn run_trap(&mut self, kind: TrapKind) {
        if self.in_trap {
            return;
        }
        if let Some(handler) = handler_to_run(&self.rt.state, kind) {
            let status: i32 = self.rt.state.last_status;
            self.in_trap = true;
            for event in self.run_inner(&handler) {
                self.rt.absorb_event(event);
            }
            self.in_trap = false;
            self.rt.state.last_status = status;
        }
    }

    fn fast_path(&self, list: &AndOr) -> Result<(), VmSubsetFallbackReason> {
        let mut pipelines: Vec<Pipeline> = Vec::new();
        let mut facts: Vec<CommandFacts> = Vec::new();
        let mut all: Vec<&Vec<Cmd>> = vec![&list.first];
        all.extend(list.rest.iter().map(|(_, pipeline)| pipeline));
        for pipeline in all {
            let mut name = String::new();
            let mut commands: Vec<Command> = Vec::new();
            for cmd in pipeline {
                commands.push(match cmd {
                    Cmd::Simple { words, redirs, .. } if words.iter().all(|w| is_assignment(w)) => {
                        Command::Assign {
                            assignments: words.iter().map(|w| assignment(w)).collect(),
                            redirections: redirs.iter().map(redirection).collect(),
                        }
                    }
                    Cmd::Simple { words, redirs, .. } => {
                        name = words[0].iter().map(|p| p.text.as_str()).collect();
                        Command::Exec {
                            env: Vec::new(),
                            argv: words.iter().map(|w| library_word(w)).collect(),
                            redirections: redirs.iter().map(redirection).collect(),
                        }
                    }
                    Cmd::Function { .. } => Command::Other,
                });
            }
            facts.push(self.facts(&name));
            pipelines.push(Pipeline { negated: false, commands });
        }
        lower_vm_subset_and_or(
            self.rt.config.vm_subset_enabled,
            &pipelines,
            &self.rt.state,
            &self.rt.aliases,
            &facts,
        )
    }

    fn run_fast(&mut self, pipeline: &[Cmd]) {
        let Cmd::Simple { words, redirs, .. } = &pipeline[0] else {
            return;
        };
        if words.iter().all(|w| is_assignment(w)) {
            for w in words {
                let text = self.expand(w);
                let (name, value) = text.split_once('=').unwrap();
                if let AssignStep::Evaluate { name, expr } =
                    vm_assign(&mut self.rt.state, name.to_string(), value.to_string())
                {
                    finish_integer(&mut self.rt.state, name, expr.parse().unwrap_or(0));
                    self.rt.state.last_status = 0;
                }
            }
            return;
        }
        let argv: Vec<String> = words.iter().map(|w| self.expand(w)).collect();
        self.with_redirections(redirs, |host| host.call(&argv));
    }

    fn execute_pipeline(&mut self, pipeline: &[Cmd]) {
        if pipeline.len() == 1 {
            self.execute_command(&pipeline[0]);
            let statuses: Vec<i32> = vec![self.rt.state.last_status];
            set_pipestatus(&mut self.rt.state, &statuses);
            return;
        }
        let mut stages: Vec<StreamingPipelineStage> = Vec::new();
        let mut both: Vec<bool> = Vec::new();
        let mut copies: Vec<(usize, String)> = Vec::new();
        let mut failures: Vec<usize> = Vec::new();
        for (i, cmd) in pipeline.iter().enumerate() {
            let Cmd::Simple { words, redirs, both: piped } = cmd else {
                continue;
            };
            let argv: Vec<String> = words.iter().map(|w| self.expand(w)).collect();
            let facts = self.facts(&argv[0]);
            let plain: bool = redirs.is_empty() && group_body(words).is_none();
            let known = if plain { Some(argv.clone()) } else { None };
            let mut stage = compile_pipeline_stage(known, false, i == 0, facts);
            if let StreamingPipelineStage::File(_) = &stage {
                stage = StreamingPipelineStage::BufferedCommand(BufferedPipelineCommand::Whole);
            }
            if let StreamingPipelineStage::Tee(tee) = &stage {
                if tee.paths[0] == "/" {
                    failures.push(i);
                } else {
                    copies.push((i, tee.paths[0].clone()));
                }
            }
            stages.push(stage);
            both.push(*piped);
        }
        let mut net =
            Schedule::assemble(None, stages, &both, PIPEBUFFER_STREAMING_CAPACITY).unwrap();
        for i in failures {
            assert!(net.target_failed(i, "/", "is a directory: /"));
        }
        loop {
            let begun = self.begin_step();
            if self.rt.check_resource_limits(begun) {
                break;
            }
            net.start_round();
            loop {
                match net.advance() {
                    Step::RoundOver => break,
                    Step::Stuck => panic!("a filter cannot take its input"),
                    Step::Run(k) => {
                        let i: usize = net.stretches[k].stage.unwrap();
                        let input = net.input_of(k);
                        if i > 0 {
                            self.rt.set_pending_input(InputTarget::Bytes(input));
                        }
                        self.rt.console.push_output_capture(true, both[i]);
                        self.execute_command(&pipeline[i]);
                        let _ = self.rt.clear_pending_input();
                        let status: i32 = self.rt.state.last_status;
                        let captured = self.rt.console.pop_output_capture();
                        net.ran(k, &captured.stdout, &captured.stderr, status);
                    }
                }
            }
            self.check_pipe(net.held());
            if self.rt.console.resource_exhausted {
                break;
            }
            let out = net.take_output();
            self.write(&out, true);
            if net.round_ends(self.rt.console.resource_exhausted) {
                break;
            }
        }
        self.copy_to_files(&net, &copies);
        let stderr = net.stderr();
        self.write(&stderr, false);
        let statuses = net.statuses();
        let pipefail: bool = self.rt.state.get_var("SHOPT_o_pipefail").as_deref() == Some("1");
        let exhausted: bool = self.rt.console.resource_exhausted;
        settle_pipeline(&mut self.rt.state, &statuses, pipefail, exhausted);
    }

    fn check_pipe(&mut self, used: u64) {
        let limit: u64 = self.rt.config.pipe_byte_limit;
        let checked = if limit > 0 && used > limit {
            Err(ExhaustionReason { category: BudgetCategory::PipeBytes, used, limit })
        } else {
            Ok(())
        };
        self.rt.note_pipe_bytes(checked, "pipe buffer limit exceeded");
    }

    fn live(&mut self, script: &str, fed: bool) -> Option<Live> {
        let (_, items) = parse(script).unwrap();
        if items.len() != 1 || items[0].len() != 1 || !items[0][0].rest.is_empty() {
            return None;
        }
        let cmds = items[0][0].first.clone();
        let mut stages: Vec<StreamingPipelineStage> = Vec::new();
        let mut both: Vec<bool> = Vec::new();
        let mut copies: Vec<(usize, String)> = Vec::new();
        for (i, cmd) in cmds.iter().enumerate() {
            if let Cmd::Simple { words, both: piped, .. } = cmd {
                let argv: Vec<String> = words.iter().map(|w| self.expand(w)).collect();
                if argv[0] == "tee" {
                    copies.push((i, argv[1].clone()));
                }
                let facts = self.facts(&argv[0]);
                stages.push(compile_pipeline_stage(Some(argv), false, i == 0 && !fed, facts));
                both.push(*piped);
            }
        }
        let net = if fed {
            Schedule::assemble_open(stages, PIPEBUFFER_STREAMING_CAPACITY)
        } else {
            Schedule::assemble(None, stages, &both, PIPEBUFFER_STREAMING_CAPACITY)
        };
        net.map(|net| Live { net, cmds, both, copies })
    }

    /// Runs a live pipeline until nothing moves, its commands aside, and returns its output.
    fn pump(&mut self, live: &mut Live) -> Vec<u8> {
        let mut output: Vec<u8> = Vec::new();
        loop {
            live.net.start_round();
            loop {
                match live.net.advance() {
                    Step::RoundOver => break,
                    Step::Stuck => panic!("a filter cannot take its input"),
                    Step::Run(k) => {
                        let i: usize = live.net.stretches[k].stage.unwrap();
                        let input = InputTarget::Bytes(live.net.input_of(k));
                        let saved = self.rt.begin_isolated(Some(input));
                        self.rt.console.push_output_capture(true, live.both[i]);
                        self.execute_command(&live.cmds[i]);
                        let captured = self.rt.console.pop_output_capture();
                        let status: i32 = self.rt.state.last_status;
                        for event in self.rt.end_isolated(saved, Vec::new()) {
                            self.rt.absorb_event(event);
                        }
                        live.net.ran(k, &captured.stdout, &captured.stderr, status);
                    }
                }
            }
            output.extend(live.net.take_output());
            if live.net.round_ends(false) {
                break;
            }
        }
        self.copy_to_files(&live.net, &live.copies);
        output
    }

    fn copy_to_files(&mut self, net: &Schedule, copies: &[(usize, String)]) {
        for s in &net.stretches {
            if let Body::Filters(filters) = &s.body {
                for (j, link) in filters.links.iter().enumerate() {
                    for (i, path) in copies {
                        if *i == s.end - filters.links.len() + j {
                            self.files.insert(path.clone(), link.copied.clone());
                        }
                    }
                }
            }
        }
    }

    fn register_process_subst_out(&mut self, script: &str) -> String {
        let path = proc_subst_path(self.next_subst);
        self.next_subst += 1;
        let live = self.live(script, true);
        let pending = match &live {
            Some(_) => PendingSubst::Live(self.substs.len()),
            None => PendingSubst::Buffered(Vec::new()),
        };
        self.substs.push(Subst {
            path: path.clone(),
            script: script.to_string(),
            live,
            captured: Vec::new(),
            pending,
        });
        path
    }

    fn execute_process_subst_in(&mut self, script: &str) -> String {
        let path = proc_subst_path(self.next_subst);
        self.next_subst += 1;
        let live = self.live(script, false).unwrap();
        self.readers.insert(path.clone(), live);
        path
    }

    fn has_file(&self, path: &str) -> bool {
        self.files.contains_key(path) || self.readers.contains_key(path)
    }

    fn write_subst(&mut self, path: &str, data: &[u8]) {
        let at: usize = self.substs.iter().position(|s| s.path == path).unwrap();
        if self.substs[at].pending.write(data).is_some() {
            let mut live = self.substs[at].live.take().unwrap();
            live.net.add_input(data);
            let output = self.pump(&mut live);
            self.substs[at].captured.extend(output);
            self.substs[at].live = Some(live);
        }
    }

    fn flush_substs(&mut self) {
        let status: i32 = self.rt.state.last_status;
        for mut subst in std::mem::take(&mut self.substs) {
            match subst.pending {
                PendingSubst::Live(_) => {
                    let mut live = subst.live.take().unwrap();
                    live.net.end_input();
                    let output = self.pump(&mut live);
                    assert!(live.net.is_over());
                    subst.captured.extend(output);
                    let captured = std::mem::take(&mut subst.captured);
                    self.write(&captured, true);
                }
                PendingSubst::Buffered(data) => {
                    let saved = self.rt.begin_isolated(Some(InputTarget::Bytes(data)));
                    let inner = self.run_inner(&subst.script);
                    for event in self.rt.end_isolated(saved, inner) {
                        self.rt.absorb_event(event);
                    }
                }
            }
        }
        self.rt.state.last_status = status;
    }

    fn execute_command(&mut self, cmd: &Cmd) {
        match cmd {
            Cmd::Function { name, body } => {
                self.functions.insert(name.clone(), body.clone());
                self.rt.state.last_status = 0;
            }
            Cmd::Simple { words, .. } if group_body(words).is_some() => {
                let (_, items) = parse(group_body(words).unwrap()).unwrap();
                for list in items.iter().flatten() {
                    self.execute_and_or(list);
                }
            }
            Cmd::Simple { words, redirs, .. } => {
                if words.iter().all(|w| is_assignment(w)) {
                    self.with_redirections(redirs, |_| {});
                    for w in words {
                        let text = self.expand(w);
                        let (name, value) = text.split_once('=').unwrap();
                        let target = assignment_target(name);
                        let step =
                            assign_value(&mut self.rt.state, target, value.to_string(), 0);
                        if let AssignStep::Evaluate { name, expr } = step {
                            finish_integer(&mut self.rt.state, name, expr.parse().unwrap_or(0));
                        }
                    }
                    self.rt.state.last_status = 0;
                    return;
                }
                let mut groups: Vec<Vec<String>> = Vec::new();
                for w in words {
                    let text = self.expand(w);
                    let quoted: bool = w.iter().any(|p| p.quote != ' ');
                    if quoted {
                        groups.push(vec![text]);
                    } else {
                        for word in number_range(text) {
                            groups.push(self.expand_glob(word));
                        }
                    }
                }
                let argv = collect_globs(&groups);
                if let Some(script) =
                    try_alias_expansion(&self.rt.state, &self.rt.aliases, &argv)
                {
                    for event in self.run_inner(&script) {
                        self.rt.absorb_event(event);
                    }
                    return;
                }
                self.with_redirections(redirs, |host| {
                    if let Some(line) = trace_line(&host.rt.state, &argv) {
                        host.write(line.as_bytes(), false);
                    }
                    host.call(&argv);
                });
            }
        }
    }

    fn expand_glob(&mut self, arg: String) -> Vec<String> {
        let state = &self.rt.state;
        let options = GlobOptions {
            nullglob: get_shopt_value(state, "nullglob"),
            dotglob: get_shopt_value(state, "dotglob"),
            globstar: get_shopt_value(state, "globstar"),
            extglob: get_shopt_value(state, "extglob"),
        };
        let matches = match glob_plan(&arg, options) {
            GlobPlan::Plain => return vec![arg],
            GlobPlan::Nothing | GlobPlan::Walk { .. } => Vec::new(),
            GlobPlan::List { dir, pattern } => {
                let place = match &dir {
                    Some(d) => cwd_path(&state.cwd, d),
                    None => state.cwd.clone(),
                };
                let prefix = dir.unwrap_or_default();
                list_matches(&self.names_in(&place), &pattern, &prefix, options)
            }
        };
        finalize_glob_matches(arg, matches, options.nullglob)
    }

    fn expand(&mut self, parts: &[Part]) -> String {
        let mut out = String::new();
        for part in parts {
            if part.quote == '\'' {
                out.push_str(&part.text);
                continue;
            }
            let mut rest = part.text.as_str();
            while let Some(at) = rest.find('$') {
                out.push_str(&rest[..at]);
                let tail = &rest[at + 1..];
                if let Some(inner) = tail.strip_prefix('(') {
                    let end: usize = inner.rfind(')').unwrap();
                    let text = self.substitute(&inner[..end]);
                    out.push_str(&text);
                    rest = &inner[end + 1..];
                } else if let Some(inner) = tail.strip_prefix('{') {
                    let end: usize = inner.find('}').unwrap();
                    let name = &inner[..end];
                    out.push_str(&self.parameter(name));
                    rest = &inner[end + 1..];
                } else {
                    let end: usize = tail
                        .find(|c: char| !c.is_alphanumeric() && c != '_' && c != '?')
                        .unwrap_or(tail.len());
                    out.push_str(&self.parameter(&tail[..end]));
                    rest = &tail[end..];
                }
            }
            out.push_str(rest);
        }
        out
    }

    fn substitute(&mut self, script: &str) -> String {
        let saved = self.rt.begin_isolated(None);
        let inner = self.run_inner(script);
        let mut stdout: Vec<u8> = Vec::new();
        for event in self.rt.end_isolated(saved, inner) {
            match event {
                WorkerEvent::Stdout(data) => stdout.extend_from_slice(&data),
                other => {
                    self.rt.absorb_event(other);
                }
            }
        }
        substituted(&stdout)
    }

    fn parameter(&mut self, name: &str) -> String {
        let state = &mut self.rt.state;
        if let Some((var, default)) = name.split_once('-') {
            return state.get_var(var).unwrap_or_else(|| default.to_string());
        }
        if let Some(array) = name.strip_prefix('#') {
            return state.get_array_length(array.trim_end_matches("[@]")).to_string();
        }
        if let Some((array, index)) = name.split_once('[') {
            let index = index.trim_end_matches(']');
            if index == "@" || index == "*" {
                return state.get_array_values(array).join(" ");
            }
            return state.get_array_element(array, index).unwrap_or_default();
        }
        state.get_var(name).unwrap_or_default()
    }

    fn with_redirections<F: FnOnce(&mut Host)>(&mut self, redirs: &[Redir], f: F) {
        let mut resolved: Vec<ResolvedRedirection> = Vec::new();
        let outer: usize = self.substs.len();
        for r in redirs {
            if r.target[0].quote == '>' {
                let path = self.register_process_subst_out(&r.target[0].text);
                resolved.push(ResolvedRedirection::Output {
                    target: path.clone(),
                    path,
                    append: false,
                    fd: r.fd,
                    sink: SinkState::ProcessSubst,
                });
                continue;
            }
            let target = self.expand(&r.target);
            let path = cwd_path(&self.rt.state.cwd, &target);
            resolved.push(match r.op.as_str() {
                "<" => {
                    let kind = if self.files.contains_key(&path) {
                        SourceKind::File
                    } else {
                        SourceKind::Missing
                    };
                    ResolvedRedirection::Input { target, path, kind }
                }
                "dup" => ResolvedRedirection::DupOutput { fd: r.fd, target },
                op => {
                    let append: bool = op == ">>";
                    if !append {
                        self.files.insert(path.clone(), Vec::new());
                    }
                    let sink = SinkState::Opened(0);
                    ResolvedRedirection::Output { target, path, append, fd: r.fd, sink }
                }
            });
        }
        match prepare_exec_io(&self.rt.current_exec_io, resolved) {
            Err(message) => {
                self.write(message.as_bytes(), false);
                self.rt.state.last_status = 1;
            }
            Ok(None) => f(self),
            Ok(Some(io)) => {
                let saved = self.rt.current_exec_io.replace(io);
                f(self);
                let current = self.rt.current_exec_io.take();
                self.rt.current_exec_io = leave_io_scope(saved, current);
                if self.substs.len() > outer {
                    self.flush_substs();
                }
            }
        }
    }

    fn deliver(&mut self, target: Option<OutputTarget>, data: &[u8]) {
        match target {
            Some(OutputTarget::File { path, .. }) => {
                self.files.entry(path).or_default().extend_from_slice(data);
            }
            Some(OutputTarget::ProcessSubst { path }) => self.write_subst(&path, data),
            _ => {}
        }
    }

    fn write(&mut self, data: &[u8], stdout: bool) {
        let target = self.rt.console.write_output(&self.rt.current_exec_io, data, stdout);
        self.deliver(target, data);
    }

    fn write_builtin(&mut self, data: &[u8], stdout: bool) {
        match self.rt.console.write_builtin_output(&self.rt.current_exec_io, data, stdout) {
            Ok(Some(reason)) => self.rt.diagnostics.push(Diagnostic {
                level: DiagnosticLevel::Error,
                message: format!("output limit exceeded: {} of {}", reason.used, reason.limit),
            }),
            Ok(None) => {}
            Err(target) => self.deliver(Some(target), data),
        }
    }

    fn print(&mut self, printed: Printed) {
        for piece in &printed.pieces {
            self.write(piece.text.as_bytes(), piece.stream == Stream::Stdout);
        }
        self.rt.state.last_status = printed.status;
    }

    fn stdin(&mut self) -> Option<Vec<u8>> {
        match self.rt.take_pending_input()? {
            InputTarget::Bytes(data) => Some(data),
            InputTarget::File { path, .. } => self.files.get(&path).cloned(),
            _ => None,
        }
    }

    fn call(&mut self, argv: &Vec<String>) {
        let facts = self.facts(&argv[0]);
        match resolve_command(&argv[0], argv, facts) {
            ResolvedCommand::Runtime(RuntimeCommandKind::Exit) => {
                let arg = argv.get(1).map(|s| s.as_str());
                let code: i32 = self.rt.flow.request_exit(arg, self.rt.state.last_status);
                self.rt.state.last_status = code;
            }
            ResolvedCommand::Runtime(RuntimeCommandKind::Shopt) => {
                let args: Vec<String> = argv[1..].to_vec();
                let printed = execute_shopt(&mut self.rt.state, &args);
                self.print(printed);
            }
            ResolvedCommand::Runtime(RuntimeCommandKind::BuiltinKeyword) => {
                let rest: Vec<String> = argv[1..].to_vec();
                self.call_builtin(&rest);
            }
            ResolvedCommand::Runtime(RuntimeCommandKind::Type) => {
                let names: Vec<String> = argv[1..].to_vec();
                let facts: Vec<CommandFacts> = names.iter().map(|n| self.facts(n)).collect();
                let printed = execute_type(&self.rt.aliases, &names, &facts);
                self.print(printed);
            }
            ResolvedCommand::Runtime(RuntimeCommandKind::Source) => {
                let path_var = self.rt.state.get_var("PATH");
                let places = source_places(&argv[1], &path_var, &self.rt.state.cwd);
                let found = places.iter().find(|p| self.files.contains_key(*p)).cloned();
                match found {
                    Some(path) => {
                        let script = String::from_utf8(self.files[&path].clone()).unwrap();
                        self.rt.state.source_stack.push(path);
                        for event in self.run_inner(&script) {
                            self.rt.absorb_event(event);
                        }
                        self.rt.state.source_stack.pop();
                    }
                    None => {
                        self.write(source_not_found(&argv[1]).as_bytes(), false);
                        self.rt.state.last_status = 1;
                    }
                }
            }
            ResolvedCommand::Function => {
                let body = self.functions[&argv[0]].clone();
                let limit: u64 = self.rt.config.recursion_limit.into();
                let used: u64 = self.depth + 1;
                let entered = if used > limit {
                    let category = BudgetCategory::RecursionDepth;
                    Err(ExhaustionReason { category, used, limit })
                } else {
                    Ok(())
                };
                match self.rt.enter_function(&argv[0], argv, entered) {
                    Ok(frame) => {
                        self.depth += 1;
                        self.run_trap(TrapKind::Debug);
                        let (_, items) = parse(&body).unwrap();
                        for list in items.iter().flatten() {
                            self.execute_and_or(list);
                        }
                        self.run_trap(TrapKind::Return);
                        self.rt.leave_function(frame);
                        self.depth -= 1;
                    }
                    Err(message) => self.write(message.as_bytes(), false),
                }
            }
            ResolvedCommand::Builtin => self.call_builtin(argv),
            ResolvedCommand::Utility(_) => self.call_cat(argv),
            _ => self.call_external(argv),
        }
    }

    fn call_builtin(&mut self, argv: &[String]) {
        let mut status: i32 = 0;
        match argv[0].as_str() {
            "echo" => {
                let bytes = streaming_echo_bytes(&argv[1..]);
                self.write_builtin(&bytes, true);
            }
            "printf" => {
                let text = argv[1].replace("\\n", "\n");
                self.write_builtin(text.as_bytes(), true);
            }
            "false" => status = 1,
            "trap" => {
                let var = match argv[2].as_str() {
                    "EXIT" | "DEBUG" | "RETURN" | "ERR" => format!("_TRAP_{}", argv[2]),
                    name => format!("_TRAP_SIG_{name}"),
                };
                self.rt.state.set_var(var, argv[1].clone());
            }
            "set" => {
                let value = if argv[1].starts_with('-') { "1" } else { "0" };
                let option = argv[1][1..].to_string();
                let var = match argv.get(2) {
                    Some(name) => format!("SHOPT_{option}_{name}"),
                    None => format!("SHOPT_{option}"),
                };
                self.rt.state.set_var(var, value.to_string());
            }
            _ => {}
        }
        self.rt.state.last_status = status;
    }

    fn call_cat(&mut self, argv: &[String]) {
        let mut data = if argv[0] != "grep" && argv.len() > 1 {
            let path = cwd_path(&self.rt.state.cwd, &argv[1]);
            self.files.get(&path).cloned().unwrap_or_default()
        } else {
            self.stdin().unwrap_or_default()
        };
        if argv[0] == "sort" {
            let text = String::from_utf8(data).unwrap();
            let mut lines: Vec<&str> = text.lines().collect();
            lines.sort();
            data = lines.iter().map(|l| format!("{l}\n")).collect::<String>().into_bytes();
        }
        let mut status: i32 = 0;
        if argv[0] == "grep" {
            let stage = parse_streaming_stage(argv, false, self.facts("grep")).unwrap();
            let out = run_pipeline(data, vec![stage], PIPEBUFFER_STREAMING_CAPACITY).unwrap();
            data = out.stdout;
            status = out.status;
        }
        self.write(&data, true);
        self.rt.state.last_status = status;
    }

    fn call_external(&mut self, argv: &[String]) {
        let stdin = self.stdin().map(|data| ExternalCommandStdin::from_bytes(&data));
        let result = match self.handler.as_mut() {
            Some(handler) => handler(&argv[0], argv, stdin),
            None => None,
        };
        match result {
            Some(result) => {
                let (out, err) = self.rt.console.write_streams(
                    &self.rt.current_exec_io,
                    &result.stdout,
                    &result.stderr,
                );
                self.deliver(out, &result.stdout);
                self.deliver(err, &result.stderr);
                self.rt.state.last_status = result.status;
            }
            None => {
                self.write(not_found_line(&argv[0]).as_bytes(), false);
                self.rt.state.last_status = 127;
            }
        }
    }
}

fn shape(list: &AndOr) -> AndOrShape {
    AndOrShape { joined: !list.rest.is_empty(), negated: false }
}

fn assignment(parts: &[Part]) -> Assignment {
    let (name, first) = parts[0].text.split_once('=').unwrap();
    let mut value: Vec<Part> = vec![Part { text: first.to_string(), quote: ' ' }];
    value.extend_from_slice(&parts[1..]);
    Assignment { name: name.to_string(), value: Some(library_word(&value)) }
}

fn redirection(r: &Redir) -> Redirection {
    let op = match r.op.as_str() {
        ">" => RedirectionOp::Output,
        ">>" => RedirectionOp::Append,
        "<" => RedirectionOp::Input,
        _ => RedirectionOp::DupOutput,
    };
    Redirection { op, fd: r.fd, target: library_word(&r.target), has_here_doc: false }
}

fn get_stdout(events: &[WorkerEvent]) -> String {
    let mut out: Vec<u8> = Vec::new();
    for event in events {
        if let WorkerEvent::Stdout(data) = event {
            out.extend_from_slice(data);
        }
    }
    String::from_utf8(out).unwrap_or_default()
}

fn get_stderr(events: &[WorkerEvent]) -> String {
    let mut out: Vec<u8> = Vec::new();
    for event in events {
        if let WorkerEvent::Stderr(data) = event {
            out.extend_from_slice(data);
        }
    }
    String::from_utf8(out).unwrap_or_default()
}

fn get_exit(events: &[WorkerEvent]) -> i32 {
    events
        .iter()
        .find_map(|event| match event {
            WorkerEvent::Exit(status) => Some(*status),
            _ => None,
        })
        .unwrap_or(-1)
}

fn init(step_budget: u64) -> HostCommand {
    HostCommand::Init { step_budget, allowed_hosts: vec![] }
}

fn new_runtime(step_budget: u32) -> Host {
    let mut rt = Host::bare();
    rt.handle_command(init(step_budget.into()));
    rt
}

fn install_hosterr(rt: &mut Host) {
    rt.set_external_handler(Box::new(|name, _argv, _stdin| {
        if name != "hosterr" {
            return None;
        }
        Some(ExternalCommandResult {
            stdout: Vec::new(),
            stderr: b"ERR\n".to_vec(),
            status: 0,
        })
    }));
}

fn install_hostcat(rt: &mut Host) {
    rt.set_external_handler(Box::new(|name, _argv, stdin| {
        if name != "hostcat" {
            return None;
        }
        let stdout = stdin
            .map(|mut stdin| {
                let mut out = Vec::new();
                let mut buffer = [0u8; 4096];
                loop {
                    match stdin.read_chunk(&mut buffer) {
                        Ok(0) => break,
                        Ok(read) => out.extend_from_slice(&buffer[..read]),
                        Err(_) => return Vec::new(),
                    }
                }
                out
            })
            .unwrap_or_default();
        Some(ExternalCommandResult { stdout, stderr: Vec::new(), status: 0 })
    }));
}

fn run(rt: &mut Host, input: &str) -> Vec<WorkerEvent> {
    rt.handle_command(HostCommand::Run { input: input.into() })
}

fn write_file(rt: &mut Host, path: &str, data: &[u8]) -> Vec<WorkerEvent> {
    rt.handle_command(HostCommand::WriteFile { path: path.into(), data: data.to_vec() })
}

fn collect_execution_events(rt: &mut Host) -> Vec<WorkerEvent> {
    let mut events = Vec::new();
    while let Some(poll) = rt.poll_active_run() {
        match poll {
            ExecutionPoll::Yield(mut batch) => events.append(&mut batch),
            ExecutionPoll::Done(mut batch) => {
                events.append(&mut batch);
                break;
            }
        }
    }
    events
}

fn has_yielded(events: &[WorkerEvent]) -> bool {
    events.iter().any(|event| matches!(event, WorkerEvent::Yielded))
}

fn run_with_vm_subset(input: &str, enabled: bool) -> Vec<WorkerEvent> {
    let mut rt = new_runtime(0);
    rt.set_vm_subset_enabled(enabled);
    run(&mut rt, input)
}

fn run_one_shot(input: &str, step_budget: u32) -> Vec<WorkerEvent> {
    let mut rt = new_runtime(step_budget);
    run(&mut rt, input)
}

fn run_progressive(input: &str, step_budget: u32) -> Vec<WorkerEvent> {
    let mut rt = new_runtime(step_budget);
    let start = rt.handle_command(HostCommand::StartRun { input: input.into() });
    assert_eq!(start, vec![WorkerEvent::Yielded]);

    let mut events = Vec::new();
    loop {
        let batch = rt.handle_command(HostCommand::PollRun);
        let finished = get_exit(&batch) >= 0;
        events.extend(batch.into_iter().filter(|event| !matches!(event, WorkerEvent::Yielded)));
        if finished {
            break;
        }
    }
    events
}

fn assert_one_shot_matches_progressive(input: &str, step_budget: u32) {
    let direct = run_one_shot(input, step_budget);
    let progressive = run_progressive(input, step_budget);
    assert_eq!(direct, progressive, "input: {input}");
}

fn assert_vm_subset_matches_fallback(input: &str) {
    let vm_events = run_with_vm_subset(input, true);
    let fallback_events = run_with_vm_subset(input, false);
    assert_eq!(vm_events, fallback_events, "input: {input}");
}

#[test]
fn init_returns_protocol_version() {
    let mut rt = Host::bare();
    let events = rt.handle_command(init(0));
    assert_eq!(events.len(), 1);
    assert_eq!(events[0], WorkerEvent::Version(PROTOCOL_VERSION.to_string()));
}

#[test]
fn run_echo_hello() {
    let mut rt = Host::bare();
    rt.handle_command(init(0));
    let events = run(&mut rt, "echo hello");
    assert_eq!(get_stdout(&events), "hello\n");
    assert_eq!(get_exit(&events), 0);
}

#[test]
fn simple_command_runs_with_single_step_budget() {
    let mut rt = Host::bare();
    rt.handle_command(init(1));
    let events = run(&mut rt, "echo hello");
    assert_eq!(get_stdout(&events), "hello\n");
    assert_eq!(get_exit(&events), 0);
}

#[test]
fn compound_array_assignment_preserves_indexed_array_state() {
    let mut rt = new_runtime(0);
    let events = run(
        &mut rt,
        "arr=(one two three)\necho ${arr[0]}\necho ${#arr[@]}\necho \"${arr[@]}\"",
    );
    assert_eq!(get_stdout(&events), "one\n3\none two three\n");
    assert_eq!(get_exit(&events), 0);
}

#[test]
fn set_x_traces_single_stage_commands() {
    let mut rt = new_runtime(0);
    let events = run(&mut rt, "set -x\necho hello\nset +x");
    assert_eq!(get_stdout(&events), "hello\n");
    assert!(get_stderr(&events).contains("echo hello"));
    assert_eq!(get_exit(&events), 0);
}

#[test]
fn write_file_then_read_file() {
    let mut rt = Host::bare();
    rt.handle_command(init(0));

    let write_events = write_file(&mut rt, "/test.txt", b"content");
    assert!(write_events.iter().any(|e| matches!(e, WorkerEvent::FsChanged(_))));

    let read_events = rt.handle_command(HostCommand::ReadFile { path: "/test.txt".into() });
    assert_eq!(read_events, vec![WorkerEvent::Stdout(b"content".to_vec())]);
}

#[test]
fn list_dir_shows_written_files() {
    let mut rt = Host::bare();
    rt.handle_command(init(0));
    write_file(&mut rt, "/a.txt", b"");
    write_file(&mut rt, "/b.txt", b"");

    let events = rt.handle_command(HostCommand::ListDir { path: "/".into() });
    let stdout = get_stdout(&events);
    assert!(stdout.contains("a.txt"), "got: {stdout}");
    assert!(stdout.contains("b.txt"), "got: {stdout}");
}

#[test]
fn run_not_initialized_returns_error() {
    let mut rt = Host::bare();
    let events = run(&mut rt, "echo hello");
    assert!(events
        .iter()
        .any(|e| matches!(e, WorkerEvent::Diagnostic(DiagnosticLevel::Error, _))));
}

#[test]
fn vm_subset_matches_fallback_for_echo_hello() {
    let vm_events = run_with_vm_subset("echo hello", true);
    let fallback_events = run_with_vm_subset("echo hello", false);
    assert_eq!(vm_events, fallback_events);
}

#[test]
fn vm_subset_matches_fallback_for_assignment_then_echo() {
    let input = "FOO=bar; echo $FOO";
    let vm_events = run_with_vm_subset(input, true);
    let fallback_events = run_with_vm_subset(input, false);
    assert_eq!(vm_events, fallback_events);
    assert_eq!(get_stdout(&vm_events), "bar\n");
}

#[test]
fn vm_subset_matches_fallback_for_short_circuit_lists() {
    for input in ["true && echo ok", "false || echo ok"] {
        let vm_events = run_with_vm_subset(input, true);
        let fallback_events = run_with_vm_subset(input, false);
        assert_eq!(vm_events, fallback_events, "input: {input}");
    }
}

#[test]
fn vm_subset_matches_fallback_for_builtin_stdout_redirection() {
    let input = "echo hello > /out.txt; cat /out.txt";
    let vm_events = run_with_vm_subset(input, true);
    let fallback_events = run_with_vm_subset(input, false);
    assert_eq!(vm_events, fallback_events);
}

#[test]
fn invariant_yield_resume_equivalence_matrix() {
    for input in [
        "echo hello",
        "echo hello | cat",
        "echo hello > /out.txt; cat /out.txt",
        "FOO=bar; echo $FOO",
        "true && echo ok",
    ] {
        assert_one_shot_matches_progressive(input, 1);
    }
}

#[test]
fn invariant_cancellation_isolation_after_pipeline_yield() {
    let mut rt = new_runtime(1);

    rt.start_execution("echo first | cat; echo second".into()).expect("start execution");
    match rt.poll_active_run().expect("first poll") {
        ExecutionPoll::Yield(events) => assert_eq!(get_stdout(&events), "first\n"),
        ExecutionPoll::Done(events) => panic!("expected yield, got done: {events:?}"),
    }

    let cancel = rt.handle_command(HostCommand::Cancel);
    assert!(cancel.iter().any(
        |event| matches!(event, WorkerEvent::Diagnostic(DiagnosticLevel::Info, msg) if msg == "cancel received")
    ));
    match rt.poll_active_run().expect("cancelled poll") {
        ExecutionPoll::Done(events) => assert_eq!(get_exit(&events), 130),
        ExecutionPoll::Yield(events) => panic!("expected completion, got yield: {events:?}"),
    }

    let recovered = run(&mut rt, "echo recovered | cat");
    let clean = run_one_shot("echo recovered | cat", 1);
    assert_eq!(recovered, clean);
}

#[test]
fn invariant_vm_subset_fallback_equivalence_matrix() {
    for input in [
        "echo hello",
        "FOO=bar; echo $FOO",
        "true && echo ok",
        "false || echo ok",
        "echo hello > /out.txt; cat /out.txt",
    ] {
        assert_vm_subset_matches_fallback(input);
    }
}

#[test]
fn cancel_returns_diagnostic() {
    let mut rt = new_runtime(0);
    let events = rt.handle_command(HostCommand::Cancel);
    assert!(events
        .iter()
        .any(|e| matches!(e, WorkerEvent::Diagnostic(DiagnosticLevel::Info, _))));
}

#[test]
fn signal_runs_registered_trap_without_exiting_idle_shell() {
    let mut rt = new_runtime(0);
    let setup = run(&mut rt, "trap 'echo term' TERM");
    assert_eq!(get_exit(&setup), 0);

    let events = rt.handle_command(HostCommand::Signal { signal: "SIGTERM".into() });
    assert_eq!(get_stdout(&events), "term\n");
    assert_eq!(get_exit(&events), -1);

    let recovered = run(&mut rt, "echo recovered");
    assert_eq!(get_stdout(&recovered), "recovered\n");
    assert_eq!(get_exit(&recovered), 0);
}

#[test]
fn terminating_signal_runs_exit_trap_and_reports_bash_status() {
    let mut rt = new_runtime(0);
    let setup = run(&mut rt, "trap 'echo cleanup' EXIT");
    assert_eq!(get_exit(&setup), 0);

    let events = rt.handle_command(HostCommand::Signal { signal: "15".into() });
    assert_eq!(get_stdout(&events), "cleanup\n");
    assert_eq!(get_exit(&events), 143);

    let recovered = run(&mut rt, "echo recovered");
    assert_eq!(get_stdout(&recovered), "recovered\n");
    assert_eq!(get_exit(&recovered), 0);
}

#[test]
fn trapped_signal_can_interrupt_progressive_run_without_forcing_exit() {
    let mut rt = new_runtime(1);
    let setup = run(&mut rt, "trap 'seen=trapped' TERM");
    assert_eq!(get_exit(&setup), 0);

    let start = rt.handle_command(HostCommand::StartRun {
        input: "echo first; echo second".into(),
    });
    assert_eq!(start, vec![WorkerEvent::Yielded]);

    let first = rt.handle_command(HostCommand::PollRun);
    assert_eq!(get_stdout(&first), "first\n");
    assert!(has_yielded(&first));

    let signal = rt.handle_command(HostCommand::Signal { signal: "TERM".into() });
    assert_eq!(get_stdout(&signal), "");
    assert_eq!(get_exit(&signal), -1);

    let second = rt.handle_command(HostCommand::PollRun);
    assert_eq!(get_stdout(&second), "second\n");
    assert_eq!(get_exit(&second), 0);

    let seen = run(&mut rt, "echo ${seen-unset}");
    assert_eq!(get_stdout(&seen), "trapped\n");
}

#[test]
fn terminating_signal_stops_progressive_run_with_signal_exit_code() {
    let mut rt = new_runtime(1);

    let start = rt.handle_command(HostCommand::StartRun {
        input: "echo first; echo second".into(),
    });
    assert_eq!(start, vec![WorkerEvent::Yielded]);

    let first = rt.handle_command(HostCommand::PollRun);
    assert_eq!(get_stdout(&first), "first\n");
    assert!(has_yielded(&first));

    let signal = rt.handle_command(HostCommand::Signal { signal: "TERM".into() });
    assert!(signal.iter().any(|event| {
        matches!(
            event,
            WorkerEvent::Diagnostic(DiagnosticLevel::Info, message)
                if message == "signal TERM received"
        )
    }));

    let done = rt.handle_command(HostCommand::PollRun);
    assert_eq!(get_stdout(&done), "");
    assert_eq!(get_exit(&done), 143);
}

#[test]
fn stop_like_signals_report_job_control_gap() {
    let mut rt = new_runtime(0);
    let events = rt.handle_command(HostCommand::Signal { signal: "TSTP".into() });
    assert!(events.iter().any(|event| {
        matches!(
            event,
            WorkerEvent::Diagnostic(DiagnosticLevel::Warning, message)
                if message.contains("job-control stop semantics")
        )
    }));
}

#[test]
fn active_execution_yields_and_resumes_with_small_budget() {
    let mut rt = new_runtime(1);

    rt.start_execution("echo one; echo two".into()).unwrap();

    let first = rt.poll_active_run().expect("first poll");
    match first {
        ExecutionPoll::Yield(events) => {
            assert_eq!(get_stdout(&events), "one\n");
            assert_eq!(get_exit(&events), -1);
        }
        ExecutionPoll::Done(events) => panic!("expected yield, got done: {events:?}"),
    }

    let second = rt.poll_active_run().expect("second poll");
    match second {
        ExecutionPoll::Done(events) => {
            assert_eq!(get_stdout(&events), "two\n");
            assert_eq!(get_exit(&events), 0);
        }
        ExecutionPoll::Yield(events) => panic!("expected completion, got yield: {events:?}"),
    }
}

#[test]
fn active_execution_matches_run_wrapper_output() {
    let mut direct = new_runtime(1);
    let mut resumable = new_runtime(1);

    let input = "echo left; hosterr; echo right";
    install_hosterr(&mut direct);
    install_hosterr(&mut resumable);

    let direct_events = run(&mut direct, input);
    resumable.start_execution(input.into()).unwrap();
    let resumed_events = collect_execution_events(&mut resumable);

    assert_eq!(direct_events, resumed_events);
}

#[test]
fn cancelling_active_execution_returns_clean_exit_and_next_run_recovers() {
    let mut rt = new_runtime(1);

    rt.start_execution("echo first; echo second".into()).unwrap();
    match rt.poll_active_run().expect("first poll") {
        ExecutionPoll::Yield(events) => assert_eq!(get_stdout(&events), "first\n"),
        ExecutionPoll::Done(events) => panic!("expected yield, got done: {events:?}"),
    }

    let cancel = rt.handle_command(HostCommand::Cancel);
    assert!(cancel.iter().any(
        |event| matches!(event, WorkerEvent::Diagnostic(DiagnosticLevel::Info, msg) if msg == "cancel received")
    ));

    let cancelled = rt.poll_active_run().expect("cancelled poll");
    match cancelled {
        ExecutionPoll::Done(events) => {
            assert_eq!(get_stdout(&events), "");
            assert_eq!(get_exit(&events), 130);
        }
        ExecutionPoll::Yield(events) => panic!("expected clean cancel, got yield: {events:?}"),
    }

    let recovered = run(&mut rt, "echo recovered");
    assert_eq!(get_stdout(&recovered), "recovered\n");
    assert_eq!(get_exit(&recovered), 0);
}

#[test]
fn yielded_execution_does_not_leak_unreached_state_into_next_run() {
    let mut rt = new_runtime(1);

    rt.start_execution("echo ready; foo=after-yield".into()).unwrap();
    match rt.poll_active_run().expect("first poll") {
        ExecutionPoll::Yield(events) => assert_eq!(get_stdout(&events), "ready\n"),
        ExecutionPoll::Done(events) => panic!("expected yield, got done: {events:?}"),
    }

    rt.handle_command(HostCommand::Cancel);
    match rt.poll_active_run().expect("cancelled poll") {
        ExecutionPoll::Done(events) => assert_eq!(get_exit(&events), 130),
        ExecutionPoll::Yield(events) => panic!("expected completion, got yield: {events:?}"),
    }

    let next = run(&mut rt, "echo ${foo-unset}");
    assert_eq!(get_stdout(&next), "unset\n");
    assert_eq!(get_exit(&next), 0);
}

#[test]
fn start_run_acknowledges_active_execution_without_finishing() {
    let mut rt = new_runtime(1);

    let start = rt.handle_command(HostCommand::StartRun { input: "echo one; echo two".into() });
    assert_eq!(start, vec![WorkerEvent::Yielded]);

    let first_poll = rt.handle_command(HostCommand::PollRun);
    assert_eq!(get_stdout(&first_poll), "one\n");
    assert_eq!(get_exit(&first_poll), -1);
    assert!(has_yielded(&first_poll));
}

#[test]
fn poll_run_drains_incremental_output_until_exit() {
    let mut rt = new_runtime(1);

    rt.handle_command(HostCommand::StartRun {
        input: "echo one; echo two; echo three".into(),
    });

    let first = rt.handle_command(HostCommand::PollRun);
    assert_eq!(get_stdout(&first), "one\n");
    assert!(has_yielded(&first));

    let second = rt.handle_command(HostCommand::PollRun);
    assert_eq!(get_stdout(&second), "two\n");
    assert!(has_yielded(&second));

    let third = rt.handle_command(HostCommand::PollRun);
    assert_eq!(get_stdout(&third), "three\n");
    assert_eq!(get_exit(&third), 0);
    assert!(!has_yielded(&third));
}

#[test]
fn progressive_cancel_and_restart_work_normally() {
    let mut rt = new_runtime(1);

    rt.handle_command(HostCommand::StartRun { input: "echo first; echo second".into() });
    let first = rt.handle_command(HostCommand::PollRun);
    assert_eq!(get_stdout(&first), "first\n");
    assert!(has_yielded(&first));

    let cancel = rt.handle_command(HostCommand::Cancel);
    assert!(cancel.iter().any(
        |event| matches!(event, WorkerEvent::Diagnostic(DiagnosticLevel::Info, msg) if msg == "cancel received")
    ));

    let cancelled = rt.handle_command(HostCommand::PollRun);
    assert_eq!(get_exit(&cancelled), 130);
    assert!(!has_yielded(&cancelled));

    let restart = rt.handle_command(HostCommand::StartRun { input: "echo restarted".into() });
    assert_eq!(restart, vec![WorkerEvent::Yielded]);
    let restarted = rt.handle_command(HostCommand::PollRun);
    assert_eq!(get_stdout(&restarted), "restarted\n");
    assert_eq!(get_exit(&restarted), 0);
}

#[test]
fn run_remains_compatible_with_progressive_protocol_added() {
    let mut one_shot = new_runtime(1);
    let mut progressive = new_runtime(1);

    install_hosterr(&mut one_shot);
    install_hosterr(&mut progressive);
    let input = "echo left; hosterr; echo right";

    let run_events = run(&mut one_shot, input);
    let start = progressive.handle_command(HostCommand::StartRun { input: input.into() });
    assert_eq!(start, vec![WorkerEvent::Yielded]);

    let mut progressive_events = Vec::new();
    loop {
        let batch = progressive.handle_command(HostCommand::PollRun);
        let status: i32 = get_exit(&batch);
        progressive_events.extend(batch);
        if status >= 0 {
            break;
        }
    }
    progressive_events.retain(|event| !matches!(event, WorkerEvent::Yielded));

    assert_eq!(run_events, progressive_events);
}

#[test]
fn cat_reads_vfs_file() {
    let mut rt = new_runtime(0);
    write_file(&mut rt, "/hello.txt", b"world");
    let events = run(&mut rt, "cat /hello.txt");
    assert_eq!(get_stdout(&events), "world");
    assert_eq!(get_exit(&events), 0);
}

#[test]
fn input_redirection_reads_vfs_file_lazily() {
    let mut rt = new_runtime(0);
    write_file(&mut rt, "/input.txt", b"redirected");
    let events = run(&mut rt, "cat < /input.txt");
    assert_eq!(get_stdout(&events), "redirected");
    assert_eq!(get_exit(&events), 0);
}

#[test]
fn run_recovers_after_exit_builtin() {
    let mut rt = new_runtime(0);

    let events = run(&mut rt, "exit 42");
    assert_eq!(get_exit(&events), 42);

    let events = run(&mut rt, "echo recovered");
    assert_eq!(get_stdout(&events), "recovered\n");
    assert_eq!(get_exit(&events), 0);
}

#[test]
fn single_stage_literal_commands_apply_brace_and_glob_expansion() {
    let mut rt = new_runtime(0);
    write_file(&mut rt, "/ab", b"");
    write_file(&mut rt, "/ac", b"");
    let events =
        run(&mut rt, "shopt -s nullglob\necho {1..3}\necho /a?\necho *.missing");
    assert_eq!(get_stdout(&events), "1 2 3\n/ab /ac\n\n");
    assert_eq!(get_exit(&events), 0);
}

#[test]
fn single_quoted_glob_not_expanded() {
    let mut rt = Host::bare();
    rt.handle_command(init(0));
    write_file(&mut rt, "/testfile", b"");
    let events = run(&mut rt, "echo '[a-z]*'");
    assert_eq!(get_stdout(&events), "[a-z]*\n");
    assert_eq!(get_exit(&events), 0);
}

#[test]
fn unquoted_globs_follow_the_options() {
    let mut rt = new_runtime(0);
    write_file(&mut rt, "/ab", b"");
    write_file(&mut rt, "/ac", b"");
    let events = run(&mut rt, "shopt -u nullglob\necho *.missing");
    assert_eq!(get_stdout(&events), "*.missing\n");
}

#[test]
fn external_handler_receives_pipeline_stdin() {
    let mut rt = Host::bare();
    install_hostcat(&mut rt);
    rt.handle_command(init(0));

    let events = run(&mut rt, "printf hi | hostcat");
    assert_eq!(get_stdout(&events), "hi");
    assert_eq!(get_exit(&events), 0);
}

#[test]
fn external_handler_2dup1_then_stdout_redirect_keeps_stderr_visible() {
    let mut rt = Host::bare();
    install_hosterr(&mut rt);
    rt.handle_command(init(0));

    let events = run(&mut rt, "hosterr 2>&1 > /out.txt; cat /out.txt");

    assert_eq!(get_stdout(&events), "ERR\n");
    assert_eq!(get_stderr(&events), "");

    let file = rt.handle_command(HostCommand::ReadFile { path: "/out.txt".into() });
    assert_eq!(get_stdout(&file), "");
}

#[test]
fn external_handler_stdout_redirect_then_2dup1_captures_stderr_in_file() {
    let mut rt = Host::bare();
    install_hosterr(&mut rt);
    rt.handle_command(init(0));

    let events = run(&mut rt, "hosterr > /out.txt 2>&1; cat /out.txt");

    assert_eq!(get_stdout(&events), "ERR\n");
    assert_eq!(get_stderr(&events), "");

    let file = rt.handle_command(HostCommand::ReadFile { path: "/out.txt".into() });
    assert_eq!(get_stdout(&file), "ERR\n");
}

#[test]
fn external_handler_2dup1_into_pipeline_sends_stderr_to_stdout_pipe() {
    let mut rt = Host::bare();
    install_hosterr(&mut rt);
    rt.handle_command(init(0));

    let events = run(&mut rt, "hosterr 2>&1 | cat");

    assert_eq!(get_stdout(&events), "ERR\n");
    assert_eq!(get_stderr(&events), "");
}

#[test]
fn builtin_path_uses_same_io_redirection_model() {
    let mut rt = Host::bare();
    rt.handle_command(init(0));

    let events = run(&mut rt, "printf hello > /out.txt; cat /out.txt");

    assert_eq!(get_stdout(&events), "hello");
}

#[test]
fn utility_path_uses_same_io_redirection_model() {
    let mut rt = Host::bare();
    rt.handle_command(init(0));
    write_file(&mut rt, "/in.txt", b"input\n");

    let events = run(&mut rt, "cat < /in.txt");

    assert_eq!(get_stdout(&events), "input\n");
}

#[test]
fn external_path_uses_same_io_redirection_model() {
    let mut rt = Host::bare();
    install_hostcat(&mut rt);
    rt.handle_command(init(0));
    write_file(&mut rt, "/in.txt", b"input\n");

    let events = run(&mut rt, "hostcat < /in.txt");

    assert_eq!(get_stdout(&events), "input\n");
}

#[test]
fn function_path_uses_same_io_redirection_model() {
    let mut rt = Host::bare();
    rt.handle_command(init(0));
    write_file(&mut rt, "/in.txt", b"input\n");

    let events = run(&mut rt, "f(){ cat; }\nf < /in.txt > /out.txt; cat /out.txt");

    assert_eq!(get_stdout(&events), "input\n");
}

#[test]
fn mixed_pipeline_external_and_file_redirection_share_io_model() {
    let mut rt = Host::bare();
    install_hostcat(&mut rt);
    rt.handle_command(init(0));

    let events = run(&mut rt, "printf hi | hostcat > /out.txt; cat /out.txt");

    assert_eq!(get_stdout(&events), "hi");
}

#[test]
fn function_shadowing_utility_takes_precedence() {
    let mut rt = Host::bare();
    rt.handle_command(init(0));
    write_file(&mut rt, "/in.txt", b"utility\n");

    let events = run(
        &mut rt,
        "cat(){ printf function; }\ncat < /in.txt > /out.txt; cat /out.txt",
    );

    assert_eq!(get_stdout(&events), "function");
}

#[test]
fn builtin_keyword_bypasses_function_shadowing() {
    let mut rt = Host::bare();
    rt.handle_command(init(0));

    let events = run(
        &mut rt,
        "printf(){ echo function; }\nprintf > /fn.txt; builtin printf builtin > /builtin.txt; cat /fn.txt; cat /builtin.txt",
    );

    assert_eq!(get_stdout(&events), "function\nbuiltin");
}

#[test]
fn source_uses_redirected_io_and_preserves_shell_state() {
    let mut rt = Host::bare();
    rt.handle_command(init(0));
    write_file(&mut rt, "/lib.sh", b"echo sourced\nX=loaded\n");

    let events = run(&mut rt, "source /lib.sh > /out.txt; cat /out.txt; echo $X");

    assert_eq!(get_stdout(&events), "sourced\nloaded\n");
}

#[test]
fn trap_inheritance_respects_errtrace_and_functrace_flags() {
    let mut rt = new_runtime(0);
    let debug_off = run(&mut rt, "trap 'echo debug' DEBUG\nf(){ echo body; }\nf");
    assert_eq!(get_stdout(&debug_off), "debug\nbody\n");

    let mut rt = new_runtime(0);
    let debug_on = run(&mut rt, "set -T\ntrap 'echo debug' DEBUG\nf(){ echo body; }\nf");
    assert_eq!(get_stdout(&debug_on), "debug\ndebug\ndebug\nbody\n");

    let mut rt = new_runtime(0);
    let return_off = run(&mut rt, "trap 'echo return' RETURN\nf(){ echo body; }\nf");
    assert_eq!(get_stdout(&return_off), "body\n");

    let mut rt = new_runtime(0);
    let return_on = run(&mut rt, "set -T\ntrap 'echo return' RETURN\nf(){ echo body; }\nf");
    assert_eq!(get_stdout(&return_on), "body\nreturn\n");

    let mut rt = new_runtime(0);
    let err_off = run(&mut rt, "trap 'echo err' ERR\nf(){ false; }\nf\necho status:$?");
    assert_eq!(get_stdout(&err_off), "err\nstatus:1\n");

    let mut rt = new_runtime(0);
    let err_on = run(&mut rt, "set -E\ntrap 'echo err' ERR\nf(){ false; }\nf\necho status:$?");
    assert_eq!(get_stdout(&err_on), "err\nerr\nstatus:1\n");
}

fn has_output_limit_diagnostic(events: &[WorkerEvent]) -> bool {
    events.iter().any(|event| {
        matches!(
            event,
            WorkerEvent::Diagnostic(_, message) if message.contains("output limit exceeded")
        )
    })
}

fn first_and_or(source: &str) -> AndOr {
    parse(source).unwrap().1[0][0].clone()
}

#[test]
fn output_limit_exposes_structured_exhaustion_reason() {
    let mut runtime = new_runtime(0);
    runtime.rt.set_output_byte_limit(3);

    let events = run(&mut runtime, "echo hello");

    assert_eq!(get_exit(&events), 128);
    assert!(has_output_limit_diagnostic(&events));
    assert_eq!(
        runtime.rt.console.stop_reason,
        Some(StopReason::Exhausted(ExhaustionReason {
            category: BudgetCategory::VisibleOutputBytes,
            used: 6,
            limit: 3,
        }))
    );
}

#[test]
fn recursion_limit_exposes_structured_exhaustion_reason() {
    let mut runtime = new_runtime(0);
    runtime.rt.set_recursion_limit(2);

    let events = run(&mut runtime, "f(){ f; }\nf");

    assert_eq!(get_exit(&events), 128);
    assert!(get_stderr(&events).contains("maximum recursion depth exceeded"));
    assert_eq!(
        runtime.rt.console.stop_reason,
        Some(StopReason::Exhausted(ExhaustionReason {
            category: BudgetCategory::RecursionDepth,
            used: 3,
            limit: 2,
        }))
    );
}

#[test]
fn pipe_limit_exposes_structured_exhaustion_reason() {
    let mut runtime = new_runtime(0);
    runtime.rt.set_pipe_byte_limit(1);

    let events = run(&mut runtime, "printf 'ab' | cat");

    assert_eq!(get_exit(&events), 128);
    assert!(events.iter().any(|event| {
        matches!(
            event,
            WorkerEvent::Diagnostic(_, message) if message.contains("pipe buffer limit exceeded")
        )
    }));
    assert!(matches!(
        runtime.rt.console.stop_reason,
        Some(StopReason::Exhausted(ExhaustionReason {
            category: BudgetCategory::PipeBytes,
            ..
        }))
    ));
}

#[test]
fn vm_subset_boundary_accepts_simple_builtin_and_or() {
    let runtime = Host::bare();
    assert_eq!(runtime.fast_path(&first_and_or("true && echo ok")), Ok(()));
}

#[test]
fn vm_subset_boundary_rejects_multi_stage_pipeline() {
    let runtime = Host::bare();
    let reason = runtime.fast_path(&first_and_or("echo hello | cat")).unwrap_err();
    assert_eq!(reason, VmSubsetFallbackReason::PipelineShape);
}

#[test]
fn vm_subset_boundary_rejects_alias_expansion() {
    let mut runtime = Host::bare();
    runtime.rt.state.set_var("SHOPT_expand_aliases".into(), "1".into());
    let args: Vec<String> = vec!["echo=printf".into()];
    execute_alias(&mut runtime.rt.aliases, &args);
    let reason = runtime.fast_path(&first_and_or("echo hello")).unwrap_err();
    assert_eq!(reason, VmSubsetFallbackReason::AliasExpansion);
}

fn limited(limit: u64, input: &str) -> Vec<WorkerEvent> {
    let mut runtime = new_runtime(0);
    runtime.rt.set_output_byte_limit(limit);
    run(&mut runtime, input)
}

#[test]
fn streaming_yes_head_respects_visible_output_limit() {
    let events = limited(10, "yes | head -n 5");
    assert_eq!(get_stdout(&events), "y\ny\ny\ny\ny\n");
    assert!(!has_output_limit_diagnostic(&events));
}

#[test]
fn streaming_yes_cat_head_respects_visible_output_limit() {
    let events = limited(10, "yes | cat | head -n 5");
    assert_eq!(get_stdout(&events), "y\ny\ny\ny\ny\n");
    assert!(!has_output_limit_diagnostic(&events));
}

#[test]
fn streaming_yes_head_wc_respects_visible_output_limit() {
    let events = limited(8, "yes | head -n 5 | wc -l");
    assert_eq!(get_stdout(&events), "      5\n");
    assert!(!has_output_limit_diagnostic(&events));
}

#[test]
fn streaming_cat_file_head_respects_visible_output_limit() {
    let mut runtime = new_runtime(0);
    write_file(&mut runtime, "/big.txt", b"abcdefghijklmnopqrstuvwxyz");
    runtime.rt.set_output_byte_limit(10);
    let events = run(&mut runtime, "cat /big.txt | head -c 10");
    assert_eq!(get_stdout(&events), "abcdefghij");
    assert!(!has_output_limit_diagnostic(&events));
}

#[test]
fn streaming_yes_tr_head_respects_visible_output_limit() {
    let events = limited(10, "yes | tr y z | head -n 5");
    assert_eq!(get_stdout(&events), "z\nz\nz\nz\nz\n");
    assert!(!has_output_limit_diagnostic(&events));
}

#[test]
fn streaming_yes_grep_head_respects_visible_output_limit() {
    let events = limited(10, "yes | grep y | head -n 5");
    assert_eq!(get_stdout(&events), "y\ny\ny\ny\ny\n");
    assert!(!has_output_limit_diagnostic(&events));
}

#[test]
fn streaming_yes_tee_head_respects_visible_output_limit() {
    let mut runtime = new_runtime(0);
    runtime.rt.set_output_byte_limit(10);
    let events = run(&mut runtime, "yes | tee /tee.txt | head -n 5");
    assert_eq!(get_stdout(&events), "y\ny\ny\ny\ny\n");
    assert!(!has_output_limit_diagnostic(&events));

    let file_events = runtime.handle_command(HostCommand::ReadFile { path: "/tee.txt".into() });
    assert_eq!(get_stdout(&file_events), "y\ny\ny\ny\ny\n");
}

#[test]
fn streaming_buffered_sort_tee_cat_preserves_sorted_output() {
    let mut runtime = new_runtime(0);
    let events = run(&mut runtime, "printf 'b\\na\\n' | sort | tee /sorted.txt | cat");
    assert_eq!(get_stdout(&events), "a\nb\n");
    let file_events = runtime.handle_command(HostCommand::ReadFile {
        path: "/sorted.txt".into(),
    });
    assert_eq!(get_stdout(&file_events), "a\nb\n");
}

#[test]
fn streaming_yes_rev_head_respects_visible_output_limit() {
    let events = limited(10, "yes | rev | head -n 5");
    assert_eq!(get_stdout(&events), "y\ny\ny\ny\ny\n");
    assert!(!has_output_limit_diagnostic(&events));
}

#[test]
fn streaming_echo_cut_head_respects_visible_output_limit() {
    let events = limited(6, "echo abc:def | cut -d: -f2 | head -c 4");
    assert_eq!(get_stdout(&events), "def\n");
    assert!(!has_output_limit_diagnostic(&events));
}

#[test]
fn streaming_echo_tail_head_respects_visible_output_limit() {
    let events = limited(3, "echo -e 'a\\nb\\nc' | tail -n 2 | head -n 1");
    assert_eq!(get_stdout(&events), "b\n");
    assert!(!has_output_limit_diagnostic(&events));
}

#[test]
fn streaming_yes_bat_head_respects_visible_output_limit() {
    let expected = "    1   \u{2502} y\n    2   \u{2502} y\n";
    let events = limited(expected.len() as u64, "yes | bat --style=numbers | head -n 2");
    assert_eq!(get_stdout(&events), expected);
    assert!(!has_output_limit_diagnostic(&events));
}

#[test]
fn streaming_yes_sed_head_respects_visible_output_limit() {
    let events = limited(10, "yes | sed 's/y/z/' | head -n 5");
    assert_eq!(get_stdout(&events), "z\nz\nz\nz\nz\n");
    assert!(!has_output_limit_diagnostic(&events));
}

#[test]
fn streaming_echo_paste_serial_head_respects_visible_output_limit() {
    let events = limited(6, "echo -e 'a\\nb\\nc' | paste -s -d , | head -c 6");
    assert_eq!(get_stdout(&events), "a,b,c\n");
    assert!(!has_output_limit_diagnostic(&events));
}

#[test]
fn streaming_echo_column_head_respects_visible_output_limit() {
    let events = limited(4, "echo abc | column | head -c 4");
    assert_eq!(get_stdout(&events), "abc\n");
    assert!(!has_output_limit_diagnostic(&events));
}

#[test]
fn streaming_echo_uniq_head_respects_visible_output_limit() {
    let events = limited(6, "echo -e 'a\\na\\nb' | uniq | head -n 2");
    assert_eq!(get_stdout(&events), "a\nb\n");
    assert!(!has_output_limit_diagnostic(&events));
}

#[test]
fn streaming_buffered_printf_sort_head_respects_visible_output_limit() {
    let events = limited(2, "printf 'b\\na\\n' | sort | head -n 1");
    assert_eq!(get_stdout(&events), "a\n");
    assert!(!has_output_limit_diagnostic(&events));
}

#[test]
fn streaming_buffered_function_stage_preserves_output() {
    let mut runtime = new_runtime(0);
    let events = run(&mut runtime, "f(){ cat; }\nprintf hi | f | head -c 2");
    assert_eq!(get_stdout(&events), "hi");
    assert!(!has_output_limit_diagnostic(&events));
}

#[test]
fn streaming_buffered_function_pipe_stderr_respects_visible_output_limit() {
    let events = limited(8, "f(){ echo out; echo err >&2; }\nf |& head -n 2");
    assert_eq!(get_stdout(&events), "out\nerr\n");
    assert!(!has_output_limit_diagnostic(&events));
}

#[test]
fn scheduled_group_stage_pipe_stderr_preserves_output() {
    let mut runtime = new_runtime(0);
    let events = run(&mut runtime, "printf x | { cat; echo err >&2; } |& cat");
    let stdout = get_stdout(&events);
    assert!(stdout.contains('x'));
    assert!(stdout.contains("err"));
}

#[test]
fn streaming_tee_pipe_stderr_preserves_output_and_stage_status() {
    let mut runtime = new_runtime(0);
    let events = run(&mut runtime, "printf x | tee / |& cat\necho ${PIPESTATUS[*]}");
    let stdout = get_stdout(&events);
    assert!(stdout.contains('x'));
    assert!(stdout.contains("tee: /: is a directory: /"));
    assert!(stdout.contains("0 1 0"));
    assert_eq!(get_stderr(&events), "");
}

#[test]
fn streaming_tee_pipe_stderr_respects_pipefail() {
    let mut runtime = new_runtime(0);
    let events = run(&mut runtime, "set -o pipefail\nprintf x | tee / |& cat");
    assert_eq!(runtime.rt.state.last_status, 1);
    let stdout = get_stdout(&events);
    assert!(stdout.contains('x'));
    assert!(stdout.contains("tee: /: is a directory: /"));
}

#[test]
fn generic_pipeline_capture_does_not_count_hidden_stage_output() {
    let events = limited(2, "echo -e 'a\\nb' | grep b");
    assert_eq!(get_stdout(&events), "b\n");
    assert!(!has_output_limit_diagnostic(&events));
}

#[test]
fn generic_pipeline_file_capture_preserves_redirection_behavior() {
    let mut runtime = new_runtime(0);
    let events = run(&mut runtime, "echo -e 'a\\nb' | grep b >/filtered.txt | wc -l");
    assert_eq!(get_stdout(&events), "      0\n");
    let file_events = runtime.handle_command(HostCommand::ReadFile {
        path: "/filtered.txt".into(),
    });
    assert_eq!(get_stdout(&file_events), "b\n");
}

#[test]
fn scheduler_single_redirect_only_command_creates_target_file() {
    let mut runtime = new_runtime(0);
    let events = run(&mut runtime, "> /created.txt");
    assert_eq!(runtime.rt.state.last_status, 0);
    assert_eq!(get_stdout(&events), "");
    assert_eq!(get_stderr(&events), "");
    let file_events = runtime.handle_command(HostCommand::ReadFile {
        path: "/created.txt".into(),
    });
    assert_eq!(get_stdout(&file_events), "");
}

#[test]
fn command_substitution_keeps_inner_stderr_visible() {
    let mut runtime = new_runtime(0);
    let events = run(&mut runtime, "echo $(printf 'hello'; echo err >&2)");
    assert_eq!(get_stdout(&events), "hello\n");
    assert_eq!(get_stderr(&events), "err\n");
}

#[test]
fn command_substitution_isolates_shell_state() {
    let mut runtime = new_runtime(0);
    let events = run(&mut runtime, "foo=before; echo $(foo=after; printf hi); echo $foo");
    assert_eq!(get_stdout(&events), "hi\nbefore\n");
}

#[test]
fn process_substitution_out_feeds_inner_command() {
    let mut runtime = new_runtime(0);
    let events = run(&mut runtime, "printf hi > >(cat)");
    assert_eq!(get_stdout(&events), "hi");
    assert_eq!(get_stderr(&events), "");
    assert_eq!(runtime.rt.state.last_status, 0);
}

#[test]
fn process_substitution_out_runs_schedulable_inner_pipeline() {
    let mut runtime = new_runtime(0);
    let events = run(&mut runtime, "printf 'a\\nb\\n' > >(head -n 1 | cat)");
    assert_eq!(get_stdout(&events), "a\n");
    assert_eq!(get_stderr(&events), "");
    assert_eq!(runtime.rt.state.last_status, 0);
}

#[test]
fn process_substitution_out_runs_live_tail_pipeline() {
    let mut runtime = new_runtime(0);
    let path = runtime.register_process_subst_out("tail -n 1 | cat");
    assert!(matches!(runtime.substs[0].pending, PendingSubst::Live(_)));
    runtime.write_subst(&path, b"a\nb\n");
    runtime.flush_substs();
    assert_eq!(runtime.rt.console.stdout, b"b\n");
}

#[test]
fn process_substitution_out_runs_live_buffered_pipeline() {
    let mut runtime = new_runtime(0);
    let path = runtime.register_process_subst_out("sort | cat");
    assert!(matches!(runtime.substs[0].pending, PendingSubst::Live(_)));
    runtime.write_subst(&path, b"b\na\n");
    runtime.flush_substs();
    assert_eq!(runtime.rt.console.stdout, b"a\nb\n");
}

#[test]
fn process_substitution_in_registers_live_reader_and_cleans_up() {
    let mut runtime = new_runtime(0);
    let path = runtime.execute_process_subst_in("yes | head -n 2");
    assert!(runtime.has_file(&path));

    let file = runtime.handle_command(HostCommand::ReadFile { path: path.clone() });
    assert_eq!(get_stdout(&file), "y\ny\n");
    assert!(!runtime.has_file(&path));

    runtime.flush_substs();
    assert!(!runtime.has_file(&path));
}

#[test]
fn process_substitution_in_registers_live_sed_reader_and_cleans_up() {
    let mut runtime = new_runtime(0);
    let path = runtime.execute_process_subst_in("yes | sed 's/y/z/' | head -n 2");
    assert!(runtime.has_file(&path));

    let file = runtime.handle_command(HostCommand::ReadFile { path: path.clone() });
    assert_eq!(get_stdout(&file), "z\nz\n");
    assert!(!runtime.has_file(&path));

    runtime.flush_substs();
    assert!(!runtime.has_file(&path));
}

#[test]
fn process_substitution_in_runs_live_buffered_reader_and_cleans_up() {
    let mut runtime = new_runtime(0);
    let path = runtime.execute_process_subst_in("printf 'b\\na\\n' | sort");
    assert!(runtime.has_file(&path));

    let file = runtime.handle_command(HostCommand::ReadFile { path: path.clone() });
    assert_eq!(get_stdout(&file), "a\nb\n");
    assert!(!runtime.has_file(&path));

    runtime.flush_substs();
    assert!(!runtime.has_file(&path));
}

#[test]
fn live_process_substitution_runner_consumes_before_flush() {
    let mut runtime = new_runtime(0);
    let path = runtime.register_process_subst_out("head -n 1 | cat");
    runtime.write_subst(&path, b"a\nb\n");
    assert!(matches!(runtime.substs[0].pending, PendingSubst::Live(_)));
    assert_eq!(runtime.substs[0].captured, b"a\n");
    runtime.flush_substs();
    assert_eq!(runtime.rt.console.stdout, b"a\n");
}

#[test]
fn live_process_substitution_runner_tee_writes_before_flush() {
    let mut runtime = new_runtime(0);
    let path = runtime.register_process_subst_out("tee /tee.txt | cat");
    runtime.write_subst(&path, b"a\nb\n");
    assert!(runtime.substs[0].captured.starts_with(b"a\nb"));
    let file = runtime.handle_command(HostCommand::ReadFile { path: "/tee.txt".into() });
    assert!(get_stdout(&file).starts_with("a\nb"));
    runtime.flush_substs();
    assert_eq!(runtime.rt.console.stdout, b"a\nb\n");
    let file = runtime.handle_command(HostCommand::ReadFile { path: "/tee.txt".into() });
    assert_eq!(get_stdout(&file), "a\nb\n");
}

#[test]
fn exec_live_redirections_preserve_left_to_right_dup_order() {
    let mut runtime = new_runtime(0);
    let events = run(
        &mut runtime,
        "printf hi > /first.txt 1>&2\nprintf hi 1>&2 > /second.txt",
    );
    assert_eq!(get_stdout(&events), "");
    assert_eq!(get_stderr(&events), "hi");
    let first = runtime.handle_command(HostCommand::ReadFile { path: "/first.txt".into() });
    assert_eq!(get_stdout(&first), "");
    let second = runtime.handle_command(HostCommand::ReadFile { path: "/second.txt".into() });
    assert_eq!(get_stdout(&second), "hi");
}

#[test]
fn exec_process_subst_redirections_preserve_left_to_right_dup_order() {
    let mut runtime = new_runtime(0);
    let events = run(&mut runtime, "printf hi > >(cat) 1>&2\nprintf hi 1>&2 > >(cat)");
    assert_eq!(get_stdout(&events), "hi");
    assert_eq!(get_stderr(&events), "hi");
}

#[test]
fn builtin_and_utility_redirections_write_files_during_execution() {
    let mut runtime = new_runtime(0);
    let events = run(&mut runtime, "type printf > /builtin.txt\nprintf hi > /utility.txt");
    assert_eq!(get_exit(&events), 0);
    assert_eq!(get_stdout(&events), "");
    assert_eq!(get_stderr(&events), "");
    let builtin = runtime.handle_command(HostCommand::ReadFile { path: "/builtin.txt".into() });
    assert!(get_stdout(&builtin).contains("printf"));
    let utility = runtime.handle_command(HostCommand::ReadFile { path: "/utility.txt".into() });
    assert_eq!(get_stdout(&utility), "hi");
}

#[test]
fn answers_to_commands_that_do_nothing_yet() {
    let mut rt = new_runtime(0);
    let events = rt.handle_command(HostCommand::Mount { path: "/mnt".into() });
    assert_eq!(
        events,
        vec![WorkerEvent::Diagnostic(
            DiagnosticLevel::Warning,
            "mount not yet implemented".to_string()
        )]
    );
    let events = rt.handle_command(HostCommand::Unknown);
    assert_eq!(
        events,
        vec![WorkerEvent::Diagnostic(DiagnosticLevel::Warning, "unknown command".to_string())]
    );
    let events = rt.handle_command(HostCommand::PollRun);
    assert_eq!(
        events,
        vec![WorkerEvent::Diagnostic(DiagnosticLevel::Error, "no active run".to_string())]
    );
    let events = rt.handle_command(HostCommand::Signal { signal: "NOPE".into() });
    assert_eq!(
        events,
        vec![WorkerEvent::Diagnostic(DiagnosticLevel::Error, "unknown signal: NOPE".to_string())]
    );
    let events = rt.handle_command(HostCommand::ReadFile { path: "/none".into() });
    assert_eq!(
        events,
        vec![WorkerEvent::Diagnostic(
            DiagnosticLevel::Error,
            "read error: no such file".to_string()
        )]
    );
}

#[test]
fn a_second_run_is_refused_while_one_is_active() {
    let mut rt = new_runtime(1);
    rt.start_execution("echo one; echo two".into()).unwrap();
    let refused = rt.start_execution("echo three".into()).unwrap_err();
    assert_eq!(
        refused,
        vec![WorkerEvent::Diagnostic(
            DiagnosticLevel::Error,
            "execution already active".to_string()
        )]
    );
}

#[test]
fn a_script_that_cannot_be_parsed_exits_with_two() {
    let mut rt = new_runtime(0);
    let events = run(&mut rt, "echo hello >");
    assert_eq!(get_stderr(&events), "wasmsh: parse error: unexpected end of input\n");
    assert_eq!(get_exit(&events), 2);
    let next = run(&mut rt, "echo $?");
    assert_eq!(get_stdout(&next), "2\n");
}

#[test]
fn visible_output_beyond_the_limit_ends_the_run() {
    let mut rt = new_runtime(0);
    rt.rt.set_output_byte_limit(8);
    let events = run(&mut rt, "echo 123; echo 456; echo 789; echo 000");
    assert_eq!(get_stdout(&events), "123\n456\n789\n");
    assert_eq!(get_exit(&events), 128);
}

#[test]
fn errexit_ends_the_run_at_a_plain_failure_only() {
    let mut rt = new_runtime(0);
    let events = run(&mut rt, "set -e\nfalse || echo kept\nfalse\necho lost");
    assert_eq!(get_stdout(&events), "kept\n");
    assert_eq!(get_exit(&events), 1);
}

#[test]
fn first_lines_and_fresh_flow() {
    assert_eq!(first_line("one\r\ntwo"), "one");
    let flow = ExecState::new();
    assert_eq!(flow.break_depth, 0);
}
