//! Pipelines of filters, from their command lines to their output.
use wasmsh::pipeline::body::Body;
use wasmsh::pipeline::network::{run_pipeline, Network, PipelineFault};
use wasmsh::pipeline::process::{
    BufferedProcess, HeadProcess, PipeProcessPoll, ReadOutcome, RelayProcess, Want, WriteResult,
};
use wasmsh::pipeline::schedule::{Schedule, Step};
use wasmsh::pipeline::stage::{
    compile_pipeline_stage, initial_status, parse_streaming_stage, BufferedPipelineCommand,
    CommandFacts, StreamingPipelineStage,
};
use wasmsh::stages::sources::{streaming_echo_bytes, streaming_yes_line};
use wasmsh::stream::cut::{
    apply_streaming_cut, StreamingCutMode, StreamingCutRange, StreamingCutStage,
};
use wasmsh::stream::ends::StreamingHeadMode;
use wasmsh::stream::machine::take_pending_output;
use wasmsh::stream::simple::{reverse_chars, YesStreamReader};
use wasmsh::stream::tr_set::streaming_tr_expand_set;
use wasmsh::stream::tr_utf8::streaming_tr_process_utf8_chunk;

fn facts() -> CommandFacts {
    CommandFacts { function: false, builtin: false, utility: false, external: false }
}

fn words(line: &[&str]) -> Vec<String> {
    line.iter().map(|w| w.to_string()).collect()
}

fn stage(line: &[&str]) -> StreamingPipelineStage {
    parse_streaming_stage(&words(line), false, facts()).unwrap()
}

fn filter(line: &[&str], input: &str) -> String {
    for capacity in [1, 3, 4096] {
        let out = run_pipeline(input.as_bytes().to_vec(), vec![stage(line)], capacity).unwrap();
        let whole = run_pipeline(input.as_bytes().to_vec(), vec![stage(line)], 1 << 20).unwrap();
        assert_eq!(out, whole);
    }
    let out = run_pipeline(input.as_bytes().to_vec(), vec![stage(line)], 1).unwrap();
    String::from_utf8(out.stdout).unwrap()
}

fn run(input: &[u8], stages: Vec<StreamingPipelineStage>) -> Vec<u8> {
    run_pipeline(input.to_vec(), stages, 1).unwrap().stdout
}

fn status(line: &[&str], input: &str) -> i32 {
    run_pipeline(input.as_bytes().to_vec(), vec![stage(line)], 1).unwrap().status
}

#[test]
fn head_keeps_the_first_lines_or_bytes() {
    assert_eq!(filter(&["head", "-n", "2"], "a\nb\nc\n"), "a\nb\n");
    assert_eq!(filter(&["head", "-n", "5"], "a\nb"), "a\nb");
    assert_eq!(filter(&["head", "-c", "3"], "abcdef"), "abc");
    let text: String = (0..20).map(|i| format!("{i}\n")).collect();
    assert_eq!(filter(&["head"], &text).lines().count(), 10);
}

#[test]
fn tail_keeps_the_last_lines_or_bytes() {
    assert_eq!(filter(&["tail", "-n", "2"], "a\nb\nc\n"), "b\nc\n");
    assert_eq!(filter(&["tail", "-c", "2"], "abcdef"), "ef");
    assert_eq!(filter(&["tail", "-n", "9"], "a\nb\n"), "a\nb\n");
}

#[test]
fn wc_counts_lines_words_and_bytes() {
    assert_eq!(filter(&["wc", "-l"], "a b\nc\n"), "      2\n");
    assert_eq!(filter(&["wc", "-w"], "a b\nc\n"), "      3\n");
    assert_eq!(filter(&["wc", "-c"], "a b\nc\n"), "      6\n");
}

#[test]
fn rev_twice_gives_the_lines_back() {
    assert_eq!(filter(&["rev"], "abc\nxy\n"), "cba\nyx\n");
    let twice = filter(&["rev"], &filter(&["rev"], "abc\nxy\n"));
    assert_eq!(twice, "abc\nxy\n");
    assert_eq!(reverse_chars("stra\u{df}e"), "e\u{df}arts");
}

#[test]
fn column_and_cat_keep_their_input() {
    assert_eq!(filter(&["column"], "a\nb\n"), "a\nb\n");
    assert_eq!(filter(&["cat"], "a\nb"), "a\nb");
}

#[test]
fn paste_joins_lines() {
    assert_eq!(filter(&["paste", "-s", "-d", ","], "a\nb\nc\n"), "a,b,c\n");
    assert_eq!(filter(&["paste", "-s"], "a\nb\n"), "a\tb\n");
}

#[test]
fn uniq_drops_and_counts_repeated_lines() {
    assert_eq!(filter(&["uniq"], "a\na\nb\na\n"), "a\nb\na\n");
    assert_eq!(filter(&["uniq", "-d"], "a\na\nb\n"), "a\n");
    assert_eq!(filter(&["uniq", "-u"], "a\na\nb\n"), "b\n");
    let counted = filter(&["uniq", "-c"], "a\na\nb\n");
    assert!(counted.contains("2 a"));
    assert!(counted.contains("1 b"));
}

#[test]
fn cut_selects_fields_characters_and_their_complement() {
    assert_eq!(filter(&["cut", "-d", ":", "-f", "2"], "a:b:c\n"), "b\n");
    assert_eq!(filter(&["cut", "-d", ":", "-f", "1,3"], "a:b:c\n"), "a:c\n");
    assert_eq!(filter(&["cut", "-c", "2-3"], "abcd\n"), "bc\n");
    assert_eq!(filter(&["cut", "-b", "2-3"], "abcd\n"), "bc\n");
    assert_eq!(filter(&["cut", "-c", "1"], "éa\n"), "é\n");
    assert_eq!(filter(&["cut", "-b", "1-2"], "éa\n"), "é\n");
    let bytes = StreamingCutStage {
        mode: StreamingCutMode::Bytes(vec![StreamingCutRange { start: Some(1), end: Some(1) }]),
        delim: '\t',
        complement: false,
        only_delimited: false,
        output_delim: "\t".to_string(),
    };
    assert_eq!(apply_streaming_cut("é", &bytes), Some(vec![0xC3]));
    assert_eq!(filter(&["cut", "-d", ":", "--complement", "-f", "2"], "a:b:c\n"), "a:c\n");
    assert_eq!(filter(&["cut", "-d", ":", "-f", "2", "-s"], "none\na:b\n"), "b\n");
}

#[test]
fn tr_translates_deletes_and_squeezes() {
    assert_eq!(filter(&["tr", "a-c", "x-z"], "abcd\n"), "xyzd\n");
    assert_eq!(filter(&["tr", "-d", "b"], "abcb\n"), "ac\n");
    assert_eq!(filter(&["tr", "-s", "a"], "aaab\n"), "ab\n");
    assert_eq!(filter(&["tr", "\u{e4}", "o"], "h\u{e4}t\n"), "hot\n");
    let set: String = streaming_tr_expand_set("a-e").iter().collect();
    assert_eq!(set, "abcde");
}

#[test]
fn sed_substitutes_deletes_and_prints() {
    assert_eq!(filter(&["sed", "s/a/b/"], "aa\n"), "ba\n");
    assert_eq!(filter(&["sed", "s/a/b/g"], "aa\n"), "bb\n");
    assert_eq!(filter(&["sed", "2d"], "a\nb\nc\n"), "a\nc\n");
    assert_eq!(filter(&["sed", "-n", "2p"], "a\nb\nc\n"), "b\n");
    assert_eq!(filter(&["sed", "$d"], "a\nb\n"), "a\n");
}

#[test]
fn grep_selects_lines_and_inverts() {
    assert_eq!(filter(&["grep", "b"], "abc\nxyz\nb\n"), "abc\nb\n");
    assert_eq!(filter(&["grep", "-v", "b"], "abc\nxyz\nb\n"), "xyz\n");
    assert_eq!(filter(&["grep", "-c", "b"], "abc\nxyz\nb\n"), "2\n");
    assert_eq!(filter(&["grep", "-n", "x"], "abc\nxyz\n"), "2:xyz\n");
    assert_eq!(filter(&["grep", "-i", "B"], "abc\nxyz\n"), "abc\n");
    assert_eq!(filter(&["grep", "-q", "x"], "abc\nxyz\n"), "");
    assert_eq!(filter(&["grep", "a.c"], "abc\nac\n"), "abc\n");
    assert_eq!(filter(&["grep", "-A", "1", "b"], "a\nb\nc\nd\n"), "b\nc\n");
    assert_eq!(filter(&["grep", "-B", "1", "b"], "a\nb\nc\n"), "a\nb\n");
    assert_eq!(status(&["grep", "b"], "abc\nxyz\n"), 0);
    assert_eq!(status(&["grep", "q"], "abc\nxyz\n"), 1);
    assert_eq!(status(&["grep", "-q", "x"], "abc\nxyz"), 0);
    assert_eq!(status(&["grep", "-v", "a"], "a\naa\n"), 1);
    assert_eq!(initial_status(&stage(&["grep", "b"])), 1);
    assert_eq!(initial_status(&stage(&["rev"])), 0);
}

#[test]
fn bat_numbers_lines() {
    assert_eq!(
        filter(&["bat", "--style=numbers"], "y\nz\n"),
        "    1   \u{2502} y\n    2   \u{2502} z\n"
    );
}

#[test]
fn echo_interprets_escapes_where_asked() {
    assert_eq!(streaming_echo_bytes(&words(&["-n", "a", "b"])), b"a b");
    assert_eq!(streaming_echo_bytes(&words(&["-e", "a\\tb"])), b"a\tb\n");
    assert_eq!(streaming_echo_bytes(&words(&["a\\tb"])), b"a\\tb\n");
    assert_eq!(streaming_yes_line(&words(&["no", "way"])), b"no way\n");
    assert_eq!(streaming_yes_line(&words(&[])), b"y\n");
}

#[test]
fn yes_repeats_its_line() {
    let mut yes = YesStreamReader::new(b"y\n".to_vec(), 3);
    let mut buf = [0u8; 4];
    assert_eq!(yes.read(&mut buf), 4);
    assert_eq!(&buf, b"y\ny\n");
    assert_eq!(yes.read(&mut buf), 2);
    assert_eq!(yes.read(&mut buf), 0);
}

#[test]
fn a_pipeline_composes_its_stages() {
    let stages = vec![stage(&["grep", "a"]), stage(&["tr", "a", "b"]), stage(&["tail", "-n", "1"])];
    assert_eq!(run(b"xa\nya\nzz\n", stages), b"yb\n");
    let one = run(b"xa\nya\nzz\n", vec![stage(&["grep", "a"])]);
    let two = run(&one, vec![stage(&["tr", "a", "b"]), stage(&["tail", "-n", "1"])]);
    assert_eq!(two, b"yb\n");
    let with_cat = vec![stage(&["grep", "a"]), stage(&["cat"]), stage(&["wc", "-l"])];
    let without = vec![stage(&["grep", "a"]), stage(&["wc", "-l"])];
    assert_eq!(
        run_pipeline(b"xa\nya\nzz\n".to_vec(), with_cat, 2).unwrap(),
        run_pipeline(b"xa\nya\nzz\n".to_vec(), without, 2).unwrap()
    );
    assert_eq!(run(b"as it is", vec![]), b"as it is");
}

#[test]
fn a_stage_that_is_no_filter_makes_no_pipeline() {
    let source = StreamingPipelineStage::Literal(b"x".to_vec());
    assert_eq!(
        run_pipeline(b"y".to_vec(), vec![source], 1).unwrap_err(),
        PipelineFault::NotAFilter
    );
}

#[test]
fn head_behind_another_stage_keeps_at_least_one_line() {
    let later = vec![stage(&["cat"]), stage(&["head", "-n", "0"])];
    assert_eq!(run(b"a\nb\n", later), b"a\n");
    let mut fed = Network::open(vec![stage(&["head", "-n", "0"])], 1).unwrap();
    let mut captured: Vec<u8> = Vec::new();
    fed.write_input(b"a\nb\n", &mut captured).unwrap();
    fed.finish(&mut captured).unwrap();
    assert_eq!(captured, b"");
}

#[test]
fn an_open_pipeline_takes_its_input_in_pieces() {
    let mut net = Network::open(vec![stage(&["wc", "-c"]), stage(&["cat"])], 1).unwrap();
    let mut captured: Vec<u8> = Vec::new();
    for piece in ["ab", "", "cde"] {
        net.write_input(piece.as_bytes(), &mut captured).unwrap();
    }
    assert_eq!(captured, b"");
    net.finish(&mut captured).unwrap();
    assert_eq!(captured, b"      5\n");
}

#[test]
fn commands_become_stages_by_their_place() {
    let echo = words(&["echo", "hi"]);
    let first = compile_pipeline_stage(Some(echo.clone()), false, true, facts());
    assert!(matches!(first, StreamingPipelineStage::Literal(data) if data == b"hi\n"));
    let later = compile_pipeline_stage(Some(echo), false, false, facts());
    assert!(matches!(later, StreamingPipelineStage::BufferedCommand(_)));
    let yes = compile_pipeline_stage(Some(words(&["yes"])), false, true, facts());
    assert!(matches!(yes, StreamingPipelineStage::Yes(line) if line == b"y\n"));
    let file = compile_pipeline_stage(Some(words(&["cat", "/f"])), false, true, facts());
    assert!(matches!(file, StreamingPipelineStage::File(path) if path == "/f"));
    let aliased = compile_pipeline_stage(Some(words(&["rev"])), true, false, facts());
    assert!(matches!(aliased, StreamingPipelineStage::BufferedCommand(_)));
}

/// Runs a pipeline whose commands all turn their input into upper case, end with the status three
/// and complain.
fn run_schedule(mut net: Schedule) -> (Vec<Vec<u8>>, Vec<u8>, Vec<i32>, Vec<u8>) {
    let mut inputs: Vec<Vec<u8>> = Vec::new();
    let mut output: Vec<u8> = Vec::new();
    loop {
        net.start_round();
        loop {
            match net.advance() {
                Step::RoundOver => break,
                Step::Stuck => panic!("stuck"),
                Step::Run(k) => {
                    let input = net.input_of(k);
                    net.ran(k, &input.to_ascii_uppercase(), b"!", 3);
                    inputs.push(input);
                }
            }
        }
        output.extend(net.take_output());
        if !net.progressed {
            break;
        }
    }
    assert!(net.is_over());
    (inputs, output, net.statuses(), net.stderr())
}

fn command() -> StreamingPipelineStage {
    StreamingPipelineStage::BufferedCommand(BufferedPipelineCommand::Whole)
}

#[test]
fn schedules_run_filters_and_commands() {
    for capacity in [1, 2, 4096] {
        let stages = vec![
            StreamingPipelineStage::Literal(b"ab\ncd\nef\n".to_vec()),
            stage(&["head", "-n", "2"]),
            command(),
            stage(&["rev"]),
            stage(&["grep", "X"]),
        ];
        let net = Schedule::assemble(None, stages, &vec![false; 5], capacity).unwrap();
        let (inputs, output, statuses, stderr) = run_schedule(net);
        assert_eq!(inputs, vec![b"ab\ncd\n".to_vec()]);
        assert_eq!(output, b"");
        assert_eq!(statuses, vec![0, 0, 3, 0, 1]);
        assert_eq!(stderr, b"!");

        let stages = vec![command(), command(), stage(&["rev"])];
        let net = Schedule::assemble(None, stages, &vec![false, true, false], capacity).unwrap();
        let (inputs, output, statuses, stderr) = run_schedule(net);
        assert_eq!(inputs, vec![b"".to_vec(), b"".to_vec()]);
        assert_eq!(output, b"!\n");
        assert_eq!(statuses, vec![3, 3, 0]);
        assert_eq!(stderr, b"!");

        let stages = vec![stage(&["head", "-c", "0"]), command()];
        let source = Some(b"abc".to_vec());
        let net = Schedule::assemble(source, stages, &vec![false; 2], capacity).unwrap();
        let (inputs, output, statuses, _) = run_schedule(net);
        assert_eq!(inputs, vec![b"".to_vec()]);
        assert_eq!(output, b"");
        assert_eq!(statuses, vec![0, 3]);
    }
}

#[test]
fn schedules_take_their_input_bit_by_bit() {
    for capacity in [1, 3, 4096] {
        let stages = vec![stage(&["rev"]), command(), stage(&["cat"])];
        let mut net = Schedule::assemble_open(stages, capacity).unwrap();
        net.start_round();
        assert_eq!(net.advance(), Step::RoundOver);
        assert!(!net.progressed && !net.is_over());
        net.add_input(b"ab");
        net.add_input(b"c\nde");
        net.end_input();
        let (inputs, output, statuses, _) = run_schedule(net);
        assert_eq!(inputs, vec![b"cba\ned\n".to_vec()]);
        assert_eq!(output, b"CBA\nED\n");
        assert_eq!(statuses, vec![0, 3, 0]);
    }
}

#[test]
fn schedules_stop_a_source_that_nobody_reads() {
    let stages = vec![StreamingPipelineStage::Yes(b"y\n".to_vec()), stage(&["head", "-n", "2"])];
    let net = Schedule::assemble(None, stages, &vec![false; 2], 1).unwrap();
    let (_, output, statuses, _) = run_schedule(net);
    assert_eq!(output, b"y\ny\n");
    assert_eq!(statuses, vec![0, 0]);
}

#[test]
fn stages_out_of_place_make_no_schedule() {
    assert!(Schedule::assemble(None, vec![stage(&["rev"])], &vec![false], 1).is_none());
    let literal = || StreamingPipelineStage::Literal(Vec::new());
    assert!(Schedule::assemble(Some(Vec::new()), vec![literal()], &vec![false], 1).is_none());
    assert!(Schedule::assemble(None, vec![command(), literal()], &vec![false; 2], 1).is_none());
    assert!(Schedule::assemble(None, Vec::new(), &Vec::new(), 1).is_none());
    let mut empty = Schedule::assemble(None, vec![literal()], &vec![false], 1).unwrap();
    assert_eq!(empty.held(), 0);
    assert!(!empty.is_over());
    empty.start_round();
    assert_eq!(empty.advance(), Step::RoundOver);
    assert!(empty.progressed && empty.is_over());
}

#[test]
fn a_relay_hands_on_what_it_reads_and_reports_failures() {
    let mut relay = RelayProcess::new("stage".to_string(), 0, false);
    assert!(matches!(relay.next(), Want::Read(_)));
    assert!(relay.took(ReadOutcome::Read(b"abc".to_vec())).is_none());
    assert!(matches!(relay.next(), Want::Write(data) if data == b"abc"));
    let (poll, sent) = relay.wrote(WriteResult::WouldBlock(2));
    assert_eq!(poll, PipeProcessPoll::Ready);
    assert_eq!(sent, b"ab");
    assert!(matches!(relay.next(), Want::Write(data) if data == b"c"));
    let (_, rest) = relay.wrote(WriteResult::Written(1));
    assert_eq!(rest, b"c");
    assert!(relay.took(ReadOutcome::Failed("gone".to_string())).is_none());
    assert_eq!(relay.status, 1);
    assert_eq!(
        relay.stderr,
        b"wasmsh: stage: streaming pipeline read error: gone\n".to_vec()
    );
    assert!(matches!(relay.next(), Want::Finish));
}

#[test]
fn a_head_process_stops_at_its_limit() {
    let mut head = HeadProcess::new(StreamingHeadMode::Bytes(1));
    assert!(head.took(ReadOutcome::Read(b"a".to_vec())).is_none());
    assert_eq!(head.wrote(WriteResult::Written(1)), PipeProcessPoll::Exited);
    let mut broken = HeadProcess::new(StreamingHeadMode::Lines(5));
    assert!(broken.took(ReadOutcome::Read(b"a".to_vec())).is_none());
    assert_eq!(broken.wrote(WriteResult::BrokenPipe), PipeProcessPoll::Exited);
    let mut waiting = HeadProcess::new(StreamingHeadMode::Lines(1));
    assert_eq!(waiting.took(ReadOutcome::WouldBlock), Some(PipeProcessPoll::PendingRead));
}

#[test]
fn a_buffered_process_runs_once_its_input_is_there() {
    let mut process = BufferedProcess::new(true, 0, false);
    assert_eq!(process.ran(b"out", b"err", 3), PipeProcessPoll::Ready);
    assert_eq!(process.status, 3);
}

#[test]
fn pending_output_is_taken_as_far_as_it_fits() {
    let mut pending = b"abc".to_vec();
    let mut offset: usize = 1;
    let mut buf = [0u8; 1];
    assert_eq!(take_pending_output(&mut pending, &mut offset, &mut buf), 1);
    assert_eq!((pending.as_slice(), offset, buf[0]), (&b"abc"[..], 2, b'b'));
    assert_eq!(take_pending_output(&mut pending, &mut offset, &mut buf), 1);
    assert_eq!((pending.len(), offset, buf[0]), (0, 0, b'c'));
    let mut beyond = b"abc".to_vec();
    offset = 7;
    assert_eq!(take_pending_output(&mut beyond, &mut offset, &mut buf), 0);
    assert_eq!((beyond.len(), offset, buf[0]), (0, 0, b'c'));
}

#[test]
fn tee_copies_what_it_passes_on_and_reports_failures() {
    let tee = || stage(&["tee", "/f"]);
    let copied = |net: &Schedule, k: usize, j: usize| match &net.stretches[k].body {
        Body::Filters(filters) => filters.links[j].copied.clone(),
        Body::Direct(_) => panic!("no filters"),
    };
    let run = |mut net: Schedule| {
        loop {
            net.start_round();
            assert_eq!(net.advance(), Step::RoundOver);
            net.take_output();
            if !net.progressed {
                return net;
            }
        }
    };
    let stages = vec![
        StreamingPipelineStage::Yes(b"y\n".to_vec()),
        tee(),
        stage(&["head", "-n", "5"]),
    ];
    let net = run(Schedule::assemble(None, stages, &vec![false; 3], 1).unwrap());
    assert_eq!(copied(&net, 0, 0), b"y\ny\ny\ny\ny\n");
    assert_eq!(net.statuses(), vec![0, 0, 0]);

    let stages = vec![
        StreamingPipelineStage::Literal(b"a\nb\n".to_vec()),
        stage(&["grep", "x"]),
        tee(),
        stage(&["cat"]),
    ];
    let mut net = Schedule::assemble(None, stages, &vec![false; 4], 1).unwrap();
    assert!(!net.target_failed(1, "/f", "full"));
    assert!(net.target_failed(2, "/f", "full"));
    let net = run(net);
    assert_eq!(copied(&net, 0, 1), b"");
    assert_eq!(net.statuses(), vec![0, 1, 1, 0]);
    assert_eq!(net.stderr(), b"tee: /f: full\n");
}

#[test]
fn grep_and_uniq_write_the_lines_they_keep() {
    assert_eq!(filter(&["grep", "-F", "a.b"], "a.b\naxb\nza.bz\n"), "a.b\nza.bz\n");
    assert_eq!(filter(&["uniq"], "a\na\nb\na\n"), "a\nb\na\n");
}

#[test]
fn filters_that_are_cut_off_keep_their_status() {
    for capacity in [1, 4096] {
        let stages = vec![
            StreamingPipelineStage::Yes(b"ab\n".to_vec()),
            stage(&["grep", "b"]),
            stage(&["head", "-n", "1"]),
        ];
        let net = Schedule::assemble(None, stages, &vec![false; 3], capacity).unwrap();
        let (_, output, statuses, _) = run_schedule(net);
        assert_eq!(output, b"ab\n");
        assert_eq!(statuses, vec![0, 0, 0]);

        let stages = vec![
            StreamingPipelineStage::Literal(b"ab\ncd\n".to_vec()),
            stage(&["grep", "-c", "x"]),
            stage(&["head", "-c", "1"]),
        ];
        let net = Schedule::assemble(None, stages, &vec![false; 3], capacity).unwrap();
        let (_, output, statuses, _) = run_schedule(net);
        assert_eq!(output, b"0");
        assert_eq!(statuses, vec![0, 1, 0]);
    }
}

#[test]
fn tee_complains_into_its_output_where_its_stderr_goes_there() {
    let copied = |net: &Schedule| match &net.stretches[0].body {
        Body::Filters(filters) => filters.links[0].copied.clone(),
        Body::Direct(_) => panic!("no filters"),
    };
    let round = |net: &mut Schedule, out: &mut Vec<u8>| {
        net.start_round();
        assert_eq!(net.advance(), Step::RoundOver);
        out.extend(net.take_output());
        !net.round_ends(false)
    };
    for capacity in [1, 4096] {
        let stages = vec![
            StreamingPipelineStage::Literal(b"x".to_vec()),
            stage(&["tee", "/"]),
            stage(&["cat"]),
        ];
        let both = vec![false, true, false];
        let mut net = Schedule::assemble(None, stages, &both, capacity).unwrap();
        assert!(net.target_failed(1, "/", "is a directory: /"));
        let mut out: Vec<u8> = Vec::new();
        while round(&mut net, &mut out) {}
        assert!(net.is_over());
        assert_eq!(out, b"tee: /: is a directory: /\nx");
        assert_eq!(net.statuses(), vec![0, 1, 0]);
        assert_eq!(net.stderr(), b"");
        assert_eq!(copied(&net), b"x");
        assert!(!net.target_failed(1, "/", "too late"));
    }

    let stages = vec![
        StreamingPipelineStage::Yes(b"y\n".to_vec()),
        stage(&["tee", "/ok", "/"]),
        stage(&["head", "-n", "5"]),
    ];
    let both = vec![false, true, false];
    let mut net = Schedule::assemble(None, stages, &both, 1).unwrap();
    assert!(net.target_failed(1, "/", "is a directory: /"));
    let mut out: Vec<u8> = Vec::new();
    while round(&mut net, &mut out) {}
    assert_eq!(out, b"tee: /: is a directory: /\ny\ny\ny\ny\n");
    assert_eq!(copied(&net), b"y\ny\ny\ny\n");
    assert_eq!(net.stderr(), b"");

    let stages = vec![
        StreamingPipelineStage::Literal(b"abc".to_vec()),
        stage(&["tee", "/f"]),
        stage(&["cat"]),
    ];
    let mut net = Schedule::assemble(None, stages, &both, 1).unwrap();
    let mut out: Vec<u8> = Vec::new();
    while copied(&net).is_empty() {
        assert!(round(&mut net, &mut out));
    }
    assert!(net.target_failed(1, "/f", "full"));
    while round(&mut net, &mut out) {}
    assert_eq!(out, b"atee: /f: full\nbc");
    assert_eq!(copied(&net), b"abc");
    assert_eq!(net.statuses(), vec![0, 1, 0]);
}

#[test]
fn characters_that_are_cut_come_whole() {
    let text = "aé€😀z";
    for cut in 0..=text.len() {
        let mut pending: Vec<u8> = text.as_bytes()[..cut].to_vec();
        let mut chars = streaming_tr_process_utf8_chunk(&mut pending);
        pending.extend_from_slice(&text.as_bytes()[cut..]);
        chars.extend(streaming_tr_process_utf8_chunk(&mut pending));
        assert_eq!(chars.iter().collect::<String>(), text);
        assert!(pending.is_empty());
    }
    let mut pending: Vec<u8> = b"\xffa\xe2\x82".to_vec();
    assert_eq!(streaming_tr_process_utf8_chunk(&mut pending), vec!['\u{fffd}', 'a']);
    assert_eq!(pending, b"\xe2\x82");
}
