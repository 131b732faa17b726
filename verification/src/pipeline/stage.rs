//! The stages of a pipeline, and how a command becomes one.
use crate::stages::bat::{bat_args, bat_default, parse_streaming_bat_stage};
use crate::stages::cut::{cut_answers, cut_args, cut_default, parse_streaming_cut_stage};
use crate::stages::ends::{
    head_stage, parse_streaming_head_stage, parse_streaming_tail_stage, tail_stage,
};
use crate::stages::grep::{grep_stage, parse_streaming_grep_stage};
use crate::stages::plain::{
    column_args, parse_streaming_column_stage, parse_streaming_paste_stage,
    parse_streaming_rev_stage, parse_streaming_tee_stage, parse_streaming_wc_stage, paste_args,
    paste_default, tee_args, wc_stage, PasteArgs, StreamingTeeStage, TeeArgs,
};
use crate::stages::sed::{
    parse_streaming_sed_stage, sed_args_fit, sed_args_readable, sed_stage,
};
use crate::stages::sources::{
    cat_files, copy_strings, echo_bytes, has_dash, parse_streaming_cat_stage,
    streaming_echo_bytes, streaming_yes_line, yes_line, CatStage,
};
use crate::stages::tr::{parse_streaming_tr_stage, tr_stage, TrFlags};
use crate::stages::uniq::{parse_streaming_uniq_stage, uniq_args, uniq_default};
use crate::stream::bat::StreamingBatStage;
use crate::stream::cut::StreamingCutStage;
use crate::stream::ends::{StreamingHeadMode, StreamingTailMode};
use crate::stream::grep::StreamingGrepStage;
use crate::stream::sed::StreamingSedStage;
use crate::stream::sed_parse::instructions_view;
use crate::stream::simple::StreamingPasteStage;
use crate::stream::tr::StreamingTrStage;
use crate::stream::uniq::StreamingUniqFlags;
use crate::stream::wc::StreamingWcFlags;
use crate::text::str_eq;
use crate::views::strs;
use vstd::prelude::*;

verus! {

/// A command that runs as a whole, on input that was collected for it.
#[derive(Debug)]
pub enum BufferedPipelineCommand {
    /// The command with these arguments.
    Argv(Vec<String>),
    /// The command as it was written.
    Whole,
}

/// A stage of a pipeline.
#[derive(Debug)]
pub enum StreamingPipelineStage {
    Literal(Vec<u8>),
    File(String),
    Yes(Vec<u8>),
    Cat,
    Head(StreamingHeadMode),
    Tail(StreamingTailMode),
    Bat(StreamingBatStage),
    Sed(StreamingSedStage),
    Tee(StreamingTeeStage),
    Paste(StreamingPasteStage),
    Column,
    Grep(StreamingGrepStage),
    Uniq(StreamingUniqFlags),
    Rev,
    Cut(StreamingCutStage),
    Tr(StreamingTrStage),
    Wc(StreamingWcFlags),
    BufferedCommand(BufferedPipelineCommand),
}

/// What a command name stands for in the shell.
#[derive(Clone, Copy, Debug)]
pub struct CommandFacts {
    pub function: bool,
    pub builtin: bool,
    pub utility: bool,
    /// Whether the host may run commands that the shell does not know.
    pub external: bool,
}

/// Whether a command that is no streaming stage can run as a whole.
pub open spec fn runs_whole(name: Seq<char>, facts: CommandFacts) -> bool {
    name == "bash"@ || name == "sh"@ || name == "builtin"@ || facts.function || facts.builtin
        || facts.utility || facts.external
}

/// Whether `r` is the stage of a command that runs as a whole.
pub open spec fn whole_answers(
    argv: Seq<Seq<char>>,
    facts: CommandFacts,
    r: Option<StreamingPipelineStage>,
) -> bool {
    if runs_whole(argv[0], facts) {
        r matches Some(StreamingPipelineStage::BufferedCommand(BufferedPipelineCommand::Argv(v)))
            && strs(v@) == argv
    } else {
        r is None
    }
}

/// Whether `r` is what `cat` is in a pipeline.
pub open spec fn cat_answers(
    args: Seq<Seq<char>>,
    is_first: bool,
    r: Option<StreamingPipelineStage>,
) -> bool {
    let files = cat_files(args);
    let plain = forall|i: int| 0 <= i < files.len() ==> !has_dash(#[trigger] files[i]);
    if !plain || (is_first && files.len() != 1) {
        r is None
    } else if is_first {
        r matches Some(StreamingPipelineStage::File(f)) && f@ == files[0]
    } else {
        r == Some(StreamingPipelineStage::Cat)
    }
}

/// Whether `r` is the stage that a command is: a source where it is the first of its pipeline,
/// a filter where it is not, a command that runs as a whole where the shell knows it, and no
/// stage otherwise.
pub open spec fn stage_answers(
    argv: Seq<Seq<char>>,
    is_first: bool,
    facts: CommandFacts,
    r: Option<StreamingPipelineStage>,
) -> bool {
    let name = argv[0];
    let args = argv.skip(1);
    if argv.len() == 0 {
        r is None
    } else if name == "echo"@ && is_first {
        r matches Some(StreamingPipelineStage::Literal(d)) && d@ == echo_bytes(args)
    } else if name == "yes"@ && is_first {
        r matches Some(StreamingPipelineStage::Yes(d)) && d@ == yes_line(args)
    } else if name == "cat"@ {
        cat_answers(args, is_first, r)
    } else if is_first {
        whole_answers(argv, facts, r)
    } else {
        filter_answers(argv, facts, r)
    }
}

/// Whether `r` is the stage that a command is which is not the first of its pipeline.
pub open spec fn filter_answers(
    argv: Seq<Seq<char>>,
    facts: CommandFacts,
    r: Option<StreamingPipelineStage>,
) -> bool {
    let name = argv[0];
    let args = argv.skip(1);
    if name == "head"@ {
        match head_stage(args) {
            Some(m) => r == Some(StreamingPipelineStage::Head(m)),
            None => r is None,
        }
    } else if name == "tail"@ {
        match tail_stage(args) {
            Some(m) => r == Some(StreamingPipelineStage::Tail(m)),
            None => r is None,
        }
    } else if name == "bat"@ {
        match bat_args(args, 0, bat_default()) {
            Some(s) => r == Some(StreamingPipelineStage::Bat(s)),
            None => r is None,
        }
    } else if name == "sed"@ {
        match sed_stage(args) {
            Some(x) => r matches Some(StreamingPipelineStage::Sed(s)) && x == (
                s.suppress_print,
                instructions_view(s.instructions@),
            ),
            None => r is None,
        }
    } else if name == "tee"@ {
        match tee_args(args, 0, TeeArgs { append: false, paths: Seq::empty() }) {
            Some(x) => r matches Some(StreamingPipelineStage::Tee(s)) && x == (TeeArgs {
                append: s.append,
                paths: strs(s.paths@),
            }),
            None => r is None,
        }
    } else if name == "paste"@ {
        match paste_args(args, 0, paste_default()) {
            Some(x) => r matches Some(StreamingPipelineStage::Paste(s)) && x == (PasteArgs {
                delimiter: s.delimiter@,
                serial: s.serial,
            }),
            None => r is None,
        }
    } else if name == "column"@ {
        r == if column_args(args, 0) {
            Some(StreamingPipelineStage::Column)
        } else {
            None
        }
    } else if name == "grep"@ {
        match grep_stage(args) {
            Some(x) => r matches Some(StreamingPipelineStage::Grep(s)) && x == (
                s.flags,
                strs(s.patterns@),
            ),
            None => r is None,
        }
    } else if name == "uniq"@ {
        match uniq_args(args, 0, uniq_default()) {
            Some(f) => r == Some(StreamingPipelineStage::Uniq(f)),
            None => r is None,
        }
    } else if name == "rev"@ {
        r == if forall|i: int| 0 <= i < args.len() ==> (#[trigger] args[i]) == "--"@ {
            Some(StreamingPipelineStage::Rev)
        } else {
            None
        }
    } else if name == "cut"@ {
        match cut_args(args, 0, cut_default()) {
            Some(x) => if x.mode is None {
                r is None
            } else {
                r matches Some(StreamingPipelineStage::Cut(s)) && cut_answers(x, s)
            },
            None => r is None,
        }
    } else if name == "tr"@ {
        match tr_stage(args) {
            Some(x) => r matches Some(StreamingPipelineStage::Tr(s)) && x == (
                TrFlags { delete: s.delete, squeeze: s.squeeze, complement: s.complement },
                s.from_chars@,
                s.to_chars@,
            ),
            None => r is None,
        }
    } else if name == "wc"@ {
        match wc_stage(args) {
            Some(f) => r == Some(StreamingPipelineStage::Wc(f)),
            None => r is None,
        }
    } else {
        whole_answers(argv, facts, r)
    }
}

/// Whether the arguments of a command can be read.
pub open spec fn argv_fits(argv: Seq<Seq<char>>, is_first: bool) -> bool {
    argv.len() > 0 && argv[0] == "sed"@ && !is_first ==> sed_args_fit(argv.skip(1))
}

fn parse_whole(argv: &[String], facts: CommandFacts) -> (r: Option<StreamingPipelineStage>)
    requires
        argv@.len() > 0,
    ensures
        whole_answers(strs(argv@), facts, r),
{
    let name = argv[0].as_str();
    assert(strs(argv@)[0] == name@);
    if str_eq(name, "bash") || str_eq(name, "sh") || str_eq(name, "builtin") || facts.function
        || facts.builtin || facts.utility || facts.external {
        Some(
            StreamingPipelineStage::BufferedCommand(
                BufferedPipelineCommand::Argv(copy_strings(argv)),
            ),
        )
    } else {
        None
    }
}

#[verifier::rlimit(40)]
fn parse_filter(argv: &[String], facts: CommandFacts) -> (r: Option<StreamingPipelineStage>)
    requires
        argv@.len() > 0,
        argv_fits(strs(argv@), false),
    ensures
        filter_answers(strs(argv@), facts, r),
{
    let name = argv[0].as_str();
    let args = vstd::slice::slice_subrange(argv, 1, argv.len());
    assert(strs(argv@)[0] == name@);
    assert(strs(args@) =~= strs(argv@).skip(1));
    if str_eq(name, "head") {
        match parse_streaming_head_stage(args) {
            Some(s) => Some(StreamingPipelineStage::Head(s)),
            None => None,
        }
    } else if str_eq(name, "tail") {
        match parse_streaming_tail_stage(args) {
            Some(s) => Some(StreamingPipelineStage::Tail(s)),
            None => None,
        }
    } else if str_eq(name, "bat") {
        match parse_streaming_bat_stage(args) {
            Some(s) => Some(StreamingPipelineStage::Bat(s)),
            None => None,
        }
    } else if str_eq(name, "sed") {
        match parse_streaming_sed_stage(args) {
            Some(s) => Some(StreamingPipelineStage::Sed(s)),
            None => None,
        }
    } else if str_eq(name, "tee") {
        match parse_streaming_tee_stage(args) {
            Some(s) => Some(StreamingPipelineStage::Tee(s)),
            None => None,
        }
    } else if str_eq(name, "paste") {
        match parse_streaming_paste_stage(args) {
            Some(s) => Some(StreamingPipelineStage::Paste(s)),
            None => None,
        }
    } else if str_eq(name, "column") {
        if parse_streaming_column_stage(args) {
            Some(StreamingPipelineStage::Column)
        } else {
            None
        }
    } else if str_eq(name, "grep") {
        match parse_streaming_grep_stage(args) {
            Some(s) => Some(StreamingPipelineStage::Grep(s)),
            None => None,
        }
    } else if str_eq(name, "uniq") {
        match parse_streaming_uniq_stage(args) {
            Some(s) => Some(StreamingPipelineStage::Uniq(s)),
            None => None,
        }
    } else if str_eq(name, "rev") {
        if parse_streaming_rev_stage(args) {
            Some(StreamingPipelineStage::Rev)
        } else {
            None
        }
    } else if str_eq(name, "cut") {
        match parse_streaming_cut_stage(args) {
            Some(s) => Some(StreamingPipelineStage::Cut(s)),
            None => None,
        }
    } else if str_eq(name, "tr") {
        match parse_streaming_tr_stage(args) {
            Some(s) => Some(StreamingPipelineStage::Tr(s)),
            None => None,
        }
    } else if str_eq(name, "wc") {
        match parse_streaming_wc_stage(args) {
            Some(s) => Some(StreamingPipelineStage::Wc(s)),
            None => None,
        }
    } else {
        parse_whole(argv, facts)
    }
}

/// Makes a command a stage.
pub fn parse_streaming_stage(argv: &[String], is_first: bool, facts: CommandFacts) -> (r: Option<
    StreamingPipelineStage,
>)
    requires
        argv_fits(strs(argv@), is_first),
    ensures
        stage_answers(strs(argv@), is_first, facts, r),
        is_first ==> (r matches Some(s) ==> starts_pipeline(s)),
{
    if argv.len() == 0 {
        return None;
    }
    let name = argv[0].as_str();
    let args = vstd::slice::slice_subrange(argv, 1, argv.len());
    assert(strs(argv@)[0] == name@);
    assert(strs(args@) =~= strs(argv@).skip(1));
    if str_eq(name, "echo") && is_first {
        Some(StreamingPipelineStage::Literal(streaming_echo_bytes(args)))
    } else if str_eq(name, "yes") && is_first {
        Some(StreamingPipelineStage::Yes(streaming_yes_line(args)))
    } else if str_eq(name, "cat") {
        match parse_streaming_cat_stage(args, is_first) {
            Some(CatStage::File(f)) => Some(StreamingPipelineStage::File(f)),
            Some(CatStage::Pass) => Some(StreamingPipelineStage::Cat),
            None => None,
        }
    } else if is_first {
        parse_whole(argv, facts)
    } else {
        parse_filter(argv, facts)
    }
}

/// Whether a stage needs no input.
pub open spec fn starts_pipeline(s: StreamingPipelineStage) -> bool {
    s is Literal || s is File || s is Yes || s is BufferedCommand
}

/// Whether a stage runs in the scheduler itself, and not as a whole command.
pub fn uses_native_pipe_scheduler(stage: &StreamingPipelineStage) -> (r: bool)
    ensures
        r == !(stage is BufferedCommand),
{
    match stage {
        StreamingPipelineStage::BufferedCommand(_) => false,
        _ => true,
    }
}

/// Whether `r` is the stage of a command whose arguments are `argv`, where they are known
/// before it runs. An alias keeps it as it was written, a function runs as a whole, and what
/// is no stage stays as it was written.
pub open spec fn compiled(
    argv: Option<Seq<Seq<char>>>,
    alias: bool,
    is_first: bool,
    facts: CommandFacts,
    r: StreamingPipelineStage,
) -> bool {
    let whole = StreamingPipelineStage::BufferedCommand(BufferedPipelineCommand::Whole);
    match argv {
        None => r == whole,
        Some(a) => if alias {
            r == whole
        } else if facts.function {
            r matches StreamingPipelineStage::BufferedCommand(BufferedPipelineCommand::Argv(v))
                && strs(v@) == a
        } else {
            stage_answers(a, is_first, facts, Some(r)) || (r == whole && stage_answers(
                a,
                is_first,
                facts,
                None,
            ))
        },
    }
}

/// Whether the arguments of a command can be read as those of a stage.
pub fn stage_args_readable(argv: &[String], is_first: bool) -> (r: bool)
    ensures
        r == argv_fits(strs(argv@), is_first),
{
    let ghost all = strs(argv@);
    if argv.len() > 0 && !is_first {
        assert(all[0] == argv@[0]@);
        if str_eq(argv[0].as_str(), "sed") {
            let args = vstd::slice::slice_subrange(argv, 1, argv.len());
            assert(strs(args@) =~= all.skip(1));
            return sed_args_readable(args);
        }
    }
    true
}

/// Makes a command of a pipeline a stage.
pub fn compile_pipeline_stage(
    argv: Option<Vec<String>>,
    alias: bool,
    is_first: bool,
    facts: CommandFacts,
) -> (r: StreamingPipelineStage)
    requires
        argv matches Some(v) ==> argv_fits(strs(v@), is_first),
    ensures
        compiled(
            match argv {
                Some(v) => Some(strs(v@)),
                None => None,
            },
            alias,
            is_first,
            facts,
            r,
        ),
        is_first ==> starts_pipeline(r),
{
    match argv {
        None => StreamingPipelineStage::BufferedCommand(BufferedPipelineCommand::Whole),
        Some(v) => {
            if alias {
                StreamingPipelineStage::BufferedCommand(BufferedPipelineCommand::Whole)
            } else if facts.function {
                StreamingPipelineStage::BufferedCommand(BufferedPipelineCommand::Argv(v))
            } else {
                match parse_streaming_stage(v.as_slice(), is_first, facts) {
                    Some(stage) => stage,
                    None => StreamingPipelineStage::BufferedCommand(BufferedPipelineCommand::Whole),
                }
            }
        },
    }
}

/// The status of a stage that has read nothing.
pub open spec fn status_at_first(stage: StreamingPipelineStage) -> i32 {
    if stage is Grep {
        1
    } else {
        0
    }
}

/// The status that a stage starts with: `grep` fails until it has found something.
pub fn initial_status(stage: &StreamingPipelineStage) -> (r: i32)
    ensures
        r == status_at_first(*stage),
{
    match stage {
        StreamingPipelineStage::Grep(_) => 1,
        _ => 0,
    }
}

/// What a command is called in messages: its name, or what kind of command was written.
pub fn command_label(command: &BufferedPipelineCommand, kind: &str) -> (r: String)
    ensures
        r@ == (match *command {
            BufferedPipelineCommand::Argv(argv) => if argv@.len() > 0 {
                argv@[0]@
            } else {
                "command"@
            },
            BufferedPipelineCommand::Whole => kind@,
        }),
{
    match command {
        BufferedPipelineCommand::Argv(argv) => if argv.len() > 0 {
            argv[0].clone()
        } else {
            "command".to_owned()
        },
        BufferedPipelineCommand::Whole => kind.to_owned(),
    }
}

} // verus!
