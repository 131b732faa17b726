//! What holds of how a pipeline is made up and how it ends.
use crate::commands::assign::{indexed_env, law_array_holds_its_elements, numbered};
use crate::pipeline::drive::{
    negated_status, pipeline_result, pipestatus_upto, runs_next, AndOrOp,
};
use crate::pipeline::assemble::stage_writes;
use crate::pipeline::network::{link_output, link_status};
use crate::pipeline::reader::law_cat_is_identity;
use crate::pipeline::stage::{
    compiled, stage_answers, starts_pipeline, status_at_first, BufferedPipelineCommand, CommandFacts,
    StreamingPipelineStage,
};
use crate::stages::plain::StreamingTeeStage;
use crate::stages::sources::{echo_bytes, yes_line};
use crate::state::flags_of;
use crate::stream::ends::{
    first_lines, law_head_bytes, law_head_lines, law_tail_bytes, StreamingHeadMode,
    StreamingTailMode,
};
use crate::text::dec_int;
use crate::vars::{lookup, EnvView, ValueView};
use crate::views::strs;
use vstd::prelude::*;

verus! {

/// The status of a pipeline is that of its last command; with `pipefail` it is that of the last one
/// that failed, where one did.
pub proof fn law_pipeline_status(statuses: Seq<i32>)
    requires
        statuses.len() > 0,
    ensures
        pipeline_result(statuses, false) == statuses.last(),
        pipeline_result(statuses, true) != 0 ==> exists|i: int|
            0 <= i < statuses.len() && statuses[i] == pipeline_result(statuses, true) && (forall|
                j: int,
            |
                i < j < statuses.len() ==> #[trigger] statuses[j] == 0),
    decreases statuses.len(),
{
    let n = statuses.len() - 1;
    if statuses.last() != 0 {
        assert(statuses[n] == pipeline_result(statuses, true));
    } else if n > 0 {
        let r = statuses.drop_last();
        law_pipeline_status(r);
        if pipeline_result(statuses, true) != 0 {
            let i = choose|i: int|
                0 <= i < r.len() && r[i] == pipeline_result(r, true) && (forall|j: int|
                    i < j < r.len() ==> #[trigger] r[j] == 0);
            assert(statuses[i] == pipeline_result(statuses, true));
            assert forall|j: int| i < j < statuses.len() implies #[trigger] statuses[j] == 0 by {
                if j < n {
                    assert(r[j] == 0);
                }
            }
        }
    } else {
        assert(pipeline_result(statuses.drop_last(), true) == 0);
    }
}

/// `!` turns success into failure and every failure into success. After `&&` a command runs where the
/// one before succeeded, after `||` where it failed, and never after both.
pub proof fn law_negation_and_joining(status: i32)
    ensures
        negated_status(status, false) == status,
        negated_status(status, true) == 0 <==> status != 0,
        negated_status(status, true) == 1 <==> status == 0,
        runs_next(AndOrOp::And, status) <==> status == 0,
        runs_next(AndOrOp::Or, status) <==> !runs_next(AndOrOp::And, status),
        runs_next(AndOrOp::And, negated_status(status, true)) == runs_next(AndOrOp::Or, status),
{
}

proof fn lemma_pipestatus(env: EnvView, statuses: Seq<i32>, n: int)
    requires
        0 <= n <= statuses.len(),
    ensures
        pipestatus_upto(env, statuses, n) == indexed_env(
            env,
            "PIPESTATUS"@,
            statuses.map_values(|s: i32| dec_int(s as int)),
            n,
        ),
    decreases n,
{
    if n > 0 {
        lemma_pipestatus(env, statuses, n - 1);
    }
}

/// `PIPESTATUS` holds the status of each command of a pipeline under its place, from zero on, and
/// nothing of an earlier pipeline.
pub proof fn law_statuses_are_kept(env: EnvView, statuses: Seq<i32>)
    requires
        env.len() > 0,
        !flags_of(lookup(env, "PIPESTATUS"@)).readonly,
        statuses.len() <= usize::MAX,
    ensures
        lookup(
            pipestatus_upto(env, statuses, statuses.len() as int),
            "PIPESTATUS"@,
        ) matches Some(v) && (v.value matches ValueView::Indexed(e) && e.len() == statuses.len()
            && (forall|i: int|
            0 <= i < e.len() ==> #[trigger] e[i] == (i as usize, dec_int(statuses[i] as int)))),
{
    let words = statuses.map_values(|s: i32| dec_int(s as int));
    lemma_pipestatus(env, statuses, statuses.len() as int);
    law_array_holds_its_elements(env, "PIPESTATUS"@, words, statuses.len() as int);
    let e = numbered(words, statuses.len() as int);
    assert forall|i: int| 0 <= i < e.len() implies #[trigger] e[i] == (
        i as usize,
        dec_int(statuses[i] as int),
    ) by {
        assert(words[i] == dec_int(statuses[i] as int));
    }
}

/// A command that is defined as a function or an alias, or whose words are not known, runs as a whole,
/// whatever its name is.
pub proof fn law_functions_run_whole(
    argv: Seq<Seq<char>>,
    alias: bool,
    is_first: bool,
    facts: CommandFacts,
    r: StreamingPipelineStage,
)
    ensures
        compiled(None, alias, is_first, facts, r) <==> r == StreamingPipelineStage::BufferedCommand(
            BufferedPipelineCommand::Whole,
        ),
        compiled(Some(argv), true, is_first, facts, r) <==> r
            == StreamingPipelineStage::BufferedCommand(BufferedPipelineCommand::Whole),
        !alias && facts.function && compiled(Some(argv), alias, is_first, facts, r) ==> (r matches
            StreamingPipelineStage::BufferedCommand(BufferedPipelineCommand::Argv(v)) && strs(v@)
            == argv),
{
}

/// What a pipeline can start with: what `echo` and `yes` print, a file that `cat` names, or a command.
/// Behind a pipe `echo` and `yes` are commands.
pub proof fn law_sources_start_a_pipeline(
    argv: Seq<Seq<char>>,
    facts: CommandFacts,
    r: StreamingPipelineStage,
)
    requires
        argv.len() > 0,
        stage_answers(argv, true, facts, Some(r)),
    ensures
        starts_pipeline(r),
        argv[0] == "echo"@ ==> (r matches StreamingPipelineStage::Literal(d) && d@ == echo_bytes(
            argv.skip(1),
        )),
        argv[0] == "yes"@ ==> (r matches StreamingPipelineStage::Yes(d) && d@ == yes_line(
            argv.skip(1),
        )),
        argv[0] == "cat"@ ==> r is File,
        argv[0] != "echo"@ && argv[0] != "yes"@ && argv[0] != "cat"@ ==> (r matches
            StreamingPipelineStage::BufferedCommand(BufferedPipelineCommand::Argv(v)) && strs(v@)
            == argv),
{
    reveal_strlit("echo");
    reveal_strlit("yes");
    reveal_strlit("cat");
    assert("echo"@.len() == 4 && "yes"@.len() == 3 && "cat"@.len() == 3);
    assert("yes"@[0] == 'y' && "cat"@[0] == 'c');
}

/// Behind a pipe each filter of the shell is the stage of its name, and every other command runs with
/// its words.
pub proof fn law_filters_by_name(
    argv: Seq<Seq<char>>,
    facts: CommandFacts,
    r: StreamingPipelineStage,
)
    requires
        argv.len() > 0,
        stage_answers(argv, false, facts, Some(r)),
    ensures
        argv[0] == "cat"@ <==> r is Cat,
        argv[0] == "head"@ <==> r is Head,
        argv[0] == "tail"@ <==> r is Tail,
        argv[0] == "bat"@ <==> r is Bat,
        argv[0] == "sed"@ <==> r is Sed,
        argv[0] == "tee"@ <==> r is Tee,
        argv[0] == "paste"@ <==> r is Paste,
        argv[0] == "column"@ <==> r is Column,
        argv[0] == "grep"@ <==> r is Grep,
        argv[0] == "uniq"@ <==> r is Uniq,
        argv[0] == "rev"@ <==> r is Rev,
        argv[0] == "cut"@ <==> r is Cut,
        argv[0] == "tr"@ <==> r is Tr,
        argv[0] == "wc"@ <==> r is Wc,
        !(r is Literal) && !(r is File) && !(r is Yes),
        r matches StreamingPipelineStage::BufferedCommand(c) ==> (c matches
            BufferedPipelineCommand::Argv(v) && strs(v@) == argv),
{
    reveal_strlit("cat");
    reveal_strlit("head");
    reveal_strlit("tail");
    reveal_strlit("bat");
    reveal_strlit("sed");
    reveal_strlit("tee");
    reveal_strlit("paste");
    reveal_strlit("column");
    reveal_strlit("grep");
    reveal_strlit("uniq");
    reveal_strlit("rev");
    reveal_strlit("cut");
    reveal_strlit("tr");
    reveal_strlit("wc");
    assert("cat"@[0] == 'c' && "cat"@[1] == 'a' && "cut"@[0] == 'c' && "cut"@[1] == 'u');
    assert("head"@[0] == 'h' && "tail"@[0] == 't' && "bat"@[0] == 'b' && "sed"@[0] == 's');
    assert("tee"@[0] == 't' && "paste"@[0] == 'p' && "column"@[0] == 'c' && "grep"@[0] == 'g');
    assert("uniq"@[0] == 'u' && "rev"@[0] == 'r' && "tr"@[0] == 't' && "wc"@[0] == 'w');
    assert("tail"@.len() == 4 && "tee"@.len() == 3 && "tr"@.len() == 2 && "cat"@.len() == 3
        && "cut"@.len() == 3 && "column"@.len() == 6);
}

/// What the simple stages hand on: `cat`, `tee` and `column` all of their input, `head -c` its beginning
/// and `tail -c` its end.
pub proof fn law_outputs_of_stages(input: Seq<u8>, tee: StreamingTeeStage, n: usize)
    ensures
        link_output(StreamingPipelineStage::Cat, false, input) == input,
        link_output(StreamingPipelineStage::Tee(tee), false, input) == input,
        link_output(StreamingPipelineStage::Tee(tee), true, input) == input,
        n > 0 ==> link_output(
            StreamingPipelineStage::Head(StreamingHeadMode::Bytes(n)),
            false,
            input,
        ) == input.take(
            if n < input.len() {
                n as int
            } else {
                input.len() as int
            },
        ),
        n > 0 ==> link_output(
            StreamingPipelineStage::Head(StreamingHeadMode::Lines(n)),
            false,
            input,
        ) == first_lines(input, n as nat),
        link_output(
            StreamingPipelineStage::Tail(StreamingTailMode::Bytes(n)),
            false,
            input,
        ) == input.skip(
            if n < input.len() {
                input.len() - n
            } else {
                0
            },
        ),
{
    law_cat_is_identity(input);
    law_head_bytes(input, n);
    law_head_lines(input, n);
    law_tail_bytes(input, n);
    assert(input.skip(0) =~= input);
}

/// Every filter but `grep` succeeds, whatever its input is.
pub proof fn law_statuses_of_filters(stage: StreamingPipelineStage, input: Seq<u8>)
    ensures
        !(stage is Grep) ==> link_status(stage, input) == 0,
{
}

/// What a pipeline writes in the end is what its last stage makes of what the one before it writes.
pub proof fn law_stages_feed_each_other(
    stages: Seq<StreamingPipelineStage>,
    source: Seq<u8>,
    outs: Seq<Seq<u8>>,
    i: int,
)
    requires
        0 <= i < stages.len(),
    ensures
        stage_writes(stages, source, outs, -1) == source,
        stages[i] matches StreamingPipelineStage::Literal(d) ==> stage_writes(
            stages,
            source,
            outs,
            i,
        ) == d@,
        stages[i] is BufferedCommand ==> stage_writes(stages, source, outs, i) == outs[i],
        stages[i] is Cat || stages[i] is Tee ==> stage_writes(stages, source, outs, i)
            == stage_writes(stages, source, outs, i - 1),
{
    law_cat_is_identity(stage_writes(stages, source, outs, i - 1));
}

/// A `grep` that has read nothing has found nothing; every other stage starts out well.
pub proof fn law_statuses_at_first(stage: StreamingPipelineStage)
    ensures
        stage is Grep ==> status_at_first(stage) == 1,
        !(stage is Grep) ==> status_at_first(stage) == link_status(stage, Seq::empty()),
{
}

} // verus!
