//! A pipeline of one stage, which writes its output itself.
use crate::fd_table::{io_view, ExecIo, FdView, OutputTarget};
use crate::pipeline::stage::{BufferedPipelineCommand, StreamingPipelineStage};
use crate::runtime::output::{routed, written_to, Console, ConsoleView};
use crate::stream::simple::STREAMING_YES_MAX_LINES;
use vstd::prelude::*;

verus! {

/// The output after a line was written up to `n` times, until a limit is hit.
pub open spec fn repeated_to(
    c: ConsoleView,
    io: Option<FdView>,
    line: Seq<u8>,
    n: nat,
) -> ConsoleView
    decreases n,
{
    if n == 0 {
        c
    } else {
        let after = written_to(c, io, line, true);
        if after.resource_exhausted {
            after
        } else {
            repeated_to(after, io, line, (n - 1) as nat)
        }
    }
}

/// Writes a line up to `n` times, until a limit is hit; the status says whether one was. Where the
/// redirections take the output elsewhere, nothing is written and the target is returned.
pub fn write_repeated(console: &mut Console, io: &Option<ExecIo>, line: &Vec<u8>, n: usize) -> (r:
    Result<i32, OutputTarget>)
    requires
        old(console).output_bytes + line@.len() * n <= u64::MAX,
    ensures
        match routed(io_view(*io), true) {
            Ok(_) => {
                &&& final(console)@ == repeated_to(
                    old(console)@,
                    io_view(*io),
                    line@,
                    n as nat,
                )
                &&& r matches Ok(status) && status == (if n > 0
                    && final(console)@.resource_exhausted {
                    1int
                } else {
                    0
                })
            },
            Err(t) => {
                &&& final(console)@ == old(console)@
                &&& if n > 0 {
                    r matches Err(x) && x@ == t
                } else {
                    r matches Ok(status) && status == 0
                }
            },
        },
{
    let ghost v = io_view(*io);
    let ghost first = console@;
    let mut left: usize = n;
    while left > 0
        invariant
            v == io_view(*io),
            left <= n,
            first == old(console)@,
            console.output_bytes + line@.len() * left <= u64::MAX,
            routed(v, true) is Ok ==> repeated_to(console@, v, line@, left as nat)
                == repeated_to(first, v, line@, n as nat),
            routed(v, true) is Ok && left < n ==> !console.resource_exhausted,
            routed(v, true) is Err ==> left == n && console@ == first,
        decreases left,
    {
        proof {
            assert(line@.len() * left == line@.len() + line@.len() * (left - 1))
                by (nonlinear_arith)
                requires
                    left > 0,
            ;
            assert(line@.len() * (left - 1) >= 0) by (nonlinear_arith)
                requires
                    left > 0,
            ;
        }
        match console.write_output(io, line.as_slice(), true) {
            Some(target) => {
                return Err(target);
            },
            None => {},
        }
        if console.resource_exhausted {
            return Ok(1);
        }
        left = left - 1;
    }
    Ok(0)
}

/// What is left of a stage that stands alone.
#[derive(Debug)]
pub enum SingleStage {
    /// It was written, with this status.
    Done(i32),
    /// Its output goes elsewhere: this is to be written there so many times.
    Elsewhere(OutputTarget, Vec<u8>, usize),
    /// The file at this path is to be written.
    File(String),
    /// The command is to be run.
    Command(BufferedPipelineCommand),
    /// It needs input, which it does not have: the status is one, and this is reported.
    Unsupported(String),
}

/// How often a stage that stands alone writes, and what.
pub open spec fn single_output(stage: StreamingPipelineStage) -> Option<(Seq<u8>, nat)> {
    match stage {
        StreamingPipelineStage::Literal(data) => Some((data@, 1)),
        StreamingPipelineStage::Yes(line) => Some((line@, STREAMING_YES_MAX_LINES as nat)),
        _ => None,
    }
}

/// Runs a stage that stands alone, as far as that takes no more than writing its output.
pub fn execute_scheduled_single_stage(
    console: &mut Console,
    io: &Option<ExecIo>,
    stage: StreamingPipelineStage,
) -> (r: SingleStage)
    requires
        single_output(stage) matches Some(x) ==> old(console).output_bytes + x.0.len() * x.1
            <= u64::MAX,
    ensures
        match stage {
            StreamingPipelineStage::Literal(data) => match routed(io_view(*io), true) {
                Ok(_) => r == SingleStage::Done(0) && final(console)@ == written_to(
                    old(console)@,
                    io_view(*io),
                    data@,
                    true,
                ),
                Err(t) => final(console)@ == old(console)@ && (r matches SingleStage::Elsewhere(
                    x,
                    d,
                    n,
                ) && x@ == t && d@ == data@ && n == 1),
            },
            StreamingPipelineStage::Yes(line) => match routed(io_view(*io), true) {
                Ok(_) => {
                    &&& final(console)@ == repeated_to(
                        old(console)@,
                        io_view(*io),
                        line@,
                        STREAMING_YES_MAX_LINES as nat,
                    )
                    &&& r == SingleStage::Done(
                        if final(console)@.resource_exhausted {
                            1
                        } else {
                            0
                        },
                    )
                },
                Err(t) => final(console)@ == old(console)@ && (r matches SingleStage::Elsewhere(
                    x,
                    d,
                    n,
                ) && x@ == t && d@ == line@ && n == STREAMING_YES_MAX_LINES),
            },
            StreamingPipelineStage::File(path) => r == SingleStage::File(path) && final(console)@
                == old(console)@,
            StreamingPipelineStage::BufferedCommand(c) => r == SingleStage::Command(c)
                && final(console)@ == old(console)@,
            _ => final(console)@ == old(console)@ && (r matches SingleStage::Unsupported(m) && m@
                == "wasmsh: unsupported single-stage scheduler node\n"@),
        },
{
    match stage {
        StreamingPipelineStage::Literal(data) => {
            match console.write_output(io, data.as_slice(), true) {
                Some(target) => SingleStage::Elsewhere(target, data, 1),
                None => SingleStage::Done(0),
            }
        },
        StreamingPipelineStage::Yes(line) => {
            match write_repeated(console, io, &line, STREAMING_YES_MAX_LINES) {
                Ok(status) => SingleStage::Done(status),
                Err(target) => SingleStage::Elsewhere(target, line, STREAMING_YES_MAX_LINES),
            }
        },
        StreamingPipelineStage::File(path) => SingleStage::File(path),
        StreamingPipelineStage::BufferedCommand(c) => SingleStage::Command(c),
        _ => SingleStage::Unsupported(
            "wasmsh: unsupported single-stage scheduler node\n".to_owned(),
        ),
    }
}

} // verus!
