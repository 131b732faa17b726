//! The arguments of `head` and `tail`.
use crate::stages::args::{arg_at, is_flag, is_flag_arg, number_of, read_number, tail_of};
use crate::stream::ends::{StreamingHeadMode, StreamingTailMode};
use crate::text::{starts_with, str_eq, str_starts_with};
use crate::views::strs;
use vstd::prelude::*;

verus! {

/// The mode that the arguments of `head` from the `i`-th on leave, and whether a file was named.
pub open spec fn head_args(
    args: Seq<Seq<char>>,
    i: int,
    mode: StreamingHeadMode,
    files: bool,
) -> Option<(StreamingHeadMode, bool)>
    decreases args.len() - i,
{
    if i < 0 || i >= args.len() {
        Some((mode, files))
    } else if args[i] == "-c"@ && i + 1 < args.len() {
        match number_of(args[i + 1]) {
            Some(n) => head_args(args, i + 2, StreamingHeadMode::Bytes(n), files),
            None => None,
        }
    } else if args[i] == "-n"@ && i + 1 < args.len() {
        match number_of(args[i + 1]) {
            Some(n) => head_args(args, i + 2, StreamingHeadMode::Lines(n), files),
            None => None,
        }
    } else if is_flag_arg(args[i]) && args[i] != "--"@ {
        match number_of(args[i].skip(1)) {
            Some(n) => head_args(args, i + 1, StreamingHeadMode::Lines(n), files),
            None => None,
        }
    } else if args[i] == "--"@ {
        head_args(args, i + 1, mode, files)
    } else {
        head_args(args, i + 1, mode, true)
    }
}

/// What the arguments of `head` ask for: ten lines unless they say otherwise. One that names a
/// file is no stage.
pub open spec fn head_stage(args: Seq<Seq<char>>) -> Option<StreamingHeadMode> {
    match head_args(args, 0, StreamingHeadMode::Lines(10), false) {
        Some((mode, files)) => if files {
            None
        } else {
            Some(mode)
        },
        None => None,
    }
}

/// Reads the arguments of `head`.
pub fn parse_streaming_head_stage(args: &[String]) -> (r: Option<StreamingHeadMode>)
    ensures
        r == head_stage(strs(args@)),
{
    let ghost a = strs(args@);
    let mut mode = StreamingHeadMode::Lines(10);
    let mut files: bool = false;
    let mut i: usize = 0;
    while i < args.len()
        invariant
            i <= args@.len(),
            a == strs(args@),
            head_args(a, 0, StreamingHeadMode::Lines(10), false) == head_args(
                a,
                i as int,
                mode,
                files,
            ),
        decreases args@.len() - i,
    {
        let arg = arg_at(args, i);
        let more: bool = args.len() - i > 1;
        if str_eq(arg, "-c") && more {
            match read_number(arg_at(args, i + 1)) {
                Some(n) => {
                    mode = StreamingHeadMode::Bytes(n);
                },
                None => {
                    return None;
                },
            }
            i = i + 2;
        } else if str_eq(arg, "-n") && more {
            match read_number(arg_at(args, i + 1)) {
                Some(n) => {
                    mode = StreamingHeadMode::Lines(n);
                },
                None => {
                    return None;
                },
            }
            i = i + 2;
        } else if is_flag(arg) && !str_eq(arg, "--") {
            match read_number(tail_of(arg, 1).as_str()) {
                Some(n) => {
                    mode = StreamingHeadMode::Lines(n);
                },
                None => {
                    return None;
                },
            }
            i = i + 1;
        } else if str_eq(arg, "--") {
            i = i + 1;
        } else {
            files = true;
            i = i + 1;
        }
    }
    if files {
        None
    } else {
        Some(mode)
    }
}

/// The mode that the arguments of `tail` from the `i`-th on leave, and whether a file was named.
pub open spec fn tail_args(
    args: Seq<Seq<char>>,
    i: int,
    mode: StreamingTailMode,
    files: bool,
) -> Option<(StreamingTailMode, bool)>
    decreases args.len() - i,
{
    if i < 0 || i >= args.len() {
        Some((mode, files))
    } else if args[i] == "-c"@ && i + 1 < args.len() {
        match number_of(args[i + 1]) {
            Some(n) => tail_args(args, i + 2, StreamingTailMode::Bytes(n), files),
            None => None,
        }
    } else if args[i] == "-n"@ && i + 1 < args.len() {
        if starts_with(args[i + 1], "+"@) {
            None
        } else {
            match number_of(args[i + 1]) {
                Some(n) => tail_args(args, i + 2, StreamingTailMode::Lines(n), files),
                None => None,
            }
        }
    } else if args[i] == "-f"@ {
        None
    } else if is_flag_arg(args[i]) && args[i] != "--"@ {
        match number_of(args[i].skip(1)) {
            Some(n) => tail_args(args, i + 1, StreamingTailMode::Lines(n), files),
            None => None,
        }
    } else if args[i] == "--"@ {
        tail_args(args, i + 1, mode, files)
    } else {
        tail_args(args, i + 1, mode, true)
    }
}

/// What the arguments of `tail` ask for: ten lines unless they say otherwise. One that names a
/// file, follows, or counts from the start is no stage.
pub open spec fn tail_stage(args: Seq<Seq<char>>) -> Option<StreamingTailMode> {
    match tail_args(args, 0, StreamingTailMode::Lines(10), false) {
        Some((mode, files)) => if files {
            None
        } else {
            Some(mode)
        },
        None => None,
    }
}

/// Reads the arguments of `tail`.
pub fn parse_streaming_tail_stage(args: &[String]) -> (r: Option<StreamingTailMode>)
    ensures
        r == tail_stage(strs(args@)),
{
    let ghost a = strs(args@);
    let mut mode = StreamingTailMode::Lines(10);
    let mut files: bool = false;
    let mut i: usize = 0;
    while i < args.len()
        invariant
            i <= args@.len(),
            a == strs(args@),
            tail_args(a, 0, StreamingTailMode::Lines(10), false) == tail_args(
                a,
                i as int,
                mode,
                files,
            ),
        decreases args@.len() - i,
    {
        let arg = arg_at(args, i);
        let more: bool = args.len() - i > 1;
        if str_eq(arg, "-c") && more {
            match read_number(arg_at(args, i + 1)) {
                Some(n) => {
                    mode = StreamingTailMode::Bytes(n);
                },
                None => {
                    return None;
                },
            }
            i = i + 2;
        } else if str_eq(arg, "-n") && more {
            let value = arg_at(args, i + 1);
            if str_starts_with(value, "+") {
                return None;
            }
            match read_number(value) {
                Some(n) => {
                    mode = StreamingTailMode::Lines(n);
                },
                None => {
                    return None;
                },
            }
            i = i + 2;
        } else if str_eq(arg, "-f") {
            return None;
        } else if is_flag(arg) && !str_eq(arg, "--") {
            match read_number(tail_of(arg, 1).as_str()) {
                Some(n) => {
                    mode = StreamingTailMode::Lines(n);
                },
                None => {
                    return None;
                },
            }
            i = i + 1;
        } else if str_eq(arg, "--") {
            i = i + 1;
        } else {
            files = true;
            i = i + 1;
        }
    }
    if files {
        None
    } else {
        Some(mode)
    }
}

} // verus!
