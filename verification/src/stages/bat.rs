//! The arguments of `bat`.
use crate::stages::args::{
    arg_at, index_of_char, is_flag, is_flag_arg, letters_of, number_of, number_pair, read_number,
    read_number_pair, tail_of,
};
use crate::stream::bat::StreamingBatStage;
use crate::stream::sed::position_of;
use crate::text::{chars_of, starts_with, str_eq, str_starts_with};
use crate::views::strs;
use vstd::prelude::*;

verus! {

/// The lines that a range argument names: both bounds around a `:`, or one line; nothing where
/// the one line is no number.
pub open spec fn bat_range(s: Seq<char>) -> Option<(Option<usize>, Option<usize>)> {
    if index_of_char(s, ':') < s.len() {
        Some(number_pair(s, ':'))
    } else {
        match number_of(s) {
            Some(n) => Some((Some(n), Some(n))),
            None => None,
        }
    }
}

/// Reads a range of lines.
pub fn parse_streaming_bat_range(s: &str) -> (r: Option<(Option<usize>, Option<usize>)>)
    ensures
        r == bat_range(s@),
{
    let chars = chars_of(s);
    match position_of(&chars, ':') {
        Some(k) => Some(read_number_pair(&chars, k, Ghost(':'))),
        None => match read_number(s) {
            Some(n) => Some((Some(n), Some(n))),
            None => None,
        },
    }
}

/// The stage after a flag letter.
pub open spec fn bat_letter(st: StreamingBatStage, c: char) -> Option<StreamingBatStage> {
    if c == 'n' {
        Some(StreamingBatStage { show_numbers: true, ..st })
    } else if c == 'p' {
        Some(StreamingBatStage { show_numbers: false, show_header: false, ..st })
    } else if c == 'A' {
        Some(StreamingBatStage { show_all: true, ..st })
    } else {
        None
    }
}

/// The stage after flag letters from the `k`-th on.
pub open spec fn bat_letters(st: StreamingBatStage, letters: Seq<char>, k: int) -> Option<
    StreamingBatStage,
>
    decreases letters.len() - k,
{
    if k < 0 || k >= letters.len() {
        Some(st)
    } else {
        match bat_letter(st, letters[k]) {
            Some(s) => bat_letters(s, letters, k + 1),
            None => None,
        }
    }
}

/// The stage after the arguments from the `i`-th on.
pub open spec fn bat_args(args: Seq<Seq<char>>, i: int, st: StreamingBatStage) -> Option<
    StreamingBatStage,
>
    decreases args.len() - i,
{
    if i < 0 || i >= args.len() {
        Some(st)
    } else {
        let arg = args[i];
        let more = i + 1 < args.len();
        if arg == "-n"@ || arg == "--number"@ {
            bat_args(args, i + 1, StreamingBatStage { show_numbers: true, ..st })
        } else if arg == "-p"@ || arg == "--plain"@ || arg == "--style=plain"@ {
            bat_args(
                args,
                i + 1,
                StreamingBatStage { show_numbers: false, show_header: false, ..st },
            )
        } else if arg == "-A"@ || arg == "--show-all"@ {
            bat_args(args, i + 1, StreamingBatStage { show_all: true, ..st })
        } else if (arg == "-r"@ || arg == "--line-range"@) && more {
            bat_args(
                args,
                i + 2,
                StreamingBatStage { line_range: bat_range(args[i + 1]), ..st },
            )
        } else if (arg == "-l"@ || arg == "--language"@ || arg == "--paging"@) && more {
            bat_args(args, i + 2, st)
        } else if arg == "--style=numbers"@ {
            bat_args(
                args,
                i + 1,
                StreamingBatStage { show_numbers: true, show_header: false, ..st },
            )
        } else if arg == "--style=header"@ {
            bat_args(
                args,
                i + 1,
                StreamingBatStage { show_numbers: false, show_header: true, ..st },
            )
        } else if starts_with(arg, "--style="@) {
            bat_args(
                args,
                i + 1,
                StreamingBatStage { show_numbers: true, show_header: true, ..st },
            )
        } else if starts_with(arg, "--line-range="@) {
            bat_args(
                args,
                i + 1,
                StreamingBatStage { line_range: bat_range(arg.skip(13)), ..st },
            )
        } else if starts_with(arg, "--paging="@) || starts_with(arg, "--language="@) {
            bat_args(args, i + 1, st)
        } else if is_flag_arg(arg) && !starts_with(arg, "--"@) {
            match bat_letters(st, arg.skip(1), 0) {
                Some(s) => bat_args(args, i + 1, s),
                None => None,
            }
        } else if arg == "--"@ {
            if more {
                None
            } else {
                Some(st)
            }
        } else {
            None
        }
    }
}

/// `bat` without arguments.
pub open spec fn bat_default() -> StreamingBatStage {
    StreamingBatStage { show_numbers: true, show_header: true, line_range: None, show_all: false }
}

fn apply_letters(stage: &mut StreamingBatStage, arg: &str) -> (r: bool)
    requires
        arg@.len() >= 1,
    ensures
        match bat_letters(*old(stage), arg@.skip(1), 0) {
            Some(s) => r && *final(stage) == s,
            None => !r,
        },
{
    let letters = letters_of(arg);
    let ghost start = *stage;
    let mut k: usize = 0;
    while k < letters.len()
        invariant
            k <= letters@.len(),
            letters@ == arg@.skip(1),
            start == *old(stage),
            bat_letters(start, letters@, 0) == bat_letters(*stage, letters@, k as int),
        decreases letters@.len() - k,
    {
        let c: char = letters[k];
        if c == 'n' {
            stage.show_numbers = true;
        } else if c == 'p' {
            stage.show_numbers = false;
            stage.show_header = false;
        } else if c == 'A' {
            stage.show_all = true;
        } else {
            return false;
        }
        k = k + 1;
    }
    true
}

/// Reads the arguments of `bat`.
pub fn parse_streaming_bat_stage(args: &[String]) -> (r: Option<StreamingBatStage>)
    ensures
        r == bat_args(strs(args@), 0, bat_default()),
{
    let ghost a = strs(args@);
    proof {
        reveal_strlit("--line-range=");
    }
    let mut stage = StreamingBatStage {
        show_numbers: true,
        show_header: true,
        line_range: None,
        show_all: false,
    };
    let mut i: usize = 0;
    while i < args.len()
        invariant
            i <= args@.len(),
            a == strs(args@),
            "--line-range="@.len() == 13,
            bat_args(a, 0, bat_default()) == bat_args(a, i as int, stage),
        decreases args@.len() - i,
    {
        let arg = arg_at(args, i);
        let more: bool = args.len() - i > 1;
        if str_eq(arg, "-n") || str_eq(arg, "--number") {
            stage.show_numbers = true;
            i = i + 1;
        } else if str_eq(arg, "-p") || str_eq(arg, "--plain") || str_eq(arg, "--style=plain") {
            stage.show_numbers = false;
            stage.show_header = false;
            i = i + 1;
        } else if str_eq(arg, "-A") || str_eq(arg, "--show-all") {
            stage.show_all = true;
            i = i + 1;
        } else if (str_eq(arg, "-r") || str_eq(arg, "--line-range")) && more {
            stage.line_range = parse_streaming_bat_range(arg_at(args, i + 1));
            i = i + 2;
        } else if (str_eq(arg, "-l") || str_eq(arg, "--language") || str_eq(arg, "--paging"))
            && more {
            i = i + 2;
        } else if str_eq(arg, "--style=numbers") {
            stage.show_numbers = true;
            stage.show_header = false;
            i = i + 1;
        } else if str_eq(arg, "--style=header") {
            stage.show_numbers = false;
            stage.show_header = true;
            i = i + 1;
        } else if str_starts_with(arg, "--style=") {
            stage.show_numbers = true;
            stage.show_header = true;
            i = i + 1;
        } else if str_starts_with(arg, "--line-range=") {
            stage.line_range = parse_streaming_bat_range(tail_of(arg, 13).as_str());
            i = i + 1;
        } else if str_starts_with(arg, "--paging=") || str_starts_with(arg, "--language=") {
            i = i + 1;
        } else if is_flag(arg) && !str_starts_with(arg, "--") {
            if !apply_letters(&mut stage, arg) {
                return None;
            }
            i = i + 1;
        } else if str_eq(arg, "--") {
            if more {
                return None;
            }
            i = i + 1;
        } else {
            return None;
        }
    }
    Some(stage)
}

} // verus!
