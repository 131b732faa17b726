//! The arguments of `grep`.
use crate::stages::args::{arg_at, is_flag, is_flag_arg, letters_of, number_of, push_rest, read_number};
use crate::stream::grep::{StreamingGrepFlags, StreamingGrepStage};
use crate::text::{starts_with, str_eq, str_starts_with};
use crate::views::{lemma_strs_push, strs};
use vstd::prelude::*;

verus! {

/// What the arguments of `grep` have said so far.
pub struct GrepArgs {
    pub flags: StreamingGrepFlags,
    pub patterns: Seq<Seq<char>>,
    pub rest: Seq<Seq<char>>,
}

/// `grep` without flags.
pub open spec fn grep_default() -> StreamingGrepFlags {
    StreamingGrepFlags {
        ignore_case: false,
        invert: false,
        count_only: false,
        show_line_numbers: false,
        files_only: false,
        word_match: false,
        only_matching: false,
        quiet: false,
        extended: false,
        fixed: false,
        after_context: 0,
        before_context: 0,
        max_count: None,
        show_filename: None,
    }
}

/// The flags after a flag letter.
pub open spec fn grep_letter(f: StreamingGrepFlags, c: char) -> Option<StreamingGrepFlags> {
    if c == 'i' {
        Some(StreamingGrepFlags { ignore_case: true, ..f })
    } else if c == 'v' {
        Some(StreamingGrepFlags { invert: true, ..f })
    } else if c == 'c' {
        Some(StreamingGrepFlags { count_only: true, ..f })
    } else if c == 'n' {
        Some(StreamingGrepFlags { show_line_numbers: true, ..f })
    } else if c == 'l' {
        Some(StreamingGrepFlags { files_only: true, ..f })
    } else if c == 'E' || c == 'P' {
        Some(StreamingGrepFlags { extended: true, ..f })
    } else if c == 'F' {
        Some(StreamingGrepFlags { fixed: true, ..f })
    } else if c == 'w' {
        Some(StreamingGrepFlags { word_match: true, ..f })
    } else if c == 'o' {
        Some(StreamingGrepFlags { only_matching: true, ..f })
    } else if c == 'q' {
        Some(StreamingGrepFlags { quiet: true, ..f })
    } else if c == 'h' {
        Some(StreamingGrepFlags { show_filename: Some(false), ..f })
    } else if c == 'H' {
        Some(StreamingGrepFlags { show_filename: Some(true), ..f })
    } else if c == 'z' {
        Some(f)
    } else {
        None
    }
}

/// The flags after flag letters from the `k`-th on.
pub open spec fn grep_letters(f: StreamingGrepFlags, letters: Seq<char>, k: int) -> Option<
    StreamingGrepFlags,
>
    decreases letters.len() - k,
{
    if k < 0 || k >= letters.len() {
        Some(f)
    } else {
        match grep_letter(f, letters[k]) {
            Some(g) => grep_letters(g, letters, k + 1),
            None => None,
        }
    }
}

/// Whether an argument asks for what streaming does not offer.
pub open spec fn grep_refuses(arg: Seq<char>) -> bool {
    starts_with(arg, "--include="@) || starts_with(arg, "--exclude="@) || arg == "--color"@
        || starts_with(arg, "--color="@) || arg == "-r"@ || arg == "-R"@ || arg == "--recursive"@
}

/// The flags after an option with a number.
pub open spec fn grep_number_option(
    f: StreamingGrepFlags,
    arg: Seq<char>,
    value: Option<usize>,
) -> Option<StreamingGrepFlags> {
    if arg == "-m"@ {
        Some(StreamingGrepFlags { max_count: value, ..f })
    } else {
        match value {
            None => None,
            Some(n) => if arg == "-A"@ {
                Some(StreamingGrepFlags { after_context: n, ..f })
            } else if arg == "-B"@ {
                Some(StreamingGrepFlags { before_context: n, ..f })
            } else {
                Some(StreamingGrepFlags { before_context: n, after_context: n, ..f })
            },
        }
    }
}

/// What one argument says, and the position of the next one.
pub open spec fn grep_step(args: Seq<Seq<char>>, i: int, st: GrepArgs) -> Option<(GrepArgs, int)> {
    let arg = args[i];
    let more = i + 1 < args.len();
    if arg == "--"@ {
        Some((GrepArgs { rest: st.rest + args.skip(i + 1), ..st }, args.len() as int))
    } else if grep_refuses(arg) || (arg == "-f"@ && more) {
        None
    } else if arg == "-e"@ && more {
        Some((GrepArgs { patterns: st.patterns.push(args[i + 1]), ..st }, i + 2))
    } else if (arg == "-A"@ || arg == "-B"@ || arg == "-C"@ || arg == "-m"@) && more {
        match grep_number_option(st.flags, arg, number_of(args[i + 1])) {
            Some(f) => Some((GrepArgs { flags: f, ..st }, i + 2)),
            None => None,
        }
    } else if is_flag_arg(arg) {
        match grep_letters(st.flags, arg.skip(1), 0) {
            Some(f) => Some((GrepArgs { flags: f, ..st }, i + 1)),
            None => None,
        }
    } else {
        Some((GrepArgs { rest: st.rest.push(arg), ..st }, i + 1))
    }
}

/// What the arguments from the `i`-th on say.
pub open spec fn grep_args(args: Seq<Seq<char>>, i: int, st: GrepArgs) -> Option<GrepArgs>
    decreases args.len() - i,
{
    if i < 0 || i >= args.len() {
        Some(st)
    } else {
        match grep_step(args, i, st) {
            Some((s, next)) => grep_args(args, next, s),
            None => None,
        }
    }
}

/// The flags and patterns that the arguments of `grep` give. Without `-e` the first other
/// argument is the pattern; one that names a file is no stage.
pub open spec fn grep_stage(args: Seq<Seq<char>>) -> Option<
    (StreamingGrepFlags, Seq<Seq<char>>),
> {
    let start = GrepArgs { flags: grep_default(), patterns: Seq::empty(), rest: Seq::empty() };
    match grep_args(args, 0, start) {
        None => None,
        Some(st) => if st.patterns.len() == 0 {
            if st.rest.len() == 1 {
                Some((st.flags, seq![st.rest[0]]))
            } else {
                None
            }
        } else if st.rest.len() == 0 {
            Some((st.flags, st.patterns))
        } else {
            None
        },
    }
}

fn apply_letter(flags: &mut StreamingGrepFlags, c: char) -> (r: bool)
    ensures
        match grep_letter(*old(flags), c) {
            Some(f) => r && *final(flags) == f,
            None => !r,
        },
{
    if c == 'i' {
        flags.ignore_case = true;
    } else if c == 'v' {
        flags.invert = true;
    } else if c == 'c' {
        flags.count_only = true;
    } else if c == 'n' {
        flags.show_line_numbers = true;
    } else if c == 'l' {
        flags.files_only = true;
    } else if c == 'E' || c == 'P' {
        flags.extended = true;
    } else if c == 'F' {
        flags.fixed = true;
    } else if c == 'w' {
        flags.word_match = true;
    } else if c == 'o' {
        flags.only_matching = true;
    } else if c == 'q' {
        flags.quiet = true;
    } else if c == 'h' {
        flags.show_filename = Some(false);
    } else if c == 'H' {
        flags.show_filename = Some(true);
    } else if c != 'z' {
        return false;
    }
    true
}

fn apply_letters(flags: &mut StreamingGrepFlags, arg: &str) -> (r: bool)
    requires
        arg@.len() >= 1,
    ensures
        match grep_letters(*old(flags), arg@.skip(1), 0) {
            Some(f) => r && *final(flags) == f,
            None => !r,
        },
{
    let letters = letters_of(arg);
    let ghost start = *flags;
    let mut k: usize = 0;
    while k < letters.len()
        invariant
            k <= letters@.len(),
            letters@ == arg@.skip(1),
            start == *old(flags),
            grep_letters(start, letters@, 0) == grep_letters(*flags, letters@, k as int),
        decreases letters@.len() - k,
    {
        if !apply_letter(flags, letters[k]) {
            return false;
        }
        k = k + 1;
    }
    true
}

fn refuses(arg: &str) -> (r: bool)
    ensures
        r == grep_refuses(arg@),
{
    str_starts_with(arg, "--include=") || str_starts_with(arg, "--exclude=") || str_eq(
        arg,
        "--color",
    ) || str_starts_with(arg, "--color=") || str_eq(arg, "-r") || str_eq(arg, "-R") || str_eq(
        arg,
        "--recursive",
    )
}

fn apply_number(flags: &mut StreamingGrepFlags, arg: &str, value: Option<usize>) -> (r: bool)
    ensures
        match grep_number_option(*old(flags), arg@, value) {
            Some(f) => r && *final(flags) == f,
            None => !r,
        },
{
    if str_eq(arg, "-m") {
        flags.max_count = value;
        return true;
    }
    match value {
        None => false,
        Some(n) => {
            if str_eq(arg, "-A") {
                flags.after_context = n;
            } else if str_eq(arg, "-B") {
                flags.before_context = n;
            } else {
                flags.before_context = n;
                flags.after_context = n;
            }
            true
        },
    }
}

/// What the arguments have said so far.
struct GrepReader {
    flags: StreamingGrepFlags,
    patterns: Vec<String>,
    rest: Vec<String>,
}

impl GrepReader {
    spec fn view(&self) -> GrepArgs {
        GrepArgs {
            flags: self.flags,
            patterns: strs(self.patterns@),
            rest: strs(self.rest@),
        }
    }

    fn step(&mut self, args: &[String], i: usize) -> (r: Option<usize>)
        requires
            i < args@.len(),
        ensures
            match r {
                Some(next) => grep_step(strs(args@), i as int, old(self).view()) == Some(
                    (final(self).view(), next as int),
                ) && i < next <= args@.len(),
                None => grep_step(strs(args@), i as int, old(self).view()) is None,
            },
    {
        let arg = arg_at(args, i);
        let more: bool = args.len() - i > 1;
        if str_eq(arg, "--") {
            push_rest(&mut self.rest, args, i + 1);
            Some(args.len())
        } else if refuses(arg) || (str_eq(arg, "-f") && more) {
            None
        } else if str_eq(arg, "-e") && more {
            let item = arg_at(args, i + 1).to_owned();
            self.patterns.push(item);
            proof {
                lemma_strs_push(old(self).patterns@, item);
            }
            Some(i + 2)
        } else if (str_eq(arg, "-A") || str_eq(arg, "-B") || str_eq(arg, "-C") || str_eq(arg, "-m"))
            && more {
            let value = read_number(arg_at(args, i + 1));
            if apply_number(&mut self.flags, arg, value) {
                Some(i + 2)
            } else {
                None
            }
        } else if is_flag(arg) {
            if apply_letters(&mut self.flags, arg) {
                Some(i + 1)
            } else {
                None
            }
        } else {
            let item = arg.to_owned();
            self.rest.push(item);
            proof {
                lemma_strs_push(old(self).rest@, item);
            }
            Some(i + 1)
        }
    }
}

/// Reads the arguments of `grep`.
pub fn parse_streaming_grep_stage(args: &[String]) -> (r: Option<StreamingGrepStage>)
    ensures
        match r {
            Some(s) => grep_stage(strs(args@)) == Some((s.flags, strs(s.patterns@))),
            None => grep_stage(strs(args@)) is None,
        },
{
    let ghost a = strs(args@);
    let mut st = GrepReader {
        flags: StreamingGrepFlags {
            ignore_case: false,
            invert: false,
            count_only: false,
            show_line_numbers: false,
            files_only: false,
            word_match: false,
            only_matching: false,
            quiet: false,
            extended: false,
            fixed: false,
            after_context: 0,
            before_context: 0,
            max_count: None,
            show_filename: None,
        },
        patterns: Vec::new(),
        rest: Vec::new(),
    };
    let mut i: usize = 0;
    let ghost start = GrepArgs {
        flags: grep_default(),
        patterns: Seq::empty(),
        rest: Seq::empty(),
    };
    assert(strs(st.patterns@) =~= Seq::empty());
    assert(strs(st.rest@) =~= Seq::empty());
    while i < args.len()
        invariant
            i <= args@.len(),
            a == strs(args@),
            start == (GrepArgs {
                flags: grep_default(),
                patterns: Seq::empty(),
                rest: Seq::empty(),
            }),
            grep_args(a, 0, start) == grep_args(a, i as int, st.view()),
        decreases args@.len() - i,
    {
        match st.step(args, i) {
            Some(next) => {
                i = next;
            },
            None => {
                return None;
            },
        }
    }
    if st.patterns.len() == 0 {
        if st.rest.len() == 1 {
            assert(strs(st.rest@) =~= seq![strs(st.rest@)[0]]);
            Some(StreamingGrepStage { flags: st.flags, patterns: st.rest })
        } else {
            None
        }
    } else if st.rest.len() == 0 {
        Some(StreamingGrepStage { flags: st.flags, patterns: st.patterns })
    } else {
        None
    }
}

} // verus!
