//! The arguments of `cut`.
use crate::stages::args::{
    arg_at, index_of_char, number_of, number_pair, read_number, read_number_pair, tail_of,
};
use crate::stream::cut::{StreamingCutMode, StreamingCutRange, StreamingCutStage};
use crate::stream::sed::position_of;
use crate::text::{chars_of, split_char, split_on, starts_with, str_eq, str_starts_with};
use crate::views::strs;
use vstd::prelude::*;

verus! {

/// The range that one part of a list writes: two numbers around a `-`, or one number.
pub open spec fn cut_range(part: Seq<char>) -> Option<StreamingCutRange> {
    if index_of_char(part, '-') < part.len() {
        let (start, end) = number_pair(part, '-');
        Some(StreamingCutRange { start, end })
    } else {
        match number_of(part) {
            Some(n) => Some(StreamingCutRange { start: Some(n), end: Some(n) }),
            None => None,
        }
    }
}

/// The ranges that parts write; one that writes none is passed over.
pub open spec fn cut_parts(parts: Seq<Seq<char>>) -> Seq<StreamingCutRange>
    decreases parts.len(),
{
    if parts.len() == 0 {
        Seq::empty()
    } else {
        let before = cut_parts(parts.drop_last());
        match cut_range(parts.last()) {
            Some(r) => before.push(r),
            None => before,
        }
    }
}

/// The ranges of a list, whose parts stand between commas.
pub open spec fn cut_list(spec_text: Seq<char>) -> Seq<StreamingCutRange> {
    cut_parts(split_on(spec_text, ','))
}

/// Reads a list of ranges.
pub fn parse_streaming_cut_ranges(list: &str) -> (r: Vec<StreamingCutRange>)
    ensures
        r@ == cut_list(list@),
{
    let parts = split_char(list, ',');
    let ghost all = strs(parts@);
    let mut ranges: Vec<StreamingCutRange> = Vec::new();
    let mut i: usize = 0;
    assert(all.take(0) =~= Seq::empty());
    while i < parts.len()
        invariant
            i <= parts@.len(),
            all == strs(parts@),
            ranges@ == cut_parts(all.take(i as int)),
        decreases parts@.len() - i,
    {
        assert(all.take(i + 1).drop_last() =~= all.take(i as int));
        assert(all[i as int] == parts@[i as int]@);
        let chars = chars_of(parts[i].as_str());
        match position_of(&chars, '-') {
            Some(k) => {
                let (start, end) = read_number_pair(&chars, k, Ghost('-'));
                ranges.push(StreamingCutRange { start, end });
            },
            None => {
                if let Some(n) = read_number(parts[i].as_str()) {
                    ranges.push(StreamingCutRange { start: Some(n), end: Some(n) });
                }
            },
        }
        i = i + 1;
    }
    assert(all.take(i as int) =~= all);
    ranges
}

/// What is counted, with its ranges.
pub enum CutMode {
    Fields(Seq<StreamingCutRange>),
    Chars(Seq<StreamingCutRange>),
    Bytes(Seq<StreamingCutRange>),
}

/// What the arguments of `cut` have said so far.
pub struct CutArgs {
    pub delim: char,
    pub mode: Option<CutMode>,
    pub complement: bool,
    pub only_delimited: bool,
    pub output_delim: Option<Seq<char>>,
}

/// The first character of a string, or a tab.
pub open spec fn first_or_tab(s: Seq<char>) -> char {
    if s.len() > 0 {
        s[0]
    } else {
        '\t'
    }
}

/// What one argument says, and the position of the next one.
pub open spec fn cut_step(args: Seq<Seq<char>>, i: int, st: CutArgs) -> Option<(CutArgs, int)> {
    let arg = args[i];
    let more = i + 1 < args.len();
    if arg == "-d"@ && more {
        Some((CutArgs { delim: first_or_tab(args[i + 1]), ..st }, i + 2))
    } else if starts_with(arg, "-d"@) && arg.len() > 2 {
        Some((CutArgs { delim: first_or_tab(arg.skip(2)), ..st }, i + 1))
    } else if arg == "-f"@ && more {
        Some((CutArgs { mode: Some(CutMode::Fields(cut_list(args[i + 1]))), ..st }, i + 2))
    } else if starts_with(arg, "-f"@) {
        Some((CutArgs { mode: Some(CutMode::Fields(cut_list(arg.skip(2)))), ..st }, i + 1))
    } else if arg == "-c"@ && more {
        Some((CutArgs { mode: Some(CutMode::Chars(cut_list(args[i + 1]))), ..st }, i + 2))
    } else if starts_with(arg, "-c"@) {
        Some((CutArgs { mode: Some(CutMode::Chars(cut_list(arg.skip(2)))), ..st }, i + 1))
    } else if arg == "-b"@ && more {
        Some((CutArgs { mode: Some(CutMode::Bytes(cut_list(args[i + 1]))), ..st }, i + 2))
    } else if starts_with(arg, "-b"@) {
        Some((CutArgs { mode: Some(CutMode::Bytes(cut_list(arg.skip(2)))), ..st }, i + 1))
    } else if arg == "--complement"@ {
        Some((CutArgs { complement: true, ..st }, i + 1))
    } else if arg == "-s"@ {
        Some((CutArgs { only_delimited: true, ..st }, i + 1))
    } else if starts_with(arg, "--output-delimiter="@) {
        Some((CutArgs { output_delim: Some(arg.skip(19)), ..st }, i + 1))
    } else if arg == "-z"@ || arg == "--"@ {
        Some((st, i + 1))
    } else {
        None
    }
}

/// What the arguments of `cut` from the `i`-th on say.
pub open spec fn cut_args(args: Seq<Seq<char>>, i: int, st: CutArgs) -> Option<CutArgs>
    decreases args.len() - i,
{
    if i < 0 || i >= args.len() {
        Some(st)
    } else {
        match cut_step(args, i, st) {
            Some((s, next)) => cut_args(args, next, s),
            None => None,
        }
    }
}

/// `cut` without arguments.
pub open spec fn cut_default() -> CutArgs {
    CutArgs {
        delim: '\t',
        mode: None,
        complement: false,
        only_delimited: false,
        output_delim: None,
    }
}

/// The model of a mode.
pub open spec fn mode_view(m: StreamingCutMode) -> CutMode {
    match m {
        StreamingCutMode::Fields(r) => CutMode::Fields(r@),
        StreamingCutMode::Chars(r) => CutMode::Chars(r@),
        StreamingCutMode::Bytes(r) => CutMode::Bytes(r@),
    }
}

/// Whether a stage is what the arguments ask for. Fields are joined by the delimiter they were
/// cut at unless another one is given.
pub open spec fn cut_answers(st: CutArgs, s: StreamingCutStage) -> bool {
    &&& st.mode == Some(mode_view(s.mode))
    &&& s.delim == st.delim
    &&& s.complement == st.complement
    &&& s.only_delimited == st.only_delimited
    &&& s.output_delim@ == match st.output_delim {
        Some(d) => d,
        None => seq![st.delim],
    }
}

struct CutReader {
    delim: char,
    mode: Option<StreamingCutMode>,
    complement: bool,
    only_delimited: bool,
    output_delim: Option<String>,
}

fn first_char_or_tab(s: &str) -> (r: char)
    ensures
        r == first_or_tab(s@),
{
    if s.unicode_len() > 0 {
        s.get_char(0)
    } else {
        '\t'
    }
}

impl CutReader {
    spec fn view(&self) -> CutArgs {
        CutArgs {
            delim: self.delim,
            mode: match self.mode {
                Some(m) => Some(mode_view(m)),
                None => None,
            },
            complement: self.complement,
            only_delimited: self.only_delimited,
            output_delim: match self.output_delim {
                Some(d) => Some(d@),
                None => None,
            },
        }
    }

    #[verifier::rlimit(30)]
    fn step(&mut self, args: &[String], i: usize) -> (r: Option<usize>)
        requires
            i < args@.len(),
        ensures
            match r {
                Some(next) => cut_step(strs(args@), i as int, old(self).view()) == Some(
                    (final(self).view(), next as int),
                ) && i < next <= args@.len(),
                None => cut_step(strs(args@), i as int, old(self).view()) is None,
            },
    {
        proof {
            reveal_strlit("-d");
            reveal_strlit("-f");
            reveal_strlit("-c");
            reveal_strlit("-b");
            reveal_strlit("--output-delimiter=");
        }
        let arg = arg_at(args, i);
        let more: bool = args.len() - i > 1;
        if str_eq(arg, "-d") && more {
            self.delim = first_char_or_tab(arg_at(args, i + 1));
            Some(i + 2)
        } else if str_starts_with(arg, "-d") && arg.unicode_len() > 2 {
            self.delim = first_char_or_tab(tail_of(arg, 2).as_str());
            Some(i + 1)
        } else if str_eq(arg, "-f") && more {
            let ranges = parse_streaming_cut_ranges(arg_at(args, i + 1));
            self.mode = Some(StreamingCutMode::Fields(ranges));
            Some(i + 2)
        } else if str_starts_with(arg, "-f") {
            let ranges = parse_streaming_cut_ranges(tail_of(arg, 2).as_str());
            self.mode = Some(StreamingCutMode::Fields(ranges));
            Some(i + 1)
        } else if str_eq(arg, "-c") && more {
            let ranges = parse_streaming_cut_ranges(arg_at(args, i + 1));
            self.mode = Some(StreamingCutMode::Chars(ranges));
            Some(i + 2)
        } else if str_starts_with(arg, "-c") {
            let ranges = parse_streaming_cut_ranges(tail_of(arg, 2).as_str());
            self.mode = Some(StreamingCutMode::Chars(ranges));
            Some(i + 1)
        } else if str_eq(arg, "-b") && more {
            let ranges = parse_streaming_cut_ranges(arg_at(args, i + 1));
            self.mode = Some(StreamingCutMode::Bytes(ranges));
            Some(i + 2)
        } else if str_starts_with(arg, "-b") {
            let ranges = parse_streaming_cut_ranges(tail_of(arg, 2).as_str());
            self.mode = Some(StreamingCutMode::Bytes(ranges));
            Some(i + 1)
        } else if str_eq(arg, "--complement") {
            self.complement = true;
            Some(i + 1)
        } else if str_eq(arg, "-s") {
            self.only_delimited = true;
            Some(i + 1)
        } else if str_starts_with(arg, "--output-delimiter=") {
            self.output_delim = Some(tail_of(arg, 19));
            Some(i + 1)
        } else if str_eq(arg, "-z") || str_eq(arg, "--") {
            Some(i + 1)
        } else {
            None
        }
    }
}

/// Reads the arguments of `cut`. Without a list of what to cut it is no stage.
pub fn parse_streaming_cut_stage(args: &[String]) -> (r: Option<StreamingCutStage>)
    ensures
        match cut_args(strs(args@), 0, cut_default()) {
            Some(st) => match r {
                Some(s) => cut_answers(st, s),
                None => st.mode is None,
            },
            None => r is None,
        },
{
    let ghost a = strs(args@);
    let mut st = CutReader {
        delim: '\t',
        mode: None,
        complement: false,
        only_delimited: false,
        output_delim: None,
    };
    let mut i: usize = 0;
    while i < args.len()
        invariant
            i <= args@.len(),
            a == strs(args@),
            cut_args(a, 0, cut_default()) == cut_args(a, i as int, st.view()),
        decreases args@.len() - i,
    {
        match st.step(args, i) {
            Some(next) => {
                i = next;
            },
            None => {
                return None;
            },
        }
    }
    let ghost end = st.view();
    match st.mode {
        None => None,
        Some(mode) => {
            let output_delim = match st.output_delim {
                Some(d) => d,
                None => {
                    let mut d = String::new();
                    d.push(st.delim);
                    assert(d@ =~= seq![st.delim]);
                    d
                },
            };
            Some(
                StreamingCutStage {
                    mode,
                    delim: st.delim,
                    complement: st.complement,
                    only_delimited: st.only_delimited,
                    output_delim,
                },
            )
        },
    }
}

} // verus!
