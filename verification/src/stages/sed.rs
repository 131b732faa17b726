//! The arguments of `sed`.
use crate::stages::args::{arg_at, is_flag, is_flag_arg};
use crate::stream::sed::StreamingSedStage;
use crate::stream::sed_parse::{
    instructions_view, parse_streaming_sed_script, script_fits, sed_script, sed_script_fits,
    SedInstruction,
};
use crate::text::{join, joined, starts_with, str_eq, str_starts_with};
use crate::views::{lemma_strs_push, strs};
use vstd::prelude::*;

verus! {

/// Whether lines are printed only on demand, and the expressions, as the arguments say so far.
pub struct SedArgs {
    pub suppress: bool,
    pub expressions: Seq<Seq<char>>,
}

/// What one argument says, and the position of the next one.
pub open spec fn sed_step(args: Seq<Seq<char>>, i: int, st: SedArgs) -> Option<(SedArgs, int)> {
    let arg = args[i];
    let more = i + 1 < args.len();
    if arg == "-n"@ {
        Some((SedArgs { suppress: true, ..st }, i + 1))
    } else if arg == "-e"@ && more {
        Some((SedArgs { expressions: st.expressions.push(args[i + 1]), ..st }, i + 2))
    } else if arg == "-E"@ || arg == "-r"@ {
        Some((st, i + 1))
    } else if starts_with(arg, "-i"@) || (is_flag_arg(arg) && arg != "--"@) {
        None
    } else if arg == "--"@ {
        if !more {
            Some((st, args.len() as int))
        } else if st.expressions.len() == 0 {
            Some((SedArgs { expressions: st.expressions.push(args[i + 1]), ..st }, i + 2))
        } else {
            None
        }
    } else if st.expressions.len() == 0 {
        Some((SedArgs { expressions: st.expressions.push(arg), ..st }, i + 1))
    } else {
        None
    }
}

/// What the arguments from the `i`-th on say.
pub open spec fn sed_args(args: Seq<Seq<char>>, i: int, st: SedArgs) -> Option<SedArgs>
    decreases args.len() - i,
{
    if i < 0 || i >= args.len() {
        Some(st)
    } else {
        match sed_step(args, i, st) {
            Some((s, next)) => sed_args(args, next, s),
            None => None,
        }
    }
}

/// The script that the arguments give, and whether lines are printed only on demand.
pub open spec fn sed_args_script(args: Seq<Seq<char>>) -> Option<(bool, Seq<char>)> {
    match sed_args(args, 0, SedArgs { suppress: false, expressions: Seq::empty() }) {
        Some(st) => if st.expressions.len() == 0 {
            None
        } else {
            Some((st.suppress, joined(st.expressions, ";"@)))
        },
        None => None,
    }
}

/// What the arguments of `sed` ask for. One that names a file or has no instruction is no
/// stage.
pub open spec fn sed_stage(args: Seq<Seq<char>>) -> Option<(bool, Seq<SedInstruction>)> {
    match sed_args_script(args) {
        Some((suppress, script)) => if sed_script(script).len() == 0 {
            None
        } else {
            Some((suppress, sed_script(script)))
        },
        None => None,
    }
}

/// Whether the script that the arguments give, if any, can be read.
pub open spec fn sed_args_fit(args: Seq<Seq<char>>) -> bool {
    sed_args_script(args) matches Some((_, script)) ==> script_fits(script)
}

struct SedReader {
    suppress: bool,
    expressions: Vec<String>,
}

impl SedReader {
    spec fn view(&self) -> SedArgs {
        SedArgs { suppress: self.suppress, expressions: strs(self.expressions@) }
    }

    fn add(&mut self, arg: &str)
        ensures
            final(self).view() == (SedArgs {
                expressions: old(self).view().expressions.push(arg@),
                ..old(self).view()
            }),
    {
        let item = arg.to_owned();
        self.expressions.push(item);
        proof {
            lemma_strs_push(old(self).expressions@, item);
        }
    }

    fn step(&mut self, args: &[String], i: usize) -> (r: Option<usize>)
        requires
            i < args@.len(),
        ensures
            match r {
                Some(next) => sed_step(strs(args@), i as int, old(self).view()) == Some(
                    (final(self).view(), next as int),
                ) && i < next <= args@.len(),
                None => sed_step(strs(args@), i as int, old(self).view()) is None,
            },
    {
        let arg = arg_at(args, i);
        let more: bool = args.len() - i > 1;
        if str_eq(arg, "-n") {
            self.suppress = true;
            Some(i + 1)
        } else if str_eq(arg, "-e") && more {
            self.add(arg_at(args, i + 1));
            Some(i + 2)
        } else if str_eq(arg, "-E") || str_eq(arg, "-r") {
            Some(i + 1)
        } else if str_starts_with(arg, "-i") || (is_flag(arg) && !str_eq(arg, "--")) {
            None
        } else if str_eq(arg, "--") {
            if !more {
                Some(args.len())
            } else if self.expressions.len() == 0 {
                self.add(arg_at(args, i + 1));
                Some(i + 2)
            } else {
                None
            }
        } else if self.expressions.len() == 0 {
            self.add(arg);
            Some(i + 1)
        } else {
            None
        }
    }
}

/// The script that the arguments of `sed` give, and whether lines are printed only on demand.
pub fn streaming_sed_script(args: &[String]) -> (r: Option<(bool, String)>)
    ensures
        match r {
            Some((suppress, script)) => sed_args_script(strs(args@)) == Some((suppress, script@)),
            None => sed_args_script(strs(args@)) is None,
        },
{
    let ghost a = strs(args@);
    let ghost start = SedArgs { suppress: false, expressions: Seq::empty() };
    let mut st = SedReader { suppress: false, expressions: Vec::new() };
    let mut i: usize = 0;
    assert(strs(st.expressions@) =~= Seq::empty());
    while i < args.len()
        invariant
            i <= args@.len(),
            a == strs(args@),
            start == (SedArgs { suppress: false, expressions: Seq::empty() }),
            sed_args(a, 0, start) == sed_args(a, i as int, st.view()),
        decreases args@.len() - i,
    {
        match st.step(args, i) {
            Some(next) => {
                i = next;
            },
            None => {
                return None;
            },
        }
    }
    if st.expressions.len() == 0 {
        None
    } else {
        Some((st.suppress, join(&st.expressions, ";")))
    }
}

/// Whether the script that the arguments of `sed` give, if any, can be read.
pub fn sed_args_readable(args: &[String]) -> (r: bool)
    ensures
        r == sed_args_fit(strs(args@)),
{
    match streaming_sed_script(args) {
        Some((_, script)) => sed_script_fits(script.as_str()),
        None => true,
    }
}

/// Reads the arguments of `sed`.
pub fn parse_streaming_sed_stage(args: &[String]) -> (r: Option<StreamingSedStage>)
    requires
        sed_args_fit(strs(args@)),
    ensures
        match r {
            Some(s) => sed_stage(strs(args@)) == Some(
                (s.suppress_print, instructions_view(s.instructions@)),
            ),
            None => sed_stage(strs(args@)) is None,
        },
{
    match streaming_sed_script(args) {
        Some((suppress_print, script)) => {
            let instructions = parse_streaming_sed_script(script.as_str());
            if instructions.len() == 0 {
                None
            } else {
                Some(StreamingSedStage { suppress_print, instructions })
            }
        },
        None => None,
    }
}

} // verus!
