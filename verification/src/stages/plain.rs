//! The arguments of `paste`, `tee`, `column`, `rev` and `wc`.
use crate::stages::args::{arg_at, is_flag, is_flag_arg, letters_of, push_rest};
use crate::stream::simple::StreamingPasteStage;
use crate::stream::wc::StreamingWcFlags;
use crate::text::str_eq;
use crate::views::{lemma_strs_push, strs};
use vstd::prelude::*;

verus! {

/// What the arguments of `paste` have said so far.
pub struct PasteArgs {
    pub delimiter: Seq<char>,
    pub serial: bool,
}

/// What flag letters from the `k`-th on say, and the position of the last argument used: each
/// `d` takes one more argument.
pub open spec fn paste_letters(
    args: Seq<Seq<char>>,
    i: int,
    letters: Seq<char>,
    k: int,
    st: PasteArgs,
) -> Option<(PasteArgs, int)>
    decreases letters.len() - k,
{
    if k < 0 || k >= letters.len() {
        Some((st, i))
    } else if letters[k] == 's' {
        paste_letters(args, i, letters, k + 1, PasteArgs { serial: true, ..st })
    } else if letters[k] == 'd' && i + 1 < args.len() {
        paste_letters(args, i + 1, letters, k + 1, PasteArgs { delimiter: args[i + 1], ..st })
    } else {
        None
    }
}

/// What one argument says, and the position of the next one.
pub open spec fn paste_step(args: Seq<Seq<char>>, i: int, st: PasteArgs) -> Option<
    (PasteArgs, int),
> {
    let arg = args[i];
    let more = i + 1 < args.len();
    if arg == "-d"@ && more {
        Some((PasteArgs { delimiter: args[i + 1], ..st }, i + 2))
    } else if arg == "-s"@ {
        Some((PasteArgs { serial: true, ..st }, i + 1))
    } else if is_flag_arg(arg) {
        match paste_letters(args, i, arg.skip(1), 0, st) {
            Some((s, e)) => Some((s, e + 1)),
            None => None,
        }
    } else {
        None
    }
}

/// What the arguments of `paste` from the `i`-th on say.
pub open spec fn paste_args(args: Seq<Seq<char>>, i: int, st: PasteArgs) -> Option<PasteArgs>
    decreases args.len() - i,
{
    if i < 0 || i >= args.len() {
        Some(st)
    } else {
        match paste_step(args, i, st) {
            Some((s, next)) => if i < next <= args.len() {
                paste_args(args, next, s)
            } else {
                None
            },
            None => None,
        }
    }
}

/// `paste` without arguments: a tab between lines, which are not joined.
pub open spec fn paste_default() -> PasteArgs {
    PasteArgs { delimiter: seq!['\t'], serial: false }
}

fn paste_apply_letters(st: &mut StreamingPasteStage, args: &[String], at: usize, arg: &str) -> (r:
    Option<usize>)
    requires
        at < args@.len(),
        arg@.len() >= 1,
    ensures
        match paste_letters(
            strs(args@),
            at as int,
            arg@.skip(1),
            0,
            PasteArgs { delimiter: old(st).delimiter@, serial: old(st).serial },
        ) {
            Some((s, e)) => r == Some(e as usize) && s == (PasteArgs {
                delimiter: final(st).delimiter@,
                serial: final(st).serial,
            }) && at <= e < args@.len(),
            None => r is None,
        },
{
    let letters = letters_of(arg);
    let ghost start = PasteArgs { delimiter: st.delimiter@, serial: st.serial };
    let mut i: usize = at;
    let mut k: usize = 0;
    while k < letters.len()
        invariant
            k <= letters@.len(),
            at <= i < args@.len(),
            letters@ == arg@.skip(1),
            start == (PasteArgs { delimiter: old(st).delimiter@, serial: old(st).serial }),
            paste_letters(strs(args@), at as int, letters@, 0, start) == paste_letters(
                strs(args@),
                i as int,
                letters@,
                k as int,
                PasteArgs { delimiter: st.delimiter@, serial: st.serial },
            ),
        decreases letters@.len() - k,
    {
        let c: char = letters[k];
        if c == 's' {
            st.serial = true;
        } else if c == 'd' && args.len() - i > 1 {
            st.delimiter = arg_at(args, i + 1).to_owned();
            i = i + 1;
        } else {
            return None;
        }
        k = k + 1;
    }
    Some(i)
}

/// Reads the arguments of `paste`.
pub fn parse_streaming_paste_stage(args: &[String]) -> (r: Option<StreamingPasteStage>)
    ensures
        match r {
            Some(s) => paste_args(strs(args@), 0, paste_default()) == Some(
                PasteArgs { delimiter: s.delimiter@, serial: s.serial },
            ),
            None => paste_args(strs(args@), 0, paste_default()) is None,
        },
{
    let ghost a = strs(args@);
    let mut delimiter = String::new();
    delimiter.push('\t');
    assert(delimiter@ =~= seq!['\t']);
    let mut st = StreamingPasteStage { delimiter, serial: false };
    let mut i: usize = 0;
    while i < args.len()
        invariant
            i <= args@.len(),
            a == strs(args@),
            paste_args(a, 0, paste_default()) == paste_args(
                a,
                i as int,
                PasteArgs { delimiter: st.delimiter@, serial: st.serial },
            ),
        decreases args@.len() - i,
    {
        let arg = arg_at(args, i);
        let more: bool = args.len() - i > 1;
        if str_eq(arg, "-d") && more {
            st.delimiter = arg_at(args, i + 1).to_owned();
            i = i + 2;
        } else if str_eq(arg, "-s") {
            st.serial = true;
            i = i + 1;
        } else if is_flag(arg) {
            match paste_apply_letters(&mut st, args, i, arg) {
                Some(e) => {
                    i = e + 1;
                },
                None => {
                    return None;
                },
            }
        } else {
            return None;
        }
    }
    Some(st)
}

/// The files that `tee` writes to, and whether it appends to them.
#[derive(Debug)]
pub struct StreamingTeeStage {
    pub append: bool,
    pub paths: Vec<String>,
}

/// What the arguments of `tee` have said so far.
pub struct TeeArgs {
    pub append: bool,
    pub paths: Seq<Seq<char>>,
}

/// Whether flag letters ask `tee` to append; nothing where a letter is unknown.
pub open spec fn tee_letters(append: bool, letters: Seq<char>, k: int) -> Option<bool>
    decreases letters.len() - k,
{
    if k < 0 || k >= letters.len() {
        Some(append)
    } else if letters[k] == 'a' {
        tee_letters(true, letters, k + 1)
    } else if letters[k] == 'i' {
        tee_letters(append, letters, k + 1)
    } else {
        None
    }
}

/// What the arguments of `tee` from the `i`-th on say.
pub open spec fn tee_args(args: Seq<Seq<char>>, i: int, st: TeeArgs) -> Option<TeeArgs>
    decreases args.len() - i,
{
    if i < 0 || i >= args.len() {
        Some(st)
    } else if args[i] == "--"@ {
        Some(TeeArgs { paths: st.paths + args.skip(i + 1), ..st })
    } else if is_flag_arg(args[i]) {
        match tee_letters(st.append, args[i].skip(1), 0) {
            Some(append) => tee_args(args, i + 1, TeeArgs { append, ..st }),
            None => None,
        }
    } else {
        tee_args(args, i + 1, TeeArgs { paths: st.paths.push(args[i]), ..st })
    }
}

fn tee_apply_letters(append: bool, arg: &str) -> (r: Option<bool>)
    requires
        arg@.len() >= 1,
    ensures
        r == tee_letters(append, arg@.skip(1), 0),
{
    let letters = letters_of(arg);
    let mut on: bool = append;
    let mut k: usize = 0;
    while k < letters.len()
        invariant
            k <= letters@.len(),
            letters@ == arg@.skip(1),
            tee_letters(append, letters@, 0) == tee_letters(on, letters@, k as int),
        decreases letters@.len() - k,
    {
        let c: char = letters[k];
        if c == 'a' {
            on = true;
        } else if c != 'i' {
            return None;
        }
        k = k + 1;
    }
    Some(on)
}

/// Reads the arguments of `tee`.
pub fn parse_streaming_tee_stage(args: &[String]) -> (r: Option<StreamingTeeStage>)
    ensures
        match r {
            Some(s) => tee_args(
                strs(args@),
                0,
                TeeArgs { append: false, paths: Seq::empty() },
            ) == Some(TeeArgs { append: s.append, paths: strs(s.paths@) }),
            None => tee_args(
                strs(args@),
                0,
                TeeArgs { append: false, paths: Seq::empty() },
            ) is None,
        },
{
    let ghost a = strs(args@);
    let ghost start = TeeArgs { append: false, paths: Seq::empty() };
    let mut append: bool = false;
    let mut paths: Vec<String> = Vec::new();
    let mut i: usize = 0;
    assert(strs(paths@) =~= Seq::empty());
    while i < args.len()
        invariant
            i <= args@.len(),
            a == strs(args@),
            start == (TeeArgs { append: false, paths: Seq::empty() }),
            tee_args(a, 0, start) == tee_args(
                a,
                i as int,
                TeeArgs { append, paths: strs(paths@) },
            ),
        decreases args@.len() - i,
    {
        let arg = arg_at(args, i);
        if str_eq(arg, "--") {
            push_rest(&mut paths, args, i + 1);
            return Some(StreamingTeeStage { append, paths });
        } else if is_flag(arg) {
            match tee_apply_letters(append, arg) {
                Some(on) => {
                    append = on;
                },
                None => {
                    return None;
                },
            }
            i = i + 1;
        } else {
            let ghost before = paths@;
            let item = arg.to_owned();
            paths.push(item);
            proof {
                lemma_strs_push(before, item);
            }
            i = i + 1;
        }
    }
    Some(StreamingTeeStage { append, paths })
}

/// Whether the arguments of `column` from the `i`-th on leave it a stage: flags other than
/// those for tables, and nothing else.
pub open spec fn column_args(args: Seq<Seq<char>>, i: int) -> bool
    decreases args.len() - i,
{
    i < 0 || i >= args.len() || (args[i] != "-t"@ && !(args[i] == "-s"@ && i + 1 < args.len())
        && is_flag_arg(args[i]) && column_args(args, i + 1))
}

/// Whether the arguments of `column` leave it a stage.
pub fn parse_streaming_column_stage(args: &[String]) -> (r: bool)
    ensures
        r == column_args(strs(args@), 0),
{
    let ghost a = strs(args@);
    let mut i: usize = 0;
    while i < args.len()
        invariant
            i <= args@.len(),
            a == strs(args@),
            column_args(a, 0) == column_args(a, i as int),
        decreases args@.len() - i,
    {
        let arg = arg_at(args, i);
        if str_eq(arg, "-t") || (str_eq(arg, "-s") && args.len() - i > 1) || !is_flag(arg) {
            return false;
        }
        i = i + 1;
    }
    true
}

/// Whether the arguments of `rev` leave it a stage: nothing but `--`.
pub fn parse_streaming_rev_stage(args: &[String]) -> (r: bool)
    ensures
        r == forall|i: int| 0 <= i < args@.len() ==> (#[trigger] strs(args@)[i]) == "--"@,
{
    let ghost a = strs(args@);
    let mut i: usize = 0;
    while i < args.len()
        invariant
            i <= args@.len(),
            a == strs(args@),
            forall|k: int| 0 <= k < i ==> (#[trigger] a[k]) == "--"@,
        decreases args@.len() - i,
    {
        if !str_eq(arg_at(args, i), "--") {
            assert(a[i as int] != "--"@);
            return false;
        }
        i = i + 1;
    }
    true
}

/// The counts that flag letters from the `k`-th on ask for.
pub open spec fn wc_letters(f: StreamingWcFlags, letters: Seq<char>, k: int) -> Option<
    StreamingWcFlags,
>
    decreases letters.len() - k,
{
    if k < 0 || k >= letters.len() {
        Some(f)
    } else if letters[k] == 'l' {
        wc_letters(StreamingWcFlags { lines: true, ..f }, letters, k + 1)
    } else if letters[k] == 'w' {
        wc_letters(StreamingWcFlags { words: true, ..f }, letters, k + 1)
    } else if letters[k] == 'c' || letters[k] == 'm' {
        wc_letters(StreamingWcFlags { bytes: true, ..f }, letters, k + 1)
    } else if letters[k] == 'L' {
        wc_letters(StreamingWcFlags { max_line_length: true, ..f }, letters, k + 1)
    } else {
        None
    }
}

/// The counts that the arguments of `wc` from the `i`-th on ask for; `flags` says whether flags
/// may still come.
pub open spec fn wc_args(
    args: Seq<Seq<char>>,
    i: int,
    f: StreamingWcFlags,
    flags: bool,
) -> Option<StreamingWcFlags>
    decreases args.len() - i,
{
    if i < 0 || i >= args.len() {
        Some(f)
    } else if flags && args[i] == "--"@ {
        wc_args(args, i + 1, f, false)
    } else if flags && is_flag_arg(args[i]) {
        match wc_letters(f, args[i].skip(1), 0) {
            Some(g) => wc_args(args, i + 1, g, flags),
            None => None,
        }
    } else {
        None
    }
}

/// What the arguments of `wc` ask for: lines, words and bytes unless they say otherwise.
pub open spec fn wc_stage(args: Seq<Seq<char>>) -> Option<StreamingWcFlags> {
    let none = StreamingWcFlags {
        lines: false,
        words: false,
        bytes: false,
        max_line_length: false,
    };
    match wc_args(args, 0, none, true) {
        Some(f) => if f == none {
            Some(StreamingWcFlags { lines: true, words: true, bytes: true, ..f })
        } else {
            Some(f)
        },
        None => None,
    }
}

fn wc_apply_letters(flags: StreamingWcFlags, arg: &str) -> (r: Option<StreamingWcFlags>)
    requires
        arg@.len() >= 1,
    ensures
        r == wc_letters(flags, arg@.skip(1), 0),
{
    let letters = letters_of(arg);
    let mut f = flags;
    let mut k: usize = 0;
    while k < letters.len()
        invariant
            k <= letters@.len(),
            letters@ == arg@.skip(1),
            wc_letters(flags, letters@, 0) == wc_letters(f, letters@, k as int),
        decreases letters@.len() - k,
    {
        let c: char = letters[k];
        if c == 'l' {
            f.lines = true;
        } else if c == 'w' {
            f.words = true;
        } else if c == 'c' || c == 'm' {
            f.bytes = true;
        } else if c == 'L' {
            f.max_line_length = true;
        } else {
            return None;
        }
        k = k + 1;
    }
    Some(f)
}

/// Reads the arguments of `wc`.
pub fn parse_streaming_wc_stage(args: &[String]) -> (r: Option<StreamingWcFlags>)
    ensures
        r == wc_stage(strs(args@)),
{
    let ghost a = strs(args@);
    let mut f = StreamingWcFlags {
        lines: false,
        words: false,
        bytes: false,
        max_line_length: false,
    };
    let ghost none = f;
    let mut flags: bool = true;
    let mut i: usize = 0;
    while i < args.len()
        invariant
            i <= args@.len(),
            a == strs(args@),
            none == (StreamingWcFlags {
                lines: false,
                words: false,
                bytes: false,
                max_line_length: false,
            }),
            wc_args(a, 0, none, true) == wc_args(a, i as int, f, flags),
        decreases args@.len() - i,
    {
        let arg = arg_at(args, i);
        if flags && str_eq(arg, "--") {
            flags = false;
        } else if flags && is_flag(arg) {
            match wc_apply_letters(f, arg) {
                Some(g) => {
                    f = g;
                },
                None => {
                    return None;
                },
            }
        } else {
            return None;
        }
        i = i + 1;
    }
    if !f.lines && !f.words && !f.bytes && !f.max_line_length {
        f.lines = true;
        f.words = true;
        f.bytes = true;
    }
    Some(f)
}

} // verus!
