//! Commands that start a pipeline by themselves: `echo`, `yes` and `cat`.
use crate::ascii::{BACKSLASH, NEWLINE};
use crate::stages::args::arg_at;
use crate::text::{
    chars_of, join, joined, starts_with, str_eq, str_starts_with,
};
use crate::views::strs;
use vstd::prelude::*;
use vstd::utf8::encode_utf8;

verus! {

/// Whether an argument of `echo` is a group of the flags `n` and `e`.
pub open spec fn is_echo_flag(s: Seq<char>) -> bool {
    s.len() > 1 && s[0] == '-' && forall|i: int|
        1 <= i < s.len() ==> (#[trigger] s[i] == 'n' || s[i] == 'e')
}

/// How many arguments of `echo` from the `i`-th on are flags.
pub open spec fn echo_flags(args: Seq<Seq<char>>, i: int) -> int
    decreases args.len() - i,
{
    if 0 <= i < args.len() && is_echo_flag(args[i]) {
        1 + echo_flags(args, i + 1)
    } else {
        0
    }
}

/// Whether one of the first `n` arguments holds the flag.
pub open spec fn echo_has(args: Seq<Seq<char>>, n: int, flag: char) -> bool {
    exists|i: int| 0 <= i < n && i < args.len() && (#[trigger] args[i]).contains(flag)
}

/// A text with its escapes replaced, byte by byte: `\n`, `\t`, `\r` and `\\`; any other byte
/// stands for the character of its number.
pub open spec fn echo_escapes(t: Seq<u8>, i: int) -> Seq<char>
    decreases t.len() - i,
{
    if i < 0 || i >= t.len() {
        Seq::empty()
    } else if t[i] == BACKSLASH && i + 1 < t.len() {
        (if t[i + 1] == 0x6e {
            seq!['\n']
        } else if t[i + 1] == 0x74 {
            seq!['\t']
        } else if t[i + 1] == 0x72 {
            seq!['\r']
        } else if t[i + 1] == BACKSLASH {
            seq!['\\']
        } else {
            seq!['\\', t[i + 1] as char]
        }) + echo_escapes(t, i + 2)
    } else {
        seq![t[i] as char] + echo_escapes(t, i + 1)
    }
}

/// What `echo` prints: the arguments after its flags with a space between them, with escapes
/// replaced for `-e`, and a newline unless `-n` is given.
pub open spec fn echo_bytes(args: Seq<Seq<char>>) -> Seq<u8> {
    let n = echo_flags(args, 0);
    let text = joined(args.skip(n), " "@);
    let shown = if echo_has(args, n, 'e') {
        echo_escapes(encode_utf8(text), 0)
    } else {
        text
    };
    if echo_has(args, n, 'n') {
        encode_utf8(shown)
    } else {
        encode_utf8(shown).push(NEWLINE)
    }
}

proof fn lemma_echo_flags(args: Seq<Seq<char>>, i: int)
    requires
        0 <= i <= args.len(),
    ensures
        0 <= echo_flags(args, i) <= args.len() - i,
    decreases args.len() - i,
{
    if i < args.len() && is_echo_flag(args[i]) {
        lemma_echo_flags(args, i + 1);
    }
}

/// Replaces the escapes of a text.
pub fn process_streaming_echo_escapes(text: &str) -> (r: String)
    ensures
        r@ == echo_escapes(encode_utf8(text@), 0),
{
    let bytes = text.as_bytes();
    let ghost t = encode_utf8(text@);
    let n: usize = bytes.len();
    let mut out = String::new();
    let mut i: usize = 0;
    assert(out@ + echo_escapes(t, 0) =~= echo_escapes(t, 0));
    while i < n
        invariant
            i <= n,
            n == bytes@.len(),
            bytes@ == t,
            out@ + echo_escapes(t, i as int) == echo_escapes(t, 0),
        decreases n - i,
    {
        let ghost before = out@;
        let b: u8 = bytes[i];
        if b == BACKSLASH && n - i > 1 {
            let c: u8 = bytes[i + 1];
            if c == 0x6e {
                out.push('\n');
            } else if c == 0x74 {
                out.push('\t');
            } else if c == 0x72 {
                out.push('\r');
            } else if c == BACKSLASH {
                out.push('\\');
            } else {
                out.push('\\');
                out.push(c as char);
            }
            assert(out@ + echo_escapes(t, i + 2) =~= before + echo_escapes(t, i as int));
            i = i + 2;
        } else {
            out.push(b as char);
            assert(out@ + echo_escapes(t, i + 1) =~= before + echo_escapes(t, i as int));
            i = i + 1;
        }
    }
    assert(echo_escapes(t, i as int) =~= Seq::empty());
    assert(out@ + echo_escapes(t, i as int) =~= out@);
    out
}

struct EchoFlags {
    flag: bool,
    no_newline: bool,
    escapes: bool,
}

fn read_echo_flag(arg: &str) -> (r: EchoFlags)
    ensures
        r.flag == is_echo_flag(arg@),
        r.flag ==> r.no_newline == arg@.contains('n') && r.escapes == arg@.contains('e'),
{
    let chars = chars_of(arg);
    if chars.len() < 2 || chars[0] != '-' {
        return EchoFlags { flag: false, no_newline: false, escapes: false };
    }
    let mut no_newline: bool = false;
    let mut escapes: bool = false;
    let mut i: usize = 1;
    while i < chars.len()
        invariant
            1 <= i <= chars@.len(),
            chars@ == arg@,
            chars@[0] == '-',
            forall|k: int| 1 <= k < i ==> (#[trigger] chars@[k] == 'n' || chars@[k] == 'e'),
            no_newline == chars@.take(i as int).contains('n'),
            escapes == chars@.take(i as int).contains('e'),
        decreases chars@.len() - i,
    {
        let c: char = chars[i];
        let ghost a = chars@.take(i as int);
        let ghost b = chars@.take(i + 1);
        proof {
            assert(b =~= a.push(c));
            assert(b[i as int] == c);
            assert forall|x: char| b.contains(x) == (a.contains(x) || x == c) by {
                if a.contains(x) {
                    let k = choose|k: int| 0 <= k < a.len() && a[k] == x;
                    assert(b[k] == x);
                }
                if b.contains(x) && x != c {
                    let k = choose|k: int| 0 <= k < b.len() && b[k] == x;
                    assert(a[k] == x);
                }
            }
        }
        if c == 'n' {
            no_newline = true;
        } else if c == 'e' {
            escapes = true;
        } else {
            assert(chars@[i as int] != 'n' && chars@[i as int] != 'e');
            return EchoFlags { flag: false, no_newline: false, escapes: false };
        }
        i = i + 1;
    }
    assert(chars@.take(i as int) =~= chars@);
    EchoFlags { flag: true, no_newline, escapes }
}

/// What `echo` prints for its arguments.
pub fn streaming_echo_bytes(args: &[String]) -> (r: Vec<u8>)
    ensures
        r@ == echo_bytes(strs(args@)),
{
    let ghost a = strs(args@);
    let mut suppress_newline: bool = false;
    let mut escapes: bool = false;
    let mut start: usize = 0;
    let mut more: bool = true;
    proof {
        lemma_echo_flags(a, 0);
    }
    while start < args.len() && more
        invariant
            start <= args@.len(),
            a == strs(args@),
            echo_flags(a, 0) == start + echo_flags(a, start as int),
            !more ==> echo_flags(a, start as int) == 0,
            suppress_newline == echo_has(a, start as int, 'n'),
            escapes == echo_has(a, start as int, 'e'),
        decreases args@.len() - start + (if more {
            1int
        } else {
            0
        }),
    {
        let arg = arg_at(args, start);
        let f = read_echo_flag(arg);
        if f.flag {
            proof {
                lemma_echo_has(a, start as int, 'n');
                lemma_echo_has(a, start as int, 'e');
            }
            suppress_newline = suppress_newline || f.no_newline;
            escapes = escapes || f.escapes;
            start = start + 1;
        } else {
            more = false;
        }
    }
    let rest = vstd::slice::slice_subrange(args, start, args.len());
    let list = copy_strings(rest);
    assert(strs(list@) =~= a.skip(start as int));
    let text = join(&list, " ");
    let shown = if escapes {
        process_streaming_echo_escapes(text.as_str())
    } else {
        text
    };
    let mut out = shown.as_str().as_bytes_vec();
    if !suppress_newline {
        out.push(NEWLINE);
    }
    out
}

proof fn lemma_echo_has(a: Seq<Seq<char>>, n: int, c: char)
    requires
        0 <= n < a.len(),
    ensures
        echo_has(a, n + 1, c) == (echo_has(a, n, c) || a[n].contains(c)),
{
    if echo_has(a, n, c) {
        let i = choose|i: int| 0 <= i < n && i < a.len() && (#[trigger] a[i]).contains(c);
        assert(a[i].contains(c));
    }
}

/// A copy of a slice of strings.
pub fn copy_strings(v: &[String]) -> (r: Vec<String>)
    ensures
        strs(r@) == strs(v@),
{
    let mut r: Vec<String> = Vec::new();
    let mut i: usize = 0;
    while i < v.len()
        invariant
            i <= v@.len(),
            r@.len() == i,
            forall|k: int| 0 <= k < i ==> (#[trigger] r@[k])@ == v@[k]@,
        decreases v@.len() - i,
    {
        r.push(v[i].clone());
        i = i + 1;
    }
    assert(strs(r@) =~= strs(v@));
    r
}

/// The line that `yes` repeats: its arguments with a space between them, or `y`.
pub open spec fn yes_line(args: Seq<Seq<char>>) -> Seq<u8> {
    encode_utf8(
        if args.len() > 0 {
            joined(args, " "@)
        } else {
            "y"@
        },
    ).push(NEWLINE)
}

/// The line that `yes` repeats.
pub fn streaming_yes_line(args: &[String]) -> (r: Vec<u8>)
    ensures
        r@ == yes_line(strs(args@)),
{
    let text = if args.len() > 0 {
        join(&copy_strings(args), " ")
    } else {
        "y".to_owned()
    };
    let mut out = text.as_str().as_bytes_vec();
    out.push(NEWLINE);
    out
}

/// What `cat` does in a pipeline.
pub enum CatStage {
    /// It starts the pipeline with a file.
    File(String),
    /// It hands its input on.
    Pass,
}

/// The arguments other than `--`.
pub open spec fn cat_files(args: Seq<Seq<char>>) -> Seq<Seq<char>> {
    args.filter(|s: Seq<char>| s != "--"@)
}

/// Whether an argument is a flag.
pub open spec fn has_dash(s: Seq<char>) -> bool {
    starts_with(s, "-"@)
}

/// Reads the arguments of `cat`: no flags, and one file where it starts the pipeline.
pub fn parse_streaming_cat_stage(args: &[String], is_first: bool) -> (r: Option<CatStage>)
    ensures
        ({
            let files = cat_files(strs(args@));
            let plain = forall|i: int| 0 <= i < files.len() ==> !has_dash(#[trigger] files[i]);
            match r {
                Some(CatStage::File(f)) => plain && is_first && files.len() == 1 && f@ == files[0],
                Some(CatStage::Pass) => plain && !is_first,
                None => !plain || (is_first && files.len() != 1),
            }
        }),
{
    let ghost a = strs(args@);
    let ghost keep = |s: Seq<char>| s != "--"@;
    let mut files: Vec<String> = Vec::new();
    let mut i: usize = 0;
    assert(a.take(0) =~= Seq::empty());
    assert(strs(files@) =~= Seq::empty());
    proof {
        reveal(Seq::filter);
    }
    while i < args.len()
        invariant
            i <= args@.len(),
            a == strs(args@),
            keep == (|s: Seq<char>| s != "--"@),
            strs(files@) == a.take(i as int).filter(keep),
            forall|k: int| 0 <= k < files@.len() ==> !has_dash(#[trigger] strs(files@)[k]),
        decreases args@.len() - i,
    {
        let arg = arg_at(args, i);
        proof {
            reveal(Seq::filter);
            assert(a.take(i + 1).drop_last() =~= a.take(i as int));
        }
        if !str_eq(arg, "--") {
            if str_starts_with(arg, "-") {
                proof {
                    lemma_filter_has(a, i as int, keep);
                    let files = cat_files(a);
                    assert(files == a.filter(keep));
                    let k = choose|k: int|
                        0 <= k < files.len() && #[trigger] files[k] == a[i as int];
                    assert(has_dash(files[k]));
                }
                return None;
            }
            let ghost before = files@;
            let item = arg.to_owned();
            files.push(item);
            proof {
                crate::views::lemma_strs_push(before, item);
            }
        }
        i = i + 1;
    }
    assert(a.take(i as int) =~= a);
    if is_first {
        if files.len() == 1 {
            assert(strs(files@)[0] == files@[0]@);
            return Some(CatStage::File(files[0].clone()));
        }
        return None;
    }
    Some(CatStage::Pass)
}

proof fn lemma_filter_has(a: Seq<Seq<char>>, i: int, keep: spec_fn(Seq<char>) -> bool)
    requires
        0 <= i < a.len(),
        keep(a[i]),
    ensures
        exists|k: int| 0 <= k < a.filter(keep).len() && #[trigger] a.filter(keep)[k] == a[i],
    decreases a.len(),
{
    reveal(Seq::filter);
    let b = a.drop_last();
    if i < a.len() - 1 {
        lemma_filter_has(b, i, keep);
        let k = choose|k: int| 0 <= k < b.filter(keep).len() && #[trigger] b.filter(keep)[k] == b[i];
        assert(a.filter(keep)[k] == a[i]);
    } else {
        assert(a.filter(keep).last() == a[i]);
    }
}

} // verus!
