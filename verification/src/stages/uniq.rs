//! The arguments of `uniq`.
use crate::stages::args::{arg_at, is_flag, is_flag_arg, letters_of, number_of, read_number};
use crate::stream::uniq::StreamingUniqFlags;
use crate::text::str_eq;
use crate::views::strs;
use vstd::prelude::*;

verus! {

/// `uniq` without arguments.
pub open spec fn uniq_default() -> StreamingUniqFlags {
    StreamingUniqFlags {
        count: false,
        duplicates_only: false,
        unique_only: false,
        ignore_case: false,
        skip_fields: 0,
        skip_chars: 0,
        compare_chars: None,
    }
}

/// The flags after flag letters from the `k`-th on.
pub open spec fn uniq_letters(f: StreamingUniqFlags, letters: Seq<char>, k: int) -> Option<
    StreamingUniqFlags,
>
    decreases letters.len() - k,
{
    if k < 0 || k >= letters.len() {
        Some(f)
    } else if letters[k] == 'c' {
        uniq_letters(StreamingUniqFlags { count: true, ..f }, letters, k + 1)
    } else if letters[k] == 'd' {
        uniq_letters(StreamingUniqFlags { duplicates_only: true, ..f }, letters, k + 1)
    } else if letters[k] == 'u' {
        uniq_letters(StreamingUniqFlags { unique_only: true, ..f }, letters, k + 1)
    } else if letters[k] == 'i' {
        uniq_letters(StreamingUniqFlags { ignore_case: true, ..f }, letters, k + 1)
    } else if letters[k] == 'z' {
        uniq_letters(f, letters, k + 1)
    } else {
        None
    }
}

/// What one argument says, and the position of the next one.
pub open spec fn uniq_step(args: Seq<Seq<char>>, i: int, f: StreamingUniqFlags) -> Option<
    (StreamingUniqFlags, int),
> {
    let arg = args[i];
    let more = i + 1 < args.len();
    let value = number_of(args[i + 1]);
    if arg == "-f"@ && more {
        match value {
            Some(n) => Some((StreamingUniqFlags { skip_fields: n, ..f }, i + 2)),
            None => None,
        }
    } else if arg == "-s"@ && more {
        match value {
            Some(n) => Some((StreamingUniqFlags { skip_chars: n, ..f }, i + 2)),
            None => None,
        }
    } else if arg == "-w"@ && more {
        Some((StreamingUniqFlags { compare_chars: value, ..f }, i + 2))
    } else if is_flag_arg(arg) && arg != "--"@ {
        match uniq_letters(f, arg.skip(1), 0) {
            Some(g) => Some((g, i + 1)),
            None => None,
        }
    } else if arg == "--"@ {
        Some((f, i + 1))
    } else {
        None
    }
}

/// What the arguments of `uniq` from the `i`-th on say.
pub open spec fn uniq_args(args: Seq<Seq<char>>, i: int, f: StreamingUniqFlags) -> Option<
    StreamingUniqFlags,
>
    decreases args.len() - i,
{
    if i < 0 || i >= args.len() {
        Some(f)
    } else {
        match uniq_step(args, i, f) {
            Some((g, next)) => uniq_args(args, next, g),
            None => None,
        }
    }
}

fn apply_letters(f: &mut StreamingUniqFlags, arg: &str) -> (r: bool)
    requires
        arg@.len() >= 1,
    ensures
        match uniq_letters(*old(f), arg@.skip(1), 0) {
            Some(g) => r && *final(f) == g,
            None => !r,
        },
{
    let letters = letters_of(arg);
    let ghost start = *f;
    let mut k: usize = 0;
    while k < letters.len()
        invariant
            k <= letters@.len(),
            letters@ == arg@.skip(1),
            start == *old(f),
            uniq_letters(start, letters@, 0) == uniq_letters(*f, letters@, k as int),
        decreases letters@.len() - k,
    {
        let c: char = letters[k];
        if c == 'c' {
            f.count = true;
        } else if c == 'd' {
            f.duplicates_only = true;
        } else if c == 'u' {
            f.unique_only = true;
        } else if c == 'i' {
            f.ignore_case = true;
        } else if c != 'z' {
            return false;
        }
        k = k + 1;
    }
    true
}

fn step(f: &mut StreamingUniqFlags, args: &[String], i: usize) -> (r: Option<usize>)
    requires
        i < args@.len(),
    ensures
        match r {
            Some(next) => uniq_step(strs(args@), i as int, *old(f)) == Some(
                (*final(f), next as int),
            ) && i < next <= args@.len(),
            None => uniq_step(strs(args@), i as int, *old(f)) is None,
        },
{
    let arg = arg_at(args, i);
    let more: bool = args.len() - i > 1;
    if str_eq(arg, "-f") && more {
        match read_number(arg_at(args, i + 1)) {
            Some(n) => {
                f.skip_fields = n;
            },
            None => {
                return None;
            },
        }
        Some(i + 2)
    } else if str_eq(arg, "-s") && more {
        match read_number(arg_at(args, i + 1)) {
            Some(n) => {
                f.skip_chars = n;
            },
            None => {
                return None;
            },
        }
        Some(i + 2)
    } else if str_eq(arg, "-w") && more {
        f.compare_chars = read_number(arg_at(args, i + 1));
        Some(i + 2)
    } else if is_flag(arg) && !str_eq(arg, "--") {
        if apply_letters(f, arg) {
            Some(i + 1)
        } else {
            None
        }
    } else if str_eq(arg, "--") {
        Some(i + 1)
    } else {
        None
    }
}

/// Reads the arguments of `uniq`.
pub fn parse_streaming_uniq_stage(args: &[String]) -> (r: Option<StreamingUniqFlags>)
    ensures
        r == uniq_args(strs(args@), 0, uniq_default()),
{
    let ghost a = strs(args@);
    let mut f = StreamingUniqFlags {
        count: false,
        duplicates_only: false,
        unique_only: false,
        ignore_case: false,
        skip_fields: 0,
        skip_chars: 0,
        compare_chars: None,
    };
    let mut i: usize = 0;
    while i < args.len()
        invariant
            i <= args@.len(),
            a == strs(args@),
            uniq_args(a, 0, uniq_default()) == uniq_args(a, i as int, f),
        decreases args@.len() - i,
    {
        match step(&mut f, args, i) {
            Some(next) => {
                i = next;
            },
            None => {
                return None;
            },
        }
    }
    Some(f)
}

} // verus!
