//! The arguments of `tr`.
use crate::stages::args::{arg_at, is_flag, is_flag_arg, letters_of};
use crate::stream::tr::StreamingTrStage;
use crate::stream::tr_set::{expand_set, streaming_tr_expand_set};
use crate::views::{lemma_strs_push, strs};
use vstd::prelude::*;

verus! {

/// What the flags of `tr` ask for.
#[derive(Clone, Copy)]
pub struct TrFlags {
    pub delete: bool,
    pub squeeze: bool,
    pub complement: bool,
}

/// The flags after flag letters from the `k`-th on.
pub open spec fn tr_letters(f: TrFlags, letters: Seq<char>, k: int) -> Option<TrFlags>
    decreases letters.len() - k,
{
    if k < 0 || k >= letters.len() {
        Some(f)
    } else if letters[k] == 'd' {
        tr_letters(TrFlags { delete: true, ..f }, letters, k + 1)
    } else if letters[k] == 's' {
        tr_letters(TrFlags { squeeze: true, ..f }, letters, k + 1)
    } else if letters[k] == 'c' || letters[k] == 'C' {
        tr_letters(TrFlags { complement: true, ..f }, letters, k + 1)
    } else if letters[k] == 't' {
        tr_letters(f, letters, k + 1)
    } else {
        None
    }
}

/// The flags and the sets that the arguments of `tr` from the `i`-th on give.
pub open spec fn tr_args(
    args: Seq<Seq<char>>,
    i: int,
    f: TrFlags,
    sets: Seq<Seq<char>>,
) -> Option<(TrFlags, Seq<Seq<char>>)>
    decreases args.len() - i,
{
    if i < 0 || i >= args.len() {
        Some((f, sets))
    } else if is_flag_arg(args[i]) {
        match tr_letters(f, args[i].skip(1), 0) {
            Some(g) => tr_args(args, i + 1, g, sets),
            None => None,
        }
    } else {
        tr_args(args, i + 1, f, sets.push(args[i]))
    }
}

/// The flags and the expanded sets that the arguments of `tr` give. Translating needs two
/// sets; deleting and squeezing need one, and deleting has use for a second only together with
/// squeezing.
pub open spec fn tr_stage(args: Seq<Seq<char>>) -> Option<(TrFlags, Seq<char>, Seq<char>)> {
    let start = TrFlags { delete: false, squeeze: false, complement: false };
    match tr_args(args, 0, start, Seq::empty()) {
        None => None,
        Some((f, sets)) => if sets.len() == 0 {
            None
        } else if sets.len() >= 2 && (!f.delete || f.squeeze) {
            Some((f, expand_set(sets[0], 0), expand_set(sets[1], 0)))
        } else if f.delete || f.squeeze {
            Some((f, expand_set(sets[0], 0), Seq::empty()))
        } else {
            None
        },
    }
}

fn apply_letters(flags: TrFlags, arg: &str) -> (r: Option<TrFlags>)
    requires
        arg@.len() >= 1,
    ensures
        r == tr_letters(flags, arg@.skip(1), 0),
{
    let letters = letters_of(arg);
    let mut f = flags;
    let mut k: usize = 0;
    while k < letters.len()
        invariant
            k <= letters@.len(),
            letters@ == arg@.skip(1),
            tr_letters(flags, letters@, 0) == tr_letters(f, letters@, k as int),
        decreases letters@.len() - k,
    {
        let c: char = letters[k];
        if c == 'd' {
            f.delete = true;
        } else if c == 's' {
            f.squeeze = true;
        } else if c == 'c' || c == 'C' {
            f.complement = true;
        } else if c != 't' {
            return None;
        }
        k = k + 1;
    }
    Some(f)
}

/// Reads the arguments of `tr`.
pub fn parse_streaming_tr_stage(args: &[String]) -> (r: Option<StreamingTrStage>)
    ensures
        match r {
            Some(s) => tr_stage(strs(args@)) == Some(
                (
                    TrFlags { delete: s.delete, squeeze: s.squeeze, complement: s.complement },
                    s.from_chars@,
                    s.to_chars@,
                ),
            ),
            None => tr_stage(strs(args@)) is None,
        },
{
    let ghost a = strs(args@);
    let mut f = TrFlags { delete: false, squeeze: false, complement: false };
    let ghost start = f;
    let mut sets: Vec<String> = Vec::new();
    let mut i: usize = 0;
    assert(strs(sets@) =~= Seq::empty());
    while i < args.len()
        invariant
            i <= args@.len(),
            a == strs(args@),
            start == (TrFlags { delete: false, squeeze: false, complement: false }),
            tr_args(a, 0, start, Seq::empty()) == tr_args(a, i as int, f, strs(sets@)),
        decreases args@.len() - i,
    {
        let arg = arg_at(args, i);
        if is_flag(arg) {
            match apply_letters(f, arg) {
                Some(g) => {
                    f = g;
                },
                None => {
                    return None;
                },
            }
        } else {
            let ghost before = sets@;
            let item = arg.to_owned();
            sets.push(item);
            proof {
                lemma_strs_push(before, item);
            }
        }
        i = i + 1;
    }
    let ghost all = strs(sets@);
    if sets.len() == 0 {
        return None;
    }
    assert(all[0] == sets@[0]@);
    let from_chars = streaming_tr_expand_set(sets[0].as_str());
    if sets.len() >= 2 && (!f.delete || f.squeeze) {
        assert(all[1] == sets@[1]@);
        let to_chars = streaming_tr_expand_set(sets[1].as_str());
        Some(
            StreamingTrStage {
                delete: f.delete,
                squeeze: f.squeeze,
                complement: f.complement,
                from_chars,
                to_chars,
            },
        )
    } else if f.delete || f.squeeze {
        let to_chars: Vec<char> = Vec::new();
        assert(to_chars@ =~= Seq::empty());
        Some(
            StreamingTrStage {
                delete: f.delete,
                squeeze: f.squeeze,
                complement: f.complement,
                from_chars,
                to_chars,
            },
        )
    } else {
        None
    }
}

} // verus!
