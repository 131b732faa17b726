//! Extended globs: `?(..)`, `*(..)`, `+(..)`, `@(..)` and `!(..)`.
use crate::ascii::{AT, BANG, DOT, LPAREN, PIPE, PLUS, QUESTION, RPAREN, STAR};
use crate::pattern::glob::{glob_at, glob_match_inner, glob_matches, law_leading_star};
use crate::pattern::parens::{
    alternatives_of, depth, find_matching_paren, is_matching_paren,
    lemma_matching_paren_found, lemma_weight_falls, matching_paren, split_alternatives, weight,
};
use crate::stream::simple::copies;
use crate::views::rows;
use vstd::prelude::*;
use vstd::utf8::encode_utf8;

verus! {

/// The bytes that make a group extended when they stand before its `(`.
pub open spec fn is_ext_op(b: u8) -> bool {
    b == QUESTION || b == STAR || b == PLUS || b == AT || b == BANG
}

/// Whether an operator and its `(` stand at `i`.
pub open spec fn ext_op_at(p: Seq<u8>, i: int) -> bool {
    0 <= i && i + 1 < p.len() && p[i + 1] == LPAREN && is_ext_op(p[i])
}

/// The first position from `i` on at which a closed extended group starts, with its `)`.
pub open spec fn first_ext_group(p: Seq<u8>, i: int) -> Option<(int, int)>
    decreases p.len() - i,
{
    if i < 0 || i >= p.len() {
        None
    } else if ext_op_at(p, i) && matching_paren(p, i + 2) is Some {
        Some((i, matching_paren(p, i + 2)->0))
    } else {
        first_ext_group(p, i + 1)
    }
}

/// Whether `op(..)` may stand for the alternatives `reps`, one after the other: `@` for one,
/// `?` for none or one, `*` for up to twenty that are not empty, `+` for one and then up to
/// nineteen that are not empty.
pub open spec fn reps_allowed(op: u8, alts: Seq<Seq<u8>>, reps: Seq<Seq<u8>>) -> bool {
    &&& forall|i: int| 0 <= i < reps.len() ==> alts.contains(#[trigger] reps[i])
    &&& if op == AT {
        reps.len() == 1
    } else if op == QUESTION {
        reps.len() <= 1
    } else if op == STAR {
        reps.len() <= 20 && forall|i: int| 0 <= i < reps.len() ==> (#[trigger] reps[i]).len() > 0
    } else if op == PLUS {
        1 <= reps.len() <= 20 && forall|i: int|
            1 <= i < reps.len() ==> (#[trigger] reps[i]).len() > 0
    } else {
        reps.len() == 1
    }
}

/// The pattern `p` with its group from `pi` to `close` replaced by `reps`.
pub open spec fn replaced(p: Seq<u8>, pi: int, close: int, reps: Seq<Seq<u8>>) -> Seq<u8> {
    p.take(pi) + reps.flatten() + p.skip(close + 1)
}

/// Whether the extended glob `p` matches the whole name `n`. The first closed group decides:
/// some allowed run of its alternatives, put in its place, must match; for `!`, none of the
/// alternatives may match while a `*` in its place does.
pub open spec fn extglob_matches(p: Seq<u8>, n: Seq<u8>) -> bool
    decreases weight(p),
{
    match first_ext_group(p, 0) {
        None => glob_matches(p, n),
        Some((pi, close)) => {
            let alts = alternatives_of(p.subrange(pi + 2, close));
            let some_run = exists|reps: Seq<Seq<u8>>|
                #![trigger reps_allowed(p[pi], alts, reps)]
                reps_allowed(p[pi], alts, reps) && weight(replaced(p, pi, close, reps)) < weight(p)
                    && extglob_matches(replaced(p, pi, close, reps), n);
            if p[pi] == BANG {
                !some_run && glob_matches(p.take(pi) + seq![STAR] + p.skip(close + 1), n)
            } else {
                some_run
            }
        },
    }
}

/// Whether `p` has an extended group's opening anywhere.
pub open spec fn has_ext_op(p: Seq<u8>) -> bool {
    exists|i: int| ext_op_at(p, i)
}

proof fn lemma_first_ext_group(p: Seq<u8>, i: int)
    requires
        0 <= i,
    ensures
        first_ext_group(p, i) matches Some((pi, close)) ==> {
            &&& i <= pi < close < p.len()
            &&& pi + 2 <= close
            &&& ext_op_at(p, pi)
            &&& is_matching_paren(p, pi + 2, close)
        },
    decreases p.len() - i,
{
    if i < p.len() {
        if ext_op_at(p, i) && matching_paren(p, i + 2) is Some {
            lemma_matching_paren_found(p, i + 2);
        } else {
            lemma_first_ext_group(p, i + 1);
        }
    }
}

/// What a closed extended group stands for, with no reference to weights: every allowed run
/// of alternatives is tried.
pub proof fn lemma_extglob_group(p: Seq<u8>, n: Seq<u8>)
    requires
        first_ext_group(p, 0) is Some,
    ensures
        ({
            let (pi, close) = first_ext_group(p, 0)->0;
            let alts = alternatives_of(p.subrange(pi + 2, close));
            let some_run = exists|reps: Seq<Seq<u8>>|
                #![trigger reps_allowed(p[pi], alts, reps)]
                reps_allowed(p[pi], alts, reps) && extglob_matches(
                    replaced(p, pi, close, reps),
                    n,
                );
            extglob_matches(p, n) == if p[pi] == BANG {
                !some_run && glob_matches(p.take(pi) + seq![STAR] + p.skip(close + 1), n)
            } else {
                some_run
            }
        }),
{
    let (pi, close) = first_ext_group(p, 0)->0;
    lemma_first_ext_group(p, 0);
    let alts = alternatives_of(p.subrange(pi + 2, close));
    assert forall|reps: Seq<Seq<u8>>| #[trigger]
        reps_allowed(p[pi], alts, reps) implies weight(replaced(p, pi, close, reps)) < weight(
        p,
    ) by {
        lemma_weight_falls(p, pi, close, reps);
    }
    let some_run = exists|reps: Seq<Seq<u8>>|
        #![trigger reps_allowed(p[pi], alts, reps)]
        reps_allowed(p[pi], alts, reps) && extglob_matches(replaced(p, pi, close, reps), n);
    let guarded = exists|reps: Seq<Seq<u8>>|
        #![trigger reps_allowed(p[pi], alts, reps)]
        reps_allowed(p[pi], alts, reps) && weight(replaced(p, pi, close, reps)) < weight(p)
            && extglob_matches(replaced(p, pi, close, reps), n);
    if some_run {
        let reps = choose|reps: Seq<Seq<u8>>|
            #![trigger reps_allowed(p[pi], alts, reps)]
            reps_allowed(p[pi], alts, reps) && extglob_matches(replaced(p, pi, close, reps), n);
        assert(reps_allowed(p[pi], alts, reps));
    }
    assert(some_run == guarded);
}

/// Finds the first closed extended group: its position, its operator and its `)`.
pub fn find_extglob_operator(pattern: &[u8]) -> (r: Option<(usize, u8, usize)>)
    ensures
        match r {
            Some((pi, op, close)) => first_ext_group(pattern@, 0) == Some((pi as int, close as int))
                && op == pattern@[pi as int],
            None => first_ext_group(pattern@, 0) is None,
        },
{
    let ghost p = pattern@;
    let mut pi: usize = 0;
    while pi < pattern.len()
        invariant
            p == pattern@,
            pi <= p.len(),
            first_ext_group(p, 0) == first_ext_group(p, pi as int),
        decreases p.len() - pi,
    {
        let op: u8 = pattern[pi];
        if pattern.len() - pi > 1 && pattern[pi + 1] == LPAREN && (op == QUESTION || op == STAR || op
            == PLUS || op == AT || op == BANG) {
            if let Some(close) = find_matching_paren(pattern, pi + 2) {
                return Some((pi, op, close));
            }
        }
        pi = pi + 1;
    }
    None
}

/// The concatenation of three byte strings.
fn build_combined(prefix: &[u8], mid: &[u8], suffix: &[u8]) -> (r: Vec<u8>)
    ensures
        r@ == prefix@ + mid@ + suffix@,
{
    let mut combined: Vec<u8> = Vec::new();
    combined.extend_from_slice(prefix);
    combined.extend_from_slice(mid);
    combined.extend_from_slice(suffix);
    assert(combined@ =~= prefix@ + mid@ + suffix@);
    combined
}

/// A run of non-empty alternatives that still fits after `used` others.
spec fn tail_run(alts: Seq<Seq<u8>>, reps: Seq<Seq<u8>>, used: int) -> bool {
    &&& forall|i: int| 0 <= i < reps.len() ==> alts.contains(#[trigger] reps[i])
    &&& forall|i: int| 0 <= i < reps.len() ==> (#[trigger] reps[i]).len() > 0
    &&& reps.len() + used <= 20
}

spec fn tail_matches(
    pre: Seq<u8>,
    alts: Seq<Seq<u8>>,
    suf: Seq<u8>,
    n: Seq<u8>,
    used: int,
) -> bool {
    exists|reps: Seq<Seq<u8>>| #[trigger]
        tail_run(alts, reps, used) && extglob_matches(pre + reps.flatten() + suf, n)
}

/// Every pattern that a tail run can still give is lighter than `w`.
spec fn tail_lighter(
    pre: Seq<u8>,
    alts: Seq<Seq<u8>>,
    suf: Seq<u8>,
    used: int,
    w: nat,
) -> bool {
    forall|reps: Seq<Seq<u8>>| #[trigger]
        tail_run(alts, reps, used) ==> weight(pre + reps.flatten() + suf) < w
}

proof fn lemma_flatten_cons(a: Seq<u8>, t: Seq<Seq<u8>>)
    ensures
        (seq![a] + t).flatten() == a + t.flatten(),
{
    assert((seq![a] + t).drop_first() =~= t);
}

proof fn lemma_tail_extend(
    pre: Seq<u8>,
    alts: Seq<Seq<u8>>,
    suf: Seq<u8>,
    used: int,
    w: nat,
    alt: Seq<u8>,
)
    requires
        tail_lighter(pre, alts, suf, used, w),
        alts.contains(alt),
        alt.len() > 0,
        used <= 20,
    ensures
        tail_lighter(pre + alt, alts, suf, used + 1, w),
{
    assert forall|reps: Seq<Seq<u8>>| #[trigger] tail_run(alts, reps, used + 1) implies weight(
        pre + alt + reps.flatten() + suf,
    ) < w by {
        let full = seq![alt] + reps;
        lemma_flatten_cons(alt, reps);
        assert forall|i: int| 0 <= i < full.len() implies alts.contains(#[trigger] full[i])
            && full[i].len() > 0 by {
            if i > 0 {
                assert(full[i] == reps[i - 1]);
            }
        }
        assert(tail_run(alts, full, used));
        assert(pre + full.flatten() + suf =~= pre + alt + reps.flatten() + suf);
    }
}

/// A run is empty, or starts with a non-empty alternative.
proof fn lemma_tail_unfold(
    pre: Seq<u8>,
    alts: Seq<Seq<u8>>,
    suf: Seq<u8>,
    n: Seq<u8>,
    used: int,
)
    requires
        0 <= used <= 20,
    ensures
        tail_matches(pre, alts, suf, n, used) <==> (extglob_matches(pre + suf, n) || exists|k: int|
            0 <= k < alts.len() && (#[trigger] alts[k]).len() > 0 && tail_matches(
                pre + alts[k],
                alts,
                suf,
                n,
                used + 1,
            )),
{
    if tail_matches(pre, alts, suf, n, used) {
        let reps = choose|reps: Seq<Seq<u8>>| #[trigger]
            tail_run(alts, reps, used) && extglob_matches(pre + reps.flatten() + suf, n);
        if reps.len() == 0 {
            assert(pre + reps.flatten() + suf =~= pre + suf);
        } else {
            let alt = reps[0];
            let t = reps.drop_first();
            let k = choose|k: int| 0 <= k < alts.len() && alts[k] == alt;
            assert forall|i: int| 0 <= i < t.len() implies alts.contains(#[trigger] t[i])
                && t[i].len() > 0 by {
                assert(t[i] == reps[i + 1]);
            }
            assert(tail_run(alts, t, used + 1));
            assert(pre + reps.flatten() + suf =~= pre + alts[k] + t.flatten() + suf);
            assert(alts[k].len() > 0 && tail_matches(pre + alts[k], alts, suf, n, used + 1));
        }
    }
    if extglob_matches(pre + suf, n) {
        let none = Seq::<Seq<u8>>::empty();
        assert(tail_run(alts, none, used));
        assert(pre + none.flatten() + suf =~= pre + suf);
    }
    if exists|k: int|
        0 <= k < alts.len() && (#[trigger] alts[k]).len() > 0 && tail_matches(
            pre + alts[k],
            alts,
            suf,
            n,
            used + 1,
        ) {
        let k = choose|k: int|
            0 <= k < alts.len() && (#[trigger] alts[k]).len() > 0 && tail_matches(
                pre + alts[k],
                alts,
                suf,
                n,
                used + 1,
            );
        let t = choose|reps: Seq<Seq<u8>>| #[trigger]
            tail_run(alts, reps, used + 1) && extglob_matches(
                pre + alts[k] + reps.flatten() + suf,
                n,
            );
        let full = seq![alts[k]] + t;
        lemma_flatten_cons(alts[k], t);
        assert forall|i: int| 0 <= i < full.len() implies alts.contains(#[trigger] full[i])
            && full[i].len() > 0 by {
            if i > 0 {
                assert(full[i] == t[i - 1]);
            }
        }
        assert(tail_run(alts, full, used));
        assert(pre + full.flatten() + suf =~= pre + alts[k] + t.flatten() + suf);
    }
}

/// Tries none or more of the alternatives in place of `*(..)`, `depth` of them used already.
fn extglob_star(
    prefix: &[u8],
    alternatives: &Vec<Vec<u8>>,
    suffix: &[u8],
    name: &[u8],
    depth: u32,
    Ghost(w): Ghost<nat>,
) -> (r: bool)
    requires
        depth <= 21,
        tail_lighter(prefix@, rows(alternatives@), suffix@, depth as int, w),
    ensures
        r == tail_matches(prefix@, rows(alternatives@), suffix@, name@, depth as int),
    decreases w, 21 - depth, 1nat,
{
    let ghost alts = rows(alternatives@);
    if depth > 20 {
        return false;
    }
    proof {
        lemma_tail_unfold(prefix@, alts, suffix@, name@, depth as int);
        let none = Seq::<Seq<u8>>::empty();
        assert(tail_run(alts, none, depth as int));
        assert(prefix@ + none.flatten() + suffix@ =~= prefix@ + suffix@);
    }
    let empty: Vec<u8> = Vec::new();
    let plain = build_combined(prefix, empty.as_slice(), suffix);
    assert(plain@ =~= prefix@ + suffix@);
    if extglob_match_recursive(plain.as_slice(), name) {
        return true;
    }
    extglob_try_extend(prefix, alternatives, suffix, name, depth, Ghost(w))
}

/// Tries each non-empty alternative after `prefix`, followed by none or more of them.
fn extglob_try_extend(
    prefix: &[u8],
    alternatives: &Vec<Vec<u8>>,
    suffix: &[u8],
    name: &[u8],
    depth: u32,
    Ghost(w): Ghost<nat>,
) -> (r: bool)
    requires
        depth <= 20,
        tail_lighter(prefix@, rows(alternatives@), suffix@, depth as int, w),
    ensures
        r == exists|k: int|
            0 <= k < alternatives@.len() && (#[trigger] rows(alternatives@)[k]).len() > 0
                && tail_matches(
                prefix@ + rows(alternatives@)[k],
                rows(alternatives@),
                suffix@,
                name@,
                depth + 1,
            ),
    decreases w, 21 - depth, 0nat,
{
    let ghost alts = rows(alternatives@);
    let empty: Vec<u8> = Vec::new();
    let mut i: usize = 0;
    while i < alternatives.len()
        invariant
            i <= alternatives@.len(),
            depth <= 20,
            alts == rows(alternatives@),
            empty@.len() == 0,
            tail_lighter(prefix@, alts, suffix@, depth as int, w),
            forall|k: int|
                0 <= k < i && (#[trigger] alts[k]).len() > 0 ==> !tail_matches(
                    prefix@ + alts[k],
                    alts,
                    suffix@,
                    name@,
                    depth + 1,
                ),
        decreases alternatives@.len() - i,
    {
        let alt = &alternatives[i];
        assert(alts[i as int] == alt@);
        if alt.len() > 0 {
            let new_prefix = build_combined(prefix, alt.as_slice(), empty.as_slice());
            assert(new_prefix@ =~= prefix@ + alts[i as int]);
            proof {
                lemma_tail_extend(prefix@, alts, suffix@, depth as int, w, alts[i as int]);
            }
            if extglob_star(
                new_prefix.as_slice(),
                alternatives,
                suffix,
                name,
                depth + 1,
                Ghost(w),
            ) {
                return true;
            }
        }
        i = i + 1;
    }
    false
}

/// Tries one of the alternatives, then none or more of them, in place of `+(..)`.
fn extglob_plus(
    prefix: &[u8],
    alternatives: &Vec<Vec<u8>>,
    suffix: &[u8],
    name: &[u8],
    Ghost(w): Ghost<nat>,
) -> (r: bool)
    requires
        forall|k: int|
            0 <= k < alternatives@.len() ==> tail_lighter(
                prefix@ + #[trigger] rows(alternatives@)[k],
                rows(alternatives@),
                suffix@,
                1,
                w,
            ),
    ensures
        r == exists|k: int|
            0 <= k < alternatives@.len() && tail_matches(
                prefix@ + #[trigger] rows(alternatives@)[k],
                rows(alternatives@),
                suffix@,
                name@,
                1,
            ),
    decreases w, 22nat, 0nat,
{
    let ghost alts = rows(alternatives@);
    let empty: Vec<u8> = Vec::new();
    let mut i: usize = 0;
    while i < alternatives.len()
        invariant
            i <= alternatives@.len(),
            alts == rows(alternatives@),
            empty@.len() == 0,
            forall|k: int|
                0 <= k < alternatives@.len() ==> tail_lighter(
                    prefix@ + #[trigger] alts[k],
                    alts,
                    suffix@,
                    1,
                    w,
                ),
            forall|k: int|
                0 <= k < i ==> !tail_matches(
                    prefix@ + #[trigger] alts[k],
                    alts,
                    suffix@,
                    name@,
                    1,
                ),
        decreases alternatives@.len() - i,
    {
        let alt = &alternatives[i];
        assert(alts[i as int] == alt@);
        let new_prefix = build_combined(prefix, alt.as_slice(), empty.as_slice());
        assert(new_prefix@ =~= prefix@ + alts[i as int]);
        if extglob_star(new_prefix.as_slice(), alternatives, suffix, name, 1, Ghost(w)) {
            return true;
        }
        i = i + 1;
    }
    false
}

/// Tries each alternative once in place of the group.
fn extglob_match_one(
    prefix: &[u8],
    alternatives: &Vec<Vec<u8>>,
    suffix: &[u8],
    name: &[u8],
    Ghost(w): Ghost<nat>,
) -> (r: bool)
    requires
        forall|k: int|
            0 <= k < alternatives@.len() ==> weight(
                prefix@ + #[trigger] rows(alternatives@)[k] + suffix@,
            ) < w,
    ensures
        r == exists|k: int|
            0 <= k < alternatives@.len() && extglob_matches(
                prefix@ + #[trigger] rows(alternatives@)[k] + suffix@,
                name@,
            ),
    decreases w, 0nat, 0nat,
{
    let ghost alts = rows(alternatives@);
    let mut i: usize = 0;
    while i < alternatives.len()
        invariant
            i <= alternatives@.len(),
            alts == rows(alternatives@),
            forall|k: int|
                0 <= k < alternatives@.len() ==> weight(prefix@ + #[trigger] alts[k] + suffix@) < w,
            forall|k: int|
                0 <= k < i ==> !extglob_matches(prefix@ + #[trigger] alts[k] + suffix@, name@),
        decreases alternatives@.len() - i,
    {
        let alt = &alternatives[i];
        assert(alts[i as int] == alt@);
        let combined = build_combined(prefix, alt.as_slice(), suffix);
        if extglob_match_recursive(combined.as_slice(), name) {
            return true;
        }
        i = i + 1;
    }
    false
}

proof fn lemma_one_run(op: u8, p: Seq<u8>, pi: int, close: int, n: Seq<u8>)
    requires
        op == AT || op == BANG,
    ensures
        ({
            let alts = alternatives_of(p.subrange(pi + 2, close));
            (exists|reps: Seq<Seq<u8>>|
                #![trigger reps_allowed(op, alts, reps)]
                reps_allowed(op, alts, reps) && extglob_matches(replaced(p, pi, close, reps), n))
                <==> (exists|k: int|
                0 <= k < alts.len() && extglob_matches(
                    p.take(pi) + #[trigger] alts[k] + p.skip(close + 1),
                    n,
                ))
        }),
{
    let alts = alternatives_of(p.subrange(pi + 2, close));
    if exists|reps: Seq<Seq<u8>>|
        #![trigger reps_allowed(op, alts, reps)]
        reps_allowed(op, alts, reps) && extglob_matches(replaced(p, pi, close, reps), n) {
        let reps = choose|reps: Seq<Seq<u8>>|
            #![trigger reps_allowed(op, alts, reps)]
            reps_allowed(op, alts, reps) && extglob_matches(replaced(p, pi, close, reps), n);
        let k = choose|k: int| 0 <= k < alts.len() && alts[k] == reps[0];
        reps.lemma_flatten_one_element();
        assert(extglob_matches(p.take(pi) + alts[k] + p.skip(close + 1), n));
    }
    if exists|k: int|
        0 <= k < alts.len() && extglob_matches(
            p.take(pi) + #[trigger] alts[k] + p.skip(close + 1),
            n,
        ) {
        let k = choose|k: int|
            0 <= k < alts.len() && extglob_matches(
                p.take(pi) + #[trigger] alts[k] + p.skip(close + 1),
                n,
            );
        let reps = seq![alts[k]];
        reps.lemma_flatten_one_element();
        assert(reps_allowed(op, alts, reps));
    }
}

proof fn lemma_opt_run(p: Seq<u8>, pi: int, close: int, n: Seq<u8>)
    ensures
        ({
            let alts = alternatives_of(p.subrange(pi + 2, close));
            (exists|reps: Seq<Seq<u8>>|
                #![trigger reps_allowed(QUESTION, alts, reps)]
                reps_allowed(QUESTION, alts, reps) && extglob_matches(
                    replaced(p, pi, close, reps),
                    n,
                )) <==> (extglob_matches(p.take(pi) + p.skip(close + 1), n) || exists|k: int|
                0 <= k < alts.len() && extglob_matches(
                    p.take(pi) + #[trigger] alts[k] + p.skip(close + 1),
                    n,
                ))
        }),
{
    let alts = alternatives_of(p.subrange(pi + 2, close));
    lemma_one_run(AT, p, pi, close, n);
    if exists|reps: Seq<Seq<u8>>|
        #![trigger reps_allowed(QUESTION, alts, reps)]
        reps_allowed(QUESTION, alts, reps) && extglob_matches(replaced(p, pi, close, reps), n) {
        let reps = choose|reps: Seq<Seq<u8>>|
            #![trigger reps_allowed(QUESTION, alts, reps)]
            reps_allowed(QUESTION, alts, reps) && extglob_matches(
                replaced(p, pi, close, reps),
                n,
            );
        if reps.len() == 0 {
            assert(replaced(p, pi, close, reps) =~= p.take(pi) + p.skip(close + 1));
        } else {
            assert(reps_allowed(AT, alts, reps));
        }
    }
    if extglob_matches(p.take(pi) + p.skip(close + 1), n) {
        let reps = Seq::<Seq<u8>>::empty();
        assert(reps_allowed(QUESTION, alts, reps));
        assert(replaced(p, pi, close, reps) =~= p.take(pi) + p.skip(close + 1));
    }
    if exists|reps: Seq<Seq<u8>>|
        #![trigger reps_allowed(AT, alts, reps)]
        reps_allowed(AT, alts, reps) && extglob_matches(replaced(p, pi, close, reps), n) {
        let reps = choose|reps: Seq<Seq<u8>>|
            #![trigger reps_allowed(AT, alts, reps)]
            reps_allowed(AT, alts, reps) && extglob_matches(replaced(p, pi, close, reps), n);
        assert(reps_allowed(QUESTION, alts, reps));
    }
}

proof fn lemma_star_run(p: Seq<u8>, pi: int, close: int, n: Seq<u8>)
    ensures
        ({
            let alts = alternatives_of(p.subrange(pi + 2, close));
            (exists|reps: Seq<Seq<u8>>|
                #![trigger reps_allowed(STAR, alts, reps)]
                reps_allowed(STAR, alts, reps) && extglob_matches(replaced(p, pi, close, reps), n))
                <==> tail_matches(p.take(pi), alts, p.skip(close + 1), n, 0)
        }),
{
    let alts = alternatives_of(p.subrange(pi + 2, close));
    assert forall|reps: Seq<Seq<u8>>|
        reps_allowed(STAR, alts, reps) == #[trigger] tail_run(alts, reps, 0) by {}
    if exists|reps: Seq<Seq<u8>>|
        #![trigger reps_allowed(STAR, alts, reps)]
        reps_allowed(STAR, alts, reps) && extglob_matches(replaced(p, pi, close, reps), n) {
        let reps = choose|reps: Seq<Seq<u8>>|
            #![trigger reps_allowed(STAR, alts, reps)]
            reps_allowed(STAR, alts, reps) && extglob_matches(replaced(p, pi, close, reps), n);
        assert(tail_run(alts, reps, 0));
    }
    if tail_matches(p.take(pi), alts, p.skip(close + 1), n, 0) {
        let reps = choose|reps: Seq<Seq<u8>>| #[trigger]
            tail_run(alts, reps, 0) && extglob_matches(
                p.take(pi) + reps.flatten() + p.skip(close + 1),
                n,
            );
        assert(reps_allowed(STAR, alts, reps));
    }
}

proof fn lemma_plus_run(p: Seq<u8>, pi: int, close: int, n: Seq<u8>)
    ensures
        ({
            let alts = alternatives_of(p.subrange(pi + 2, close));
            (exists|reps: Seq<Seq<u8>>|
                #![trigger reps_allowed(PLUS, alts, reps)]
                reps_allowed(PLUS, alts, reps) && extglob_matches(replaced(p, pi, close, reps), n))
                <==> (exists|k: int|
                0 <= k < alts.len() && tail_matches(
                    p.take(pi) + #[trigger] alts[k],
                    alts,
                    p.skip(close + 1),
                    n,
                    1,
                ))
        }),
{
    let alts = alternatives_of(p.subrange(pi + 2, close));
    let pre = p.take(pi);
    let suf = p.skip(close + 1);
    if exists|reps: Seq<Seq<u8>>|
        #![trigger reps_allowed(PLUS, alts, reps)]
        reps_allowed(PLUS, alts, reps) && extglob_matches(replaced(p, pi, close, reps), n) {
        let reps = choose|reps: Seq<Seq<u8>>|
            #![trigger reps_allowed(PLUS, alts, reps)]
            reps_allowed(PLUS, alts, reps) && extglob_matches(replaced(p, pi, close, reps), n);
        let k = choose|k: int| 0 <= k < alts.len() && alts[k] == reps[0];
        let t = reps.drop_first();
        assert forall|i: int| 0 <= i < t.len() implies alts.contains(#[trigger] t[i])
            && t[i].len() > 0 by {
            assert(t[i] == reps[i + 1]);
        }
        assert(tail_run(alts, t, 1));
        assert(replaced(p, pi, close, reps) =~= pre + alts[k] + t.flatten() + suf);
        assert(tail_matches(pre + alts[k], alts, suf, n, 1));
    }
    if exists|k: int|
        0 <= k < alts.len() && tail_matches(pre + #[trigger] alts[k], alts, suf, n, 1) {
        let k = choose|k: int|
            0 <= k < alts.len() && tail_matches(pre + #[trigger] alts[k], alts, suf, n, 1);
        let t = choose|reps: Seq<Seq<u8>>| #[trigger]
            tail_run(alts, reps, 1) && extglob_matches(pre + alts[k] + reps.flatten() + suf, n);
        let full = seq![alts[k]] + t;
        lemma_flatten_cons(alts[k], t);
        assert forall|i: int| 0 <= i < full.len() implies alts.contains(#[trigger] full[i]) && (i
            >= 1 ==> full[i].len() > 0) by {
            if i > 0 {
                assert(full[i] == t[i - 1]);
            }
        }
        assert(reps_allowed(PLUS, alts, full));
        assert(replaced(p, pi, close, full) =~= pre + alts[k] + t.flatten() + suf);
    }
}

/// Every run that a group allows makes the pattern lighter, however the run is put together.
proof fn lemma_runs_lighter(p: Seq<u8>, pi: int, close: int)
    requires
        first_ext_group(p, 0) == Some((pi, close)),
    ensures
        ({
            let alts = alternatives_of(p.subrange(pi + 2, close));
            let pre = p.take(pi);
            let suf = p.skip(close + 1);
            &&& tail_lighter(pre, alts, suf, 0, weight(p))
            &&& weight(pre + suf) < weight(p)
            &&& forall|k: int|
                0 <= k < alts.len() ==> weight(pre + #[trigger] alts[k] + suf) < weight(p)
            &&& forall|k: int|
                0 <= k < alts.len() ==> tail_lighter(
                    pre + #[trigger] alts[k],
                    alts,
                    suf,
                    1,
                    weight(p),
                )
        }),
{
    lemma_first_ext_group(p, 0);
    let alts = alternatives_of(p.subrange(pi + 2, close));
    let pre = p.take(pi);
    let suf = p.skip(close + 1);
    assert forall|reps: Seq<Seq<u8>>| #[trigger] tail_run(alts, reps, 0) implies weight(
        pre + reps.flatten() + suf,
    ) < weight(p) by {
        lemma_weight_falls(p, pi, close, reps);
    }
    let none = Seq::<Seq<u8>>::empty();
    lemma_weight_falls(p, pi, close, none);
    assert(pre + none.flatten() + suf =~= pre + suf);
    assert forall|k: int| 0 <= k < alts.len() implies weight(pre + #[trigger] alts[k] + suf)
        < weight(p) by {
        let one = seq![alts[k]];
        one.lemma_flatten_one_element();
        lemma_weight_falls(p, pi, close, one);
    }
    assert forall|k: int| 0 <= k < alts.len() implies tail_lighter(
        pre + #[trigger] alts[k],
        alts,
        suf,
        1,
        weight(p),
    ) by {
        assert forall|reps: Seq<Seq<u8>>| #[trigger] tail_run(alts, reps, 1) implies weight(
            pre + alts[k] + reps.flatten() + suf,
        ) < weight(p) by {
            let full = seq![alts[k]] + reps;
            lemma_flatten_cons(alts[k], reps);
            assert forall|i: int| 0 <= i < full.len() implies alts.contains(#[trigger] full[i]) by {
                if i > 0 {
                    assert(full[i] == reps[i - 1]);
                }
            }
            lemma_weight_falls(p, pi, close, full);
            assert(pre + full.flatten() + suf =~= pre + alts[k] + reps.flatten() + suf);
        }
    }
}

fn extglob_match_recursive(pattern: &[u8], name: &[u8]) -> (r: bool)
    ensures
        r == extglob_matches(pattern@, name@),
    decreases weight(pattern@), 23nat, 0nat,
{
    let ghost p = pattern@;
    let ghost n = name@;
    match find_extglob_operator(pattern) {
        None => glob_match_inner(pattern, name),
        Some((pi, op, close)) => {
            proof {
                lemma_first_ext_group(p, 0);
                lemma_extglob_group(p, n);
                lemma_runs_lighter(p, pi as int, close as int);
            }
            assert(close < pattern.len());
            let alternatives = split_alternatives(
                vstd::slice::slice_subrange(pattern, pi + 2, close),
            );
            let prefix = vstd::slice::slice_subrange(pattern, 0, pi);
            let suffix = vstd::slice::slice_subrange(pattern, close + 1, pattern.len());
            let ghost w = weight(p);
            assert(prefix@ =~= p.take(pi as int));
            assert(suffix@ =~= p.skip(close + 1));
            if op == AT {
                proof {
                    lemma_one_run(AT, p, pi as int, close as int, n);
                }
                extglob_match_one(prefix, &alternatives, suffix, name, Ghost(w))
            } else if op == QUESTION {
                proof {
                    lemma_opt_run(p, pi as int, close as int, n);
                }
                let empty: Vec<u8> = Vec::new();
                let plain = build_combined(prefix, empty.as_slice(), suffix);
                assert(plain@ =~= p.take(pi as int) + p.skip(close + 1));
                extglob_match_recursive(plain.as_slice(), name) || extglob_match_one(
                    prefix,
                    &alternatives,
                    suffix,
                    name,
                    Ghost(w),
                )
            } else if op == STAR {
                proof {
                    lemma_star_run(p, pi as int, close as int, n);
                }
                extglob_star(prefix, &alternatives, suffix, name, 0, Ghost(w))
            } else if op == PLUS {
                proof {
                    lemma_plus_run(p, pi as int, close as int, n);
                }
                extglob_plus(prefix, &alternatives, suffix, name, Ghost(w))
            } else {
                proof {
                    lemma_one_run(BANG, p, pi as int, close as int, n);
                }
                if extglob_match_one(prefix, &alternatives, suffix, name, Ghost(w)) {
                    return false;
                }
                let mut any: Vec<u8> = Vec::new();
                any.push(STAR);
                assert(any@ =~= seq![STAR]);
                let wildcard = build_combined(prefix, any.as_slice(), suffix);
                glob_match_inner(wildcard.as_slice(), name)
            }
        },
    }
}

/// Matches a name against an extended glob.
///
/// `?(a|b)` stands for none or one of the alternatives, `*(a|b)` for any number, `+(a|b)` for
/// at least one, `@(a|b)` for exactly one and `!(a|b)` for anything else; what stands outside
/// the groups is an ordinary glob.
pub fn extglob_match(pattern: &str, name: &str) -> (r: bool)
    ensures
        r == extglob_matches(encode_utf8(pattern@), encode_utf8(name@)),
{
    extglob_match_recursive(pattern.as_bytes(), name.as_bytes())
}

/// Whether a pattern holds the opening of an extended group.
pub fn has_extglob_pattern(pattern: &str) -> (r: bool)
    ensures
        r == has_ext_op(encode_utf8(pattern@)),
{
    let bytes = pattern.as_bytes();
    let ghost p = encode_utf8(pattern@);
    let mut i: usize = 0;
    while i < bytes.len() && bytes.len() - i > 1
        invariant
            p == bytes@,
            p == encode_utf8(pattern@),
            i <= p.len(),
            forall|k: int| k < i ==> !ext_op_at(p, k),
        decreases p.len() - i,
    {
        let op: u8 = bytes[i];
        if bytes[i + 1] == LPAREN && (op == QUESTION || op == STAR || op == PLUS || op == AT || op
            == BANG) {
            assert(ext_op_at(p, i as int));
            return true;
        }
        i = i + 1;
    }
    false
}

/// Whether a file name matches a pattern under the given shell options: a leading `.` must be
/// matched by a leading `.` unless `dotglob` is on.
pub open spec fn glob_ext_matches(
    pattern: Seq<char>,
    name: Seq<char>,
    dotglob: bool,
    extglob: bool,
) -> bool {
    let p = encode_utf8(pattern);
    let n = encode_utf8(name);
    &&& (n.len() > 0 && n[0] == DOT) ==> (dotglob || (p.len() > 0 && p[0] == DOT))
    &&& if extglob && has_ext_op(p) {
        extglob_matches(p, n)
    } else {
        glob_matches(p, n)
    }
}

/// Matches a file name against a pattern under the `dotglob` and `extglob` options.
pub fn glob_match_ext(pattern: &str, name: &str, dotglob: bool, extglob: bool) -> (r: bool)
    ensures
        r == glob_ext_matches(pattern@, name@, dotglob, extglob),
{
    let p = pattern.as_bytes();
    let n = name.as_bytes();
    if n.len() > 0 && n[0] == DOT && !(p.len() > 0 && p[0] == DOT) && !dotglob {
        return false;
    }
    if extglob && has_extglob_pattern(pattern) {
        return extglob_match(pattern, name);
    }
    glob_match_inner(p, n)
}

/// Whether a byte is an ASCII letter or digit.
pub open spec fn is_word_byte(b: u8) -> bool {
    0x30 <= b <= 0x39 || 0x41 <= b <= 0x5a || 0x61 <= b <= 0x7a
}

/// Whether all bytes are ASCII letters or digits.
pub open spec fn is_word(w: Seq<u8>) -> bool {
    forall|i: int| 0 <= i < w.len() ==> is_word_byte(#[trigger] w[i])
}

proof fn lemma_word_depth(w: Seq<u8>)
    requires
        is_word(w),
    ensures
        depth(w) == 0,
        alternatives_of(w) == seq![w],
    decreases w.len(),
{
    if w.len() > 0 {
        let v = w.drop_last();
        assert forall|i: int| 0 <= i < v.len() implies is_word_byte(#[trigger] v[i]) by {
            assert(v[i] == w[i]);
        }
        lemma_word_depth(v);
        assert(is_word_byte(w[w.len() - 1]));
        assert(v.push(w.last()) =~= w);
        assert(alternatives_of(w) =~= seq![w]);
    } else {
        assert(w =~= Seq::empty());
    }
}

proof fn lemma_word_glob(p: Seq<u8>, i: int, n: Seq<u8>, j: int)
    requires
        is_word(p),
        0 <= i <= p.len(),
        0 <= j <= n.len(),
    ensures
        glob_at(p, i, n, j) <==> p.skip(i) == n.skip(j),
    decreases p.len() - i,
{
    if i == p.len() {
        assert(p.skip(i) =~= Seq::empty());
        if j == n.len() {
            assert(n.skip(j) =~= Seq::empty());
        }
    } else {
        assert(is_word_byte(p[i]));
        if j < n.len() {
            lemma_word_glob(p, i + 1, n, j + 1);
            if p.skip(i) == n.skip(j) {
                assert(p.skip(i)[0] == n.skip(j)[0]);
                assert(p.skip(i + 1) =~= p.skip(i).skip(1));
                assert(n.skip(j + 1) =~= n.skip(j).skip(1));
            }
            if p.skip(i + 1) == n.skip(j + 1) && p[i] == n[j] {
                assert(p.skip(i) =~= seq![p[i]] + p.skip(i + 1));
                assert(n.skip(j) =~= seq![n[j]] + n.skip(j + 1));
            }
        } else {
            assert(n.skip(j).len() == 0);
        }
    }
}

proof fn lemma_no_group(p: Seq<u8>, i: int)
    requires
        is_word(p),
        0 <= i,
    ensures
        first_ext_group(p, i) is None,
    decreases p.len() - i,
{
    if i < p.len() {
        if i + 1 < p.len() {
            assert(is_word_byte(p[i + 1]));
        }
        lemma_no_group(p, i + 1);
    }
}

proof fn lemma_copies(w: Seq<u8>, k: nat)
    requires
        is_word(w),
    ensures
        is_word(copies(w, k)),
        copies(w, k).len() == w.len() * k,
        Seq::new(k, |i: int| w).flatten() == copies(w, k),
    decreases k,
{
    if k > 0 {
        lemma_copies(w, (k - 1) as nat);
        let rest = copies(w, (k - 1) as nat);
        assert forall|i: int| 0 <= i < copies(w, k).len() implies is_word_byte(
            #[trigger] copies(w, k)[i],
        ) by {
            if i < w.len() {
                assert(copies(w, k)[i] == w[i]);
            } else {
                assert(copies(w, k)[i] == rest[i - w.len()]);
            }
        }
        assert(w.len() * k == w.len() + w.len() * (k - 1)) by (nonlinear_arith)
            requires
                k > 0,
        ;
        let all = Seq::new(k, |i: int| w);
        assert(all.drop_first() =~= Seq::new((k - 1) as nat, |i: int| w));
    } else {
        assert(Seq::new(0, |i: int| w) =~= Seq::<Seq<u8>>::empty());
    }
}

/// The pattern of an operator on a word.
pub open spec fn word_group(op: u8, w: Seq<u8>) -> Seq<u8> {
    seq![op, LPAREN] + w + seq![RPAREN]
}

/// Copies of a word match `*(word)` in any number up to twenty, `+(word)` where there is at least
/// one, `?(word)` where there is at most one, and `@(word)` where there is just one.
pub proof fn law_copies_of_a_word(op: u8, w: Seq<u8>, k: nat)
    requires
        op == STAR || op == PLUS || op == QUESTION || op == AT,
        is_word(w),
        w.len() > 0,
        k <= 20,
    ensures
        extglob_matches(word_group(op, w), copies(w, k)) <==> if op == STAR {
            true
        } else if op == PLUS {
            k >= 1
        } else if op == QUESTION {
            k <= 1
        } else {
            k == 1
        },
{
    let p = word_group(op, w);
    let n = copies(w, k);
    let close = w.len() as int + 2;
    lemma_word_depth(w);
    assert(p.subrange(2, close) =~= w);
    assert(is_matching_paren(p, 2, close));
    lemma_matching_paren_found(p, 2);
    let c = matching_paren(p, 2)->0;
    assert(c == close) by {
        if c < close {
            assert(p[c] == w[c - 2]);
            assert(is_word_byte(w[c - 2]));
        }
    }
    assert(p[0] == op && p[1] == LPAREN);
    assert(first_ext_group(p, 0) == Some((0int, close)));
    lemma_extglob_group(p, n);
    let alts = alternatives_of(w);
    assert forall|reps: Seq<Seq<u8>>| #[trigger]
        reps_allowed(op, alts, reps) implies extglob_matches(replaced(p, 0, close, reps), n)
        == (reps.len() == k) by {
        assert forall|i: int| 0 <= i < reps.len() implies reps[i] == w by {
            assert(alts.contains(reps[i]));
        }
        assert(reps =~= Seq::new(reps.len(), |i: int| w));
        lemma_copies(w, reps.len());
        lemma_copies(w, k);
        let q = copies(w, reps.len());
        assert(replaced(p, 0, close, reps) =~= q);
        lemma_no_group(q, 0);
        lemma_word_glob(q, 0, n, 0);
        assert(q.skip(0) =~= q);
        assert(n.skip(0) =~= n);
        if q == n {
            assert(w.len() * reps.len() == w.len() * k);
            assert(reps.len() == k) by (nonlinear_arith)
                requires
                    w.len() * reps.len() == w.len() * k,
                    w.len() > 0,
            ;
        }
    }
    let mine = Seq::new(k, |i: int| w);
    assert(alts[0] == w);
    assert forall|i: int| 0 <= i < mine.len() implies alts.contains(#[trigger] mine[i]) by {}
    assert(reps_allowed(op, alts, mine) <==> if op == STAR {
        true
    } else if op == PLUS {
        k >= 1
    } else if op == QUESTION {
        k <= 1
    } else {
        k == 1
    });
    let some_run = exists|reps: Seq<Seq<u8>>|
        #![trigger reps_allowed(p[0], alts, reps)]
        reps_allowed(p[0], alts, reps) && extglob_matches(replaced(p, 0, close, reps), n);
    assert(extglob_matches(p, n) == some_run);
    if some_run {
        let reps = choose|reps: Seq<Seq<u8>>|
            #![trigger reps_allowed(p[0], alts, reps)]
            reps_allowed(p[0], alts, reps) && extglob_matches(replaced(p, 0, close, reps), n);
        assert(reps.len() == k);
        assert(reps_allowed(op, alts, reps));
    }
    if reps_allowed(op, alts, mine) {
        assert(extglob_matches(replaced(p, 0, close, mine), n));
    }
}

proof fn lemma_two_words(v: Seq<u8>, w: Seq<u8>)
    requires
        is_word(v),
        is_word(w),
    ensures
        depth(v + seq![PIPE] + w) == 0,
        alternatives_of(v + seq![PIPE] + w) == seq![v, w],
    decreases w.len(),
{
    let s = v + seq![PIPE] + w;
    lemma_word_depth(v);
    if w.len() == 0 {
        assert(s.drop_last() =~= v);
        assert(w =~= Seq::<u8>::empty());
        assert(seq![v].push(Seq::<u8>::empty()) =~= seq![v, w]);
    } else {
        let u = w.drop_last();
        assert forall|i: int| 0 <= i < u.len() implies is_word_byte(#[trigger] u[i]) by {
            assert(u[i] == w[i]);
        }
        lemma_two_words(v, u);
        assert(is_word_byte(w[w.len() - 1]));
        assert(s.drop_last() =~= v + seq![PIPE] + u);
        assert(u.push(w.last()) =~= w);
        assert(seq![v, u].drop_last().push(w) =~= seq![v, w]);
    }
}

/// `@(v|w)` matches the one word or the other, `?(v|w)` nothing as well, and `!(v|w)` all but the two.
pub proof fn law_choice_of_words(op: u8, v: Seq<u8>, w: Seq<u8>, name: Seq<u8>)
    requires
        op == AT || op == QUESTION || op == BANG,
        is_word(v),
        is_word(w),
    ensures
        extglob_matches(seq![op, LPAREN] + v + seq![PIPE] + w + seq![RPAREN], name) <==> (if op
            == AT {
            name == v || name == w
        } else if op == QUESTION {
            name.len() == 0 || name == v || name == w
        } else {
            name != v && name != w
        }),
{
    let body = v + seq![PIPE] + w;
    let p = seq![op, LPAREN] + v + seq![PIPE] + w + seq![RPAREN];
    let close = body.len() as int + 2;
    lemma_two_words(v, w);
    assert(p.subrange(2, close) =~= body);
    assert(p[close] == RPAREN);
    assert(is_matching_paren(p, 2, close));
    lemma_matching_paren_found(p, 2);
    let c = matching_paren(p, 2)->0;
    assert(c == close) by {
        if c < close {
            if c - 2 < v.len() {
                assert(p[c] == v[c - 2]);
                assert(is_word_byte(v[c - 2]));
            } else if c - 2 > v.len() {
                assert(p[c] == w[c - 3 - v.len()]);
                assert(is_word_byte(w[c - 3 - v.len()]));
            }
        }
    }
    assert(p[0] == op && p[1] == LPAREN);
    assert(first_ext_group(p, 0) == Some((0int, close)));
    lemma_extglob_group(p, name);
    let alts = alternatives_of(body);
    assert(alts == seq![v, w]);
    assert(alts[0] == v && alts[1] == w);
    let none = Seq::<u8>::empty();
    let no_rep = Seq::<Seq<u8>>::empty();
    assert(p.take(0) =~= none);
    assert(p.skip(close + 1) =~= none);
    assert forall|reps: Seq<Seq<u8>>| #[trigger]
        reps_allowed(op, alts, reps) implies extglob_matches(replaced(p, 0, close, reps), name) == (
    if reps.len() == 0 {
        name.len() == 0
    } else {
        name == reps[0]
    }) by {
        let q = replaced(p, 0, close, reps);
        if reps.len() == 0 {
            assert(reps =~= no_rep);
            assert(q =~= none);
            lemma_no_group(none, 0);
            lemma_word_glob(none, 0, name, 0);
            assert(none.skip(0) =~= none);
        } else {
            assert(reps.len() == 1);
            assert(alts.contains(reps[0]));
            assert(reps[0] == v || reps[0] == w);
            reps.lemma_flatten_one_element();
            assert(q =~= reps[0]);
            lemma_no_group(q, 0);
            lemma_word_glob(q, 0, name, 0);
            assert(q.skip(0) =~= q);
        }
        assert(name.skip(0) =~= name);
    }
    let one = seq![v];
    let two = seq![w];
    assert(one[0] == v && two[0] == w);
    assert(alts.contains(v) && alts.contains(w));
    assert(reps_allowed(op, alts, one));
    assert(reps_allowed(op, alts, two));
    assert(op == QUESTION ==> reps_allowed(op, alts, no_rep));
    let some_run = exists|reps: Seq<Seq<u8>>|
        #![trigger reps_allowed(p[0], alts, reps)]
        reps_allowed(p[0], alts, reps) && extglob_matches(replaced(p, 0, close, reps), name);
    assert(some_run == (name == v || name == w || (op == QUESTION && name.len() == 0))) by {
        if some_run {
            let reps = choose|reps: Seq<Seq<u8>>|
                #![trigger reps_allowed(p[0], alts, reps)]
                reps_allowed(p[0], alts, reps) && extglob_matches(
                    replaced(p, 0, close, reps),
                    name,
                );
            assert(reps_allowed(op, alts, reps));
            if reps.len() > 0 {
                assert(alts.contains(reps[0]));
            }
        }
        if name == v {
            assert(extglob_matches(replaced(p, 0, close, one), name));
        }
        if name == w {
            assert(extglob_matches(replaced(p, 0, close, two), name));
        }
        if op == QUESTION && name.len() == 0 {
            assert(extglob_matches(replaced(p, 0, close, no_rep), name));
        }
    }
    assert(none + seq![STAR] + none =~= seq![STAR]);
    law_leading_star(none, name);
}

/// A name that starts with a dot is matched only by a pattern that does, unless `dotglob` is on;
/// other names are matched as they are.
pub proof fn law_hidden_names(
    pattern: Seq<char>,
    name: Seq<char>,
    dotglob: bool,
    extglob: bool,
)
    ensures
        ({
            let p = encode_utf8(pattern);
            let n = encode_utf8(name);
            let hidden = n.len() > 0 && n[0] == 0x2e;
            &&& hidden && !dotglob && !(p.len() > 0 && p[0] == 0x2e) ==> !glob_ext_matches(
                pattern,
                name,
                dotglob,
                extglob,
            )
            &&& (!hidden || dotglob || (p.len() > 0 && p[0] == 0x2e)) && !extglob
                ==> glob_ext_matches(pattern, name, dotglob, extglob) == glob_matches(p, n)
            &&& (!hidden || dotglob || (p.len() > 0 && p[0] == 0x2e)) && extglob && has_ext_op(p)
                ==> glob_ext_matches(pattern, name, dotglob, extglob) == extglob_matches(p, n)
        }),
{
}

} // verus!
