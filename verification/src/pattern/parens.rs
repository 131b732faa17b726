//! Parenthesis structure of byte patterns: nesting depth, matching parentheses, top-level
//! alternatives, and a weight that falls whenever a group is replaced by its alternatives.
use crate::ascii::{LPAREN, PIPE, RPAREN};
use crate::views::{lemma_rows_push, rows};
use vstd::prelude::*;

verus! {

/// The nesting depth after `s`, or `-1` once a `)` has closed more than was opened.
pub open spec fn depth(s: Seq<u8>) -> int
    decreases s.len(),
{
    if s.len() == 0 {
        0
    } else {
        let d = depth(s.drop_last());
        if d < 0 {
            -1
        } else if s.last() == LPAREN {
            d + 1
        } else if s.last() == RPAREN {
            d - 1
        } else {
            d
        }
    }
}

/// Whether `close` is the `)` that ends the group whose body starts at `open`: the body is
/// balanced.
pub open spec fn is_matching_paren(p: Seq<u8>, open: int, close: int) -> bool {
    &&& 0 <= open <= close < p.len()
    &&& p[close] == RPAREN
    &&& depth(p.subrange(open, close)) == 0
}

/// The `)` that ends the group whose body starts at `open`.
pub open spec fn matching_paren(p: Seq<u8>, open: int) -> Option<int> {
    if exists|c: int| is_matching_paren(p, open, c) {
        Some(choose|c: int| is_matching_paren(p, open, c))
    } else {
        None
    }
}

/// The pieces of `s` between the `|` that stand outside every parenthesis.
pub open spec fn alternatives_of(s: Seq<u8>) -> Seq<Seq<u8>>
    decreases s.len(),
{
    if s.len() == 0 {
        seq![Seq::empty()]
    } else {
        let r = alternatives_of(s.drop_last());
        if s.last() == PIPE && depth(s.drop_last()) == 0 {
            r.push(Seq::empty())
        } else {
            r.drop_last().push(r.last().push(s.last()))
        }
    }
}

pub proof fn lemma_depth_prefix(s: Seq<u8>, k: int)
    requires
        0 <= k <= s.len(),
        depth(s) >= 0,
    ensures
        depth(s.take(k)) >= 0,
    decreases s.len(),
{
    if k == s.len() {
        assert(s.take(k) =~= s);
    } else {
        lemma_depth_prefix(s.drop_last(), k);
        assert(s.drop_last().take(k) =~= s.take(k));
    }
}

/// Only one parenthesis matches.
pub proof fn lemma_matching_paren_unique(p: Seq<u8>, open: int, a: int, b: int)
    requires
        is_matching_paren(p, open, a),
        is_matching_paren(p, open, b),
    ensures
        a == b,
{
    if a < b {
        lemma_no_match_before(p, open, a, b);
    }
    if b < a {
        lemma_no_match_before(p, open, b, a);
    }
}

proof fn lemma_no_match_before(p: Seq<u8>, open: int, a: int, b: int)
    requires
        is_matching_paren(p, open, a),
        a < b,
    ensures
        !is_matching_paren(p, open, b),
{
    let s = p.subrange(open, b);
    let t = p.subrange(open, a + 1);
    assert(t.drop_last() =~= p.subrange(open, a));
    assert(t.last() == RPAREN);
    if is_matching_paren(p, open, b) {
        lemma_depth_prefix(s, a + 1 - open);
        assert(s.take(a + 1 - open) =~= t);
    }
}

pub proof fn lemma_matching_paren(p: Seq<u8>, open: int, close: int)
    requires
        is_matching_paren(p, open, close),
    ensures
        matching_paren(p, open) == Some(close),
{
    let c = choose|c: int| is_matching_paren(p, open, c);
    lemma_matching_paren_unique(p, open, c, close);
}

pub proof fn lemma_matching_paren_found(p: Seq<u8>, open: int)
    ensures
        matching_paren(p, open) matches Some(c) ==> is_matching_paren(p, open, c),
{
}

/// Finds the `)` that ends the group whose body starts at `open`.
pub fn find_matching_paren(pattern: &[u8], open: usize) -> (r: Option<usize>)
    requires
        open <= pattern@.len(),
    ensures
        match r {
            Some(c) => matching_paren(pattern@, open as int) == Some(c as int)
                && is_matching_paren(pattern@, open as int, c as int),
            None => matching_paren(pattern@, open as int) is None,
        },
{
    let ghost p = pattern@;
    let mut level: usize = 0;
    let mut i: usize = open;
    while i < pattern.len()
        invariant
            p == pattern@,
            open <= i <= p.len(),
            depth(p.subrange(open as int, i as int)) == level,
            level <= i - open,
            forall|c: int| c < i ==> !is_matching_paren(p, open as int, c),
        decreases p.len() - i,
    {
        let ghost next = p.subrange(open as int, i + 1);
        assert(next.drop_last() =~= p.subrange(open as int, i as int));
        assert(i < pattern.len());
        if pattern[i] == LPAREN {
            level = level + 1;
        } else if pattern[i] == RPAREN {
            if level == 0 {
                proof {
                    lemma_matching_paren(p, open as int, i as int);
                }
                return Some(i);
            }
            level = level - 1;
        }
        i = i + 1;
    }
    assert forall|c: int| !is_matching_paren(p, open as int, c) by {}
    None
}

/// Splits `pat` at the `|` that stand outside every parenthesis.
pub fn split_alternatives(pat: &[u8]) -> (r: Vec<Vec<u8>>)
    requires
        depth(pat@) >= 0,
    ensures
        rows(r@) == alternatives_of(pat@),
{
    let ghost p = pat@;
    broadcast use lemma_rows_push;

    let mut result: Vec<Vec<u8>> = Vec::new();
    let mut current: Vec<u8> = Vec::new();
    let mut level: usize = 0;
    let mut i: usize = 0;
    proof {
        lemma_depth_prefix(p, 0);
        assert(p.take(0) =~= Seq::empty());
        assert(rows(result@).push(current@) =~= alternatives_of(p.take(0)));
    }
    while i < pat.len()
        invariant
            p == pat@,
            i <= p.len(),
            depth(p) >= 0,
            level == depth(p.take(i as int)),
            level <= i,
            rows(result@).push(current@) == alternatives_of(p.take(i as int)),
        decreases p.len() - i,
    {
        let ghost before = rows(result@).push(current@);
        proof {
            lemma_depth_prefix(p, i + 1);
            assert(p.take(i + 1).drop_last() =~= p.take(i as int));
            assert(before.drop_last() =~= rows(result@));
        }
        let b: u8 = pat[i];
        if b == LPAREN {
            level = level + 1;
            current.push(b);
        } else if b == RPAREN {
            level = level - 1;
            current.push(b);
        } else if b == PIPE && level == 0 {
            let piece = current;
            current = Vec::new();
            result.push(piece);
            assert(rows(result@) =~= before);
            assert(current@ =~= Seq::<u8>::empty());
        } else {
            current.push(b);
        }
        i = i + 1;
    }
    assert(p.take(i as int) =~= p);
    result.push(current);
    assert(rows(result@) =~= alternatives_of(p));
    result
}

/// The open levels after one byte more: `(` opens a level of weight zero, `)` closes one and
/// makes its weight count for more than any allowed number of copies of it.
pub open spec fn level_step(st: Seq<nat>, b: u8) -> Seq<nat> {
    if b == LPAREN {
        st.push(0)
    } else if b == RPAREN && st.len() > 1 {
        let t = st.drop_last();
        t.drop_last().push(t.last() + 1 + 21 * st.last())
    } else {
        st
    }
}

/// The weights of the open levels after `s`.
pub open spec fn levels(st: Seq<nat>, s: Seq<u8>) -> Seq<nat>
    decreases s.len(),
{
    if s.len() == 0 {
        st
    } else {
        level_step(levels(st, s.drop_last()), s.last())
    }
}

pub open spec fn total(st: Seq<nat>) -> nat
    decreases st.len(),
{
    if st.len() == 0 {
        0
    } else {
        total(st.drop_last()) + st.last()
    }
}

/// The weight of a pattern: what its closed groups weigh, nested groups counted many times.
pub open spec fn weight(p: Seq<u8>) -> nat {
    total(levels(seq![0nat], p))
}

/// What a balanced piece weighs.
pub open spec fn piece_weight(s: Seq<u8>) -> nat {
    levels(seq![0nat], s)[0]
}

spec fn raise(st: Seq<nat>, a: Seq<nat>) -> Seq<nat> {
    st.drop_last().push(st.last() + a[0]) + a.drop_first()
}

proof fn lemma_levels_len(st: Seq<nat>, s: Seq<u8>)
    requires
        st.len() >= 1,
    ensures
        levels(st, s).len() >= 1,
    decreases s.len(),
{
    if s.len() > 0 {
        lemma_levels_len(st, s.drop_last());
    }
}

proof fn lemma_levels_concat(st: Seq<nat>, a: Seq<u8>, b: Seq<u8>)
    ensures
        levels(st, a + b) == levels(levels(st, a), b),
    decreases b.len(),
{
    if b.len() == 0 {
        assert(a + b =~= a);
    } else {
        assert((a + b).drop_last() =~= a + b.drop_last());
        lemma_levels_concat(st, a, b.drop_last());
    }
}

proof fn lemma_levels_raise(st: Seq<nat>, s: Seq<u8>)
    requires
        st.len() >= 1,
        depth(s) >= 0,
    ensures
        levels(seq![0nat], s).len() == depth(s) + 1,
        levels(st, s) == raise(st, levels(seq![0nat], s)),
    decreases s.len(),
{
    if s.len() == 0 {
        assert(raise(st, seq![0nat]) =~= st);
    } else {
        lemma_levels_raise(st, s.drop_last());
        let a = levels(seq![0nat], s.drop_last());
        assert(level_step(raise(st, a), s.last()) =~= raise(st, level_step(a, s.last())));
    }
}

/// A balanced piece adds its weight to the innermost open level.
proof fn lemma_levels_balanced(st: Seq<nat>, s: Seq<u8>)
    requires
        st.len() >= 1,
        depth(s) == 0,
    ensures
        levels(st, s) == st.drop_last().push(st.last() + piece_weight(s)),
{
    lemma_levels_raise(st, s);
    let a = levels(seq![0nat], s);
    assert(raise(st, a) =~= st.drop_last().push(st.last() + a[0]));
}

proof fn lemma_depth_concat(a: Seq<u8>, b: Seq<u8>)
    requires
        depth(a) == 0,
        depth(b) == 0,
    ensures
        depth(a + b) == 0,
{
    lemma_depth_concat_any(a, b);
}

proof fn lemma_depth_concat_any(a: Seq<u8>, b: Seq<u8>)
    requires
        depth(a) == 0,
        depth(b) >= 0,
    ensures
        depth(a + b) == depth(b),
    decreases b.len(),
{
    if b.len() == 0 {
        assert(a + b =~= a);
    } else {
        assert((a + b).drop_last() =~= a + b.drop_last());
        lemma_depth_concat_any(a, b.drop_last());
    }
}

/// The alternatives of a balanced body are balanced, and none outweighs the body.
pub proof fn lemma_alternatives(s: Seq<u8>)
    requires
        depth(s) >= 0,
    ensures
        alternatives_of(s).len() >= 1,
        depth(alternatives_of(s).last()) == depth(s),
        levels(seq![0nat], alternatives_of(s).last()).len() == levels(seq![0nat], s).len(),
        piece_weight(alternatives_of(s).last()) <= piece_weight(s),
        levels(seq![0nat], alternatives_of(s).last()).drop_first() == levels(
            seq![0nat],
            s,
        ).drop_first(),
        forall|i: int|
            0 <= i < alternatives_of(s).len() - 1 ==> depth(#[trigger] alternatives_of(s)[i]) == 0
                && piece_weight(alternatives_of(s)[i]) <= piece_weight(s),
    decreases s.len(),
{
    let st = seq![0nat];
    lemma_levels_raise(st, s);
    if s.len() > 0 {
        let t = s.drop_last();
        let r = alternatives_of(t);
        lemma_alternatives(t);
        lemma_levels_raise(st, t);
        let q = alternatives_of(s);
        if s.last() == PIPE && depth(t) == 0 {
            assert(q.last() =~= Seq::<u8>::empty());
            assert(levels(st, q.last()) =~= st);
            assert(levels(st, q.last()).drop_first() =~= levels(st, s).drop_first());
            assert(forall|i: int| 0 <= i < q.len() - 1 ==> q[i] == r[i]);
        } else {
            let l = r.last().push(s.last());
            assert(q.last() == l);
            assert(l.drop_last() =~= r.last());
            let x = levels(st, r.last());
            let y = levels(st, t);
            assert(forall|i: int| 1 <= i < x.len() ==> x[i] == y[i]) by {
                assert forall|i: int| 1 <= i < x.len() implies x[i] == y[i] by {
                    assert(x.drop_first()[i - 1] == y.drop_first()[i - 1]);
                }
            }
            assert(levels(st, l).drop_first() =~= levels(st, s).drop_first());
            assert(forall|i: int| 0 <= i < q.len() - 1 ==> q[i] == r[i]);
        }
    }
}

spec fn below(a: Seq<nat>, b: Seq<nat>) -> bool {
    &&& a.len() == b.len()
    &&& a.len() >= 1
    &&& forall|i: int| 0 <= i < a.len() ==> a[i] <= b[i]
    &&& exists|i: int| 0 <= i < a.len() && #[trigger] a[i] < b[i]
}

proof fn lemma_below_step(a: Seq<nat>, b: Seq<nat>, c: u8)
    requires
        below(a, b),
    ensures
        below(level_step(a, c), level_step(b, c)),
{
    let i = choose|i: int| 0 <= i < a.len() && #[trigger] a[i] < b[i];
    let x = level_step(a, c);
    let y = level_step(b, c);
    if c == LPAREN {
        assert(x[i] < y[i]);
    } else if c == RPAREN && a.len() > 1 {
        if i == a.len() - 1 {
            assert(x[i - 1] < y[i - 1]);
        } else {
            assert(x[i] < y[i]);
        }
    }
}

proof fn lemma_below_levels(a: Seq<nat>, b: Seq<nat>, s: Seq<u8>)
    requires
        below(a, b),
    ensures
        below(levels(a, s), levels(b, s)),
    decreases s.len(),
{
    if s.len() > 0 {
        lemma_below_levels(a, b, s.drop_last());
        lemma_below_step(levels(a, s.drop_last()), levels(b, s.drop_last()), s.last());
    }
}

proof fn lemma_total_le(a: Seq<nat>, b: Seq<nat>)
    requires
        a.len() == b.len(),
        forall|i: int| 0 <= i < a.len() ==> a[i] <= b[i],
    ensures
        total(a) <= total(b),
        (exists|i: int| 0 <= i < a.len() && #[trigger] a[i] < b[i]) ==> total(a) < total(b),
    decreases a.len(),
{
    if a.len() > 0 {
        lemma_total_le(a.drop_last(), b.drop_last());
        if exists|i: int| 0 <= i < a.len() && #[trigger] a[i] < b[i] {
            let i = choose|i: int| 0 <= i < a.len() && #[trigger] a[i] < b[i];
            if i < a.len() - 1 {
                assert(a.drop_last()[i] < b.drop_last()[i]);
            }
        }
    }
}

proof fn lemma_copies(alts: Seq<Seq<u8>>, reps: Seq<Seq<u8>>, w: nat)
    requires
        forall|i: int|
            0 <= i < reps.len() ==> depth(#[trigger] reps[i]) == 0 && piece_weight(reps[i]) <= w,
    ensures
        depth(reps.flatten()) == 0,
        piece_weight(reps.flatten()) <= reps.len() * w,
    decreases reps.len(),
{
    if reps.len() > 0 {
        let t = reps.drop_first();
        assert forall|i: int| 0 <= i < t.len() implies depth(#[trigger] t[i]) == 0
            && piece_weight(t[i]) <= w by {
            assert(t[i] == reps[i + 1]);
        }
        lemma_copies(alts, t, w);
        lemma_depth_concat(reps[0], t.flatten());
        lemma_levels_concat(seq![0nat], reps[0], t.flatten());
        lemma_levels_balanced(seq![0nat], reps[0]);
        lemma_levels_balanced(levels(seq![0nat], reps[0]), t.flatten());
        assert(reps.len() * w == t.len() * w + w) by (nonlinear_arith)
            requires
                reps.len() == t.len() + 1,
        ;
    }
}

/// Replacing a group by at most twenty of its alternatives makes the pattern lighter.
pub proof fn lemma_weight_falls(p: Seq<u8>, pi: int, close: int, reps: Seq<Seq<u8>>)
    requires
        0 <= pi,
        pi + 1 < p.len(),
        p[pi] != LPAREN,
        p[pi] != RPAREN,
        p[pi + 1] == LPAREN,
        is_matching_paren(p, pi + 2, close),
        reps.len() <= 20,
        forall|i: int|
            0 <= i < reps.len() ==> alternatives_of(p.subrange(pi + 2, close)).contains(
                #[trigger] reps[i],
            ),
    ensures
        weight(p.take(pi) + reps.flatten() + p.skip(close + 1)) < weight(p),
{
    let z = seq![0nat];
    let pre = p.take(pi);
    let inner = p.subrange(pi + 2, close);
    let suf = p.skip(close + 1);
    let alts = alternatives_of(inner);
    let w = piece_weight(inner);
    lemma_alternatives(inner);
    assert forall|i: int| 0 <= i < reps.len() implies depth(#[trigger] reps[i]) == 0
        && piece_weight(reps[i]) <= w by {
        let j = choose|j: int| 0 <= j < alts.len() && alts[j] == reps[i];
        if j < alts.len() - 1 {
            assert(depth(alts[j]) == 0);
        }
    }
    lemma_copies(alts, reps, w);
    let st = levels(z, pre);
    lemma_levels_len(z, pre);
    // The group itself.
    let head = pre.push(p[pi]);
    let head2 = head.push(LPAREN);
    let body = head2 + inner;
    let group = body.push(RPAREN);
    assert(head.drop_last() =~= pre);
    assert(head2.drop_last() =~= head);
    assert(group.drop_last() =~= body);
    assert(levels(z, head) == st);
    assert(levels(z, head2) == st.push(0));
    lemma_levels_concat(z, head2, inner);
    lemma_levels_balanced(st.push(0), inner);
    assert(levels(z, body) =~= st.push(w));
    let heavy = st.drop_last().push((st.last() + 1 + 21 * w) as nat);
    assert(levels(z, group) =~= heavy);
    assert(p =~= group + suf);
    lemma_levels_concat(z, group, suf);
    // Its replacement.
    let mid = reps.flatten();
    lemma_levels_concat(z, pre, mid);
    lemma_levels_balanced(st, mid);
    let light = st.drop_last().push(st.last() + piece_weight(mid));
    assert(levels(z, pre + mid) == light);
    lemma_levels_concat(z, pre + mid, suf);
    assert(reps.len() * w <= 20 * w) by (nonlinear_arith)
        requires
            reps.len() <= 20,
            w >= 0,
    ;
    let t = (st.len() - 1) as int;
    assert(light[t] < heavy[t]);
    assert(below(light, heavy));
    lemma_below_levels(light, heavy, suf);
    lemma_total_le(levels(light, suf), levels(heavy, suf));
}

} // verus!
