//! Shell globbing: `*`, `?` and `[...]` classes, matched byte by byte.
use crate::ascii::{BANG, CARET, DASH, LBRACKET, QUESTION, RBRACKET, STAR};
use vstd::prelude::*;

verus! {

/// Whether the class whose items start at `i` begins with a negation mark.
pub open spec fn class_negated(p: Seq<u8>, i: int) -> bool {
    i < p.len() && (p[i] == BANG || p[i] == CARET)
}

/// The position of the first item of the class whose body starts at `i`.
pub open spec fn class_first_item(p: Seq<u8>, i: int) -> int {
    if class_negated(p, i) {
        i + 1
    } else {
        i
    }
}

/// Whether the item at `i` is a range `lo-hi`.
pub open spec fn class_item_is_range(p: Seq<u8>, i: int) -> bool {
    i + 2 < p.len() && p[i + 1] == DASH
}

/// The position just past the item at `i`.
pub open spec fn class_item_end(p: Seq<u8>, i: int) -> int {
    if class_item_is_range(p, i) {
        i + 3
    } else {
        i + 1
    }
}

/// Whether the item at `i` contains `ch`.
pub open spec fn class_item_has(p: Seq<u8>, i: int, ch: u8) -> bool {
    if class_item_is_range(p, i) {
        p[i] <= ch && ch <= p[i + 2]
    } else {
        p[i] == ch
    }
}

/// Whether another item starts at `i`: the first item may be a `]`, a later one may not.
pub open spec fn class_has_item(p: Seq<u8>, i: int, first: bool) -> bool {
    0 <= i < p.len() && (first || p[i] != RBRACKET)
}

/// The position at which the items that start at `i` stop.
pub open spec fn class_items_end(p: Seq<u8>, i: int, first: bool) -> int
    decreases p.len() - i,
{
    if class_has_item(p, i, first) {
        class_items_end(p, class_item_end(p, i), false)
    } else {
        i
    }
}

/// Whether one of the items that start at `i` contains `ch`.
pub open spec fn class_items_have(p: Seq<u8>, i: int, first: bool, ch: u8) -> bool
    decreases p.len() - i,
{
    class_has_item(p, i, first) && (class_item_has(p, i, ch) || class_items_have(
        p,
        class_item_end(p, i),
        false,
        ch,
    ))
}

/// The position past the class whose body starts at `i`, its `]` included where there is one.
pub open spec fn class_end(p: Seq<u8>, i: int) -> int {
    let e = class_items_end(p, class_first_item(p, i), true);
    if e < p.len() && p[e] == RBRACKET {
        e + 1
    } else {
        e
    }
}

/// Whether the class whose body starts at `i` accepts `ch`.
pub open spec fn class_accepts(p: Seq<u8>, i: int, ch: u8) -> bool {
    class_items_have(p, class_first_item(p, i), true, ch) != class_negated(p, i)
}

/// The position past the one-byte element at `i` (`?`, a class or a literal).
pub open spec fn glob_elem_end(p: Seq<u8>, i: int) -> int {
    if p[i] == LBRACKET {
        class_end(p, i + 1)
    } else {
        i + 1
    }
}

/// Whether the one-byte element at `i` accepts `ch`.
pub open spec fn glob_elem_accepts(p: Seq<u8>, i: int, ch: u8) -> bool {
    if p[i] == QUESTION {
        true
    } else if p[i] == LBRACKET {
        class_accepts(p, i + 1, ch)
    } else {
        p[i] == ch
    }
}

/// Whether the pattern from `i` on matches the whole of the name from `j` on: a `*` stands
/// for any run of bytes, every other element for exactly one byte that it accepts.
pub open spec fn glob_at(p: Seq<u8>, i: int, n: Seq<u8>, j: int) -> bool
    decreases p.len() - i, n.len() - j,
{
    if i >= p.len() {
        j == n.len()
    } else if i < 0 || j < 0 || j > n.len() {
        false
    } else if p[i] == STAR {
        glob_at(p, i + 1, n, j) || (j < n.len() && glob_at(p, i, n, j + 1))
    } else {
        &&& i < glob_elem_end(p, i) <= p.len()
        &&& 0 <= j < n.len()
        &&& glob_elem_accepts(p, i, n[j])
        &&& glob_at(p, glob_elem_end(p, i), n, j + 1)
    }
}

/// Whether the glob pattern `p` matches the whole name `n`.
pub open spec fn glob_matches(p: Seq<u8>, n: Seq<u8>) -> bool {
    glob_at(p, 0, n, 0)
}

proof fn lemma_class_items_end(p: Seq<u8>, i: int, first: bool)
    requires
        0 <= i <= p.len(),
    ensures
        i <= class_items_end(p, i, first) <= p.len(),
    decreases p.len() - i,
{
    if class_has_item(p, i, first) {
        lemma_class_items_end(p, class_item_end(p, i), false);
    }
}

pub proof fn lemma_glob_elem_end(p: Seq<u8>, i: int)
    requires
        0 <= i < p.len(),
    ensures
        i < glob_elem_end(p, i) <= p.len(),
{
    if p[i] == LBRACKET {
        lemma_class_items_end(p, class_first_item(p, i + 1), true);
    }
}

/// `m` one-byte elements, none of them `*`, lead from position `a` to position `b`.
spec fn seg(p: Seq<u8>, a: int, b: int, m: nat) -> bool
    decreases m,
{
    if m == 0 {
        a == b
    } else {
        0 <= a < p.len() && p[a] != STAR && seg(p, glob_elem_end(p, a), b, (m - 1) as nat)
    }
}

/// The `m` elements from `a` on accept the bytes of `n` from `k` on.
spec fn seg_accepts(p: Seq<u8>, a: int, n: Seq<u8>, k: int, m: nat) -> bool
    decreases m,
{
    m == 0 || (0 <= k < n.len() && glob_elem_accepts(p, a, n[k]) && seg_accepts(
        p,
        glob_elem_end(p, a),
        n,
        k + 1,
        (m - 1) as nat,
    ))
}

proof fn lemma_seg_glob(p: Seq<u8>, a: int, b: int, m: nat, n: Seq<u8>, k: int)
    requires
        seg(p, a, b, m),
        0 <= a <= p.len(),
        0 <= k,
    ensures
        glob_at(p, a, n, k) <==> (seg_accepts(p, a, n, k, m) && glob_at(p, b, n, k + m)),
        seg_accepts(p, a, n, k, m) ==> m == 0 || k + m <= n.len(),
    decreases m,
{
    if m > 0 {
        lemma_glob_elem_end(p, a);
        lemma_seg_glob(p, glob_elem_end(p, a), b, (m - 1) as nat, n, k + 1);
    }
}

proof fn lemma_seg_extend(p: Seq<u8>, a: int, b: int, m: nat, n: Seq<u8>, k: int)
    requires
        seg(p, a, b, m),
        0 <= k,
        0 <= b < p.len(),
        p[b] != STAR,
        seg_accepts(p, a, n, k, m),
        k + m < n.len(),
        glob_elem_accepts(p, b, n[k + m]),
    ensures
        seg(p, a, glob_elem_end(p, b), m + 1),
        seg_accepts(p, a, n, k, m + 1),
    decreases m,
{
    if m > 0 {
        lemma_seg_extend(p, glob_elem_end(p, a), b, (m - 1) as nat, n, k + 1);
    } else {
        assert(seg(p, glob_elem_end(p, b), glob_elem_end(p, b), 0));
        assert(seg_accepts(p, glob_elem_end(p, b), n, k + 1, 0));
    }
}

/// Matches `ch` against the class whose body starts at `start`, and returns the position past
/// the class with the verdict.
pub fn glob_match_char_class(pattern: &[u8], start: usize, ch: u8) -> (r: (usize, bool))
    requires
        start <= pattern@.len(),
    ensures
        r.0 == class_end(pattern@, start as int),
        r.1 == class_accepts(pattern@, start as int, ch),
        r.0 <= pattern@.len(),
{
    let mut pi: usize = start;
    let negate: bool = pi < pattern.len() && (pattern[pi] == BANG || pattern[pi] == CARET);
    if negate {
        pi = pi + 1;
    }
    let ghost at = pi as int;
    let mut matched: bool = false;
    let mut first: bool = true;
    while pi < pattern.len() && (first || pattern[pi] != RBRACKET)
        invariant
            at == class_first_item(pattern@, start as int),
            pi <= pattern@.len(),
            class_items_end(pattern@, at, true) == class_items_end(pattern@, pi as int, first),
            class_items_have(pattern@, at, true, ch) == (matched || class_items_have(
                pattern@,
                pi as int,
                first,
                ch,
            )),
        decreases pattern@.len() - pi,
    {
        let (next_pi, item_matched) = glob_match_char_class_item(pattern, pi, ch);
        first = false;
        matched = matched || item_matched;
        pi = next_pi;
    }
    if pi < pattern.len() && pattern[pi] == RBRACKET {
        pi = pi + 1;
    }
    (pi, matched != negate)
}

/// Matches `ch` against the class item at `pi`, and returns the position past the item with
/// the verdict.
pub fn glob_match_char_class_item(pattern: &[u8], pi: usize, ch: u8) -> (r: (usize, bool))
    requires
        pi < pattern@.len(),
    ensures
        r.0 == class_item_end(pattern@, pi as int),
        r.1 == class_item_has(pattern@, pi as int, ch),
        pi < r.0 <= pattern@.len(),
{
    if pattern.len() - pi > 2 && pattern[pi + 1] == DASH {
        let lo: u8 = pattern[pi];
        let hi: u8 = pattern[pi + 2];
        return (pi + 3, ch >= lo && ch <= hi);
    }
    (pi + 1, pattern[pi] == ch)
}

/// What the element at one pattern position does with one byte of the name.
pub enum GlobPatternStep {
    Consume(usize),
    Star,
    Class(usize, bool),
    Mismatch,
}

/// Classifies the pattern element at `pi` against the byte `ch`.
pub fn glob_step(pattern: &[u8], pi: usize, ch: u8) -> (r: GlobPatternStep)
    ensures
        r is Star <==> (pi < pattern@.len() && pattern@[pi as int] == STAR),
        r is Mismatch <==> (pi >= pattern@.len() || (pattern@[pi as int] != STAR
            && pattern@[pi as int] != LBRACKET && !glob_elem_accepts(pattern@, pi as int, ch))),
        r matches GlobPatternStep::Consume(e) ==> e == glob_elem_end(pattern@, pi as int)
            && pattern@[pi as int] != LBRACKET && glob_elem_accepts(pattern@, pi as int, ch),
        r matches GlobPatternStep::Class(e, m) ==> e == glob_elem_end(pattern@, pi as int)
            && pattern@[pi as int] == LBRACKET && m == glob_elem_accepts(pattern@, pi as int, ch),
{
    if pi >= pattern.len() {
        return GlobPatternStep::Mismatch;
    }
    let b: u8 = pattern[pi];
    if b == QUESTION {
        GlobPatternStep::Consume(pi + 1)
    } else if b == STAR {
        GlobPatternStep::Star
    } else if b == LBRACKET {
        let (new_pi, matched) = glob_match_char_class(pattern, pi + 1, ch);
        GlobPatternStep::Class(new_pi, matched)
    } else if b == ch {
        GlobPatternStep::Consume(pi + 1)
    } else {
        GlobPatternStep::Mismatch
    }
}

/// Matches a glob pattern against a whole name by remembering the last `*` and, on a
/// mismatch, letting that `*` stand for one byte more.
#[verifier::spinoff_prover]
pub fn glob_match_inner(pattern: &[u8], name: &[u8]) -> (r: bool)
    ensures
        r == glob_matches(pattern@, name@),
{
    let ghost p = pattern@;
    let ghost n = name@;
    let mut pi: usize = 0;
    let mut ni: usize = 0;
    let mut star: Option<usize> = None;
    let mut star_ni: usize = 0;

    while ni < name.len()
        invariant
            p == pattern@,
            n == name@,
            pi <= p.len(),
            star_ni <= ni <= n.len(),
            star is None ==> star_ni == 0 && glob_matches(p, n) == glob_at(
                p,
                pi as int,
                n,
                ni as int,
            ),
            star matches Some(sp) ==> {
                &&& sp < pi
                &&& sp < p.len()
                &&& p[sp as int] == STAR
                &&& glob_matches(p, n) == glob_at(p, sp as int, n, star_ni as int)
                &&& seg(p, sp + 1, pi as int, (ni - star_ni) as nat)
                &&& seg_accepts(p, sp + 1, n, star_ni as int, (ni - star_ni) as nat)
            },
        decreases
                (if star is None {
                    n.len() as int + 1
                } else {
                    n.len() - star_ni
                }),
                n.len() - ni,
                p.len() - pi,
    {
        let ch: u8 = name[ni];
        let step = glob_step(pattern, pi, ch);
        match step {
            GlobPatternStep::Star => {
                proof {
                    if star is Some {
                        lemma_star_supersedes(p, star->0 as int, pi as int, n, star_ni as int, ni as int);
                    }
                }
                assert(pi < pattern.len());
                star = Some(pi);
                star_ni = ni;
                pi = pi + 1;
                assert(seg(p, pi as int, pi as int, 0));
                assert(seg_accepts(p, pi as int, n, ni as int, 0));
            },
            GlobPatternStep::Consume(new_pi) | GlobPatternStep::Class(new_pi, true) => {
                proof {
                    lemma_glob_elem_end(p, pi as int);
                    if star is Some {
                        lemma_seg_extend(
                            p,
                            star->0 + 1,
                            pi as int,
                            (ni - star_ni) as nat,
                            n,
                            star_ni as int,
                        );
                    }
                }
                pi = new_pi;
                ni = ni + 1;
            },
            GlobPatternStep::Class(_, false) | GlobPatternStep::Mismatch => {
                assert(!glob_at(p, pi as int, n, ni as int));
                match star {
                    None => {
                        return false;
                    },
                    Some(sp) => {
                        proof {
                            lemma_seg_glob(
                                p,
                                sp + 1,
                                pi as int,
                                (ni - star_ni) as nat,
                                n,
                                star_ni as int,
                            );
                        }
                        pi = sp + 1;
                        star_ni = star_ni + 1;
                        ni = star_ni;
                        assert(seg(p, pi as int, pi as int, 0));
                        assert(seg_accepts(p, pi as int, n, ni as int, 0));
                    },
                }
            },
        }
    }
    proof {
        if star is Some {
            lemma_star_at_end(p, star->0 as int, pi as int, n, star_ni as int);
        }
    }
    while pi < pattern.len() && pattern[pi] == STAR
        invariant
            p == pattern@,
            n == name@,
            pi <= p.len(),
            glob_matches(p, n) == glob_at(p, pi as int, n, n.len() as int),
        decreases p.len() - pi,
    {
        pi = pi + 1;
    }
    pi == pattern.len()
}

/// A `*` at `s` stands for any run of bytes: what follows it matches from some later position.
pub proof fn lemma_glob_star(p: Seq<u8>, s: int, n: Seq<u8>, j: int)
    requires
        0 <= s < p.len(),
        p[s] == STAR,
        0 <= j <= n.len(),
    ensures
        glob_at(p, s, n, j) <==> (exists|k: int|
            j <= k <= n.len() && #[trigger] glob_at(p, s + 1, n, k)),
    decreases n.len() - j,
{
    assert(glob_at(p, s, n, j) == (glob_at(p, s + 1, n, j) || (j < n.len() && glob_at(
        p,
        s,
        n,
        j + 1,
    ))));
    if j < n.len() {
        lemma_glob_star(p, s, n, j + 1);
        if glob_at(p, s, n, j + 1) {
            let k = choose|k: int| j + 1 <= k <= n.len() && #[trigger] glob_at(p, s + 1, n, k);
            assert(j <= k && glob_at(p, s + 1, n, k));
        }
    }
    if exists|k: int| j <= k <= n.len() && #[trigger] glob_at(p, s + 1, n, k) {
        let k = choose|k: int| j <= k <= n.len() && #[trigger] glob_at(p, s + 1, n, k);
        if k > j {
            assert(glob_at(p, s + 1, n, k) && j + 1 <= k);
        }
    }
}

/// A later `*` takes over from an earlier one: what the earlier could absorb the later can.
proof fn lemma_star_supersedes(p: Seq<u8>, s: int, t: int, n: Seq<u8>, sj: int, j: int)
    requires
        0 <= s < t < p.len(),
        p[s] == STAR,
        p[t] == STAR,
        0 <= sj <= j <= n.len(),
        seg(p, s + 1, t, (j - sj) as nat),
        seg_accepts(p, s + 1, n, sj, (j - sj) as nat),
    ensures
        glob_at(p, s, n, sj) == glob_at(p, t, n, j),
{
    let m = (j - sj) as nat;
    lemma_glob_star(p, s, n, sj);
    lemma_glob_star(p, t, n, j);
    if glob_at(p, s, n, sj) {
        let k = choose|k: int| sj <= k <= n.len() && #[trigger] glob_at(p, s + 1, n, k);
        lemma_seg_glob(p, s + 1, t, m, n, k);
        assert(glob_at(p, t, n, k + m));
        lemma_glob_star(p, t, n, k + m);
        let k2 = choose|k2: int| k + m <= k2 <= n.len() && #[trigger] glob_at(p, t + 1, n, k2);
        assert(j <= k2 && glob_at(p, t + 1, n, k2));
    }
    if glob_at(p, t, n, j) {
        lemma_seg_glob(p, s + 1, t, m, n, sj);
        assert(glob_at(p, s + 1, n, sj));
    }
}

/// At the end of the name the last `*` has no byte left to give.
proof fn lemma_star_at_end(p: Seq<u8>, s: int, t: int, n: Seq<u8>, sj: int)
    requires
        0 <= s < p.len(),
        p[s] == STAR,
        0 <= sj <= n.len(),
        seg(p, s + 1, t, (n.len() - sj) as nat),
        seg_accepts(p, s + 1, n, sj, (n.len() - sj) as nat),
    ensures
        glob_at(p, s, n, sj) == glob_at(p, t, n, n.len() as int),
{
    let m = (n.len() - sj) as nat;
    lemma_glob_star(p, s, n, sj);
    lemma_seg_glob(p, s + 1, t, m, n, sj);
    if glob_at(p, s, n, sj) {
        let k = choose|k: int| sj <= k <= n.len() && #[trigger] glob_at(p, s + 1, n, k);
        lemma_seg_glob(p, s + 1, t, m, n, k);
        assert(k == sj);
    }
    if glob_at(p, t, n, n.len() as int) {
        assert(glob_at(p, s + 1, n, sj));
    }
}

/// A class means the same with a byte put in front of the pattern.
proof fn lemma_items_shift(b: u8, p: Seq<u8>, i: int, first: bool, ch: u8)
    requires
        0 <= i,
    ensures
        class_items_end(seq![b] + p, i + 1, first) == class_items_end(p, i, first) + 1,
        class_items_have(seq![b] + p, i + 1, first, ch) == class_items_have(p, i, first, ch),
    decreases p.len() - i,
{
    let q = seq![b] + p;
    if i < p.len() {
        assert(q[i + 1] == p[i]);
        if i + 1 < p.len() {
            assert(q[i + 2] == p[i + 1]);
        }
        if i + 2 < p.len() {
            assert(q[i + 3] == p[i + 2]);
        }
        if class_has_item(p, i, first) {
            lemma_items_shift(b, p, class_item_end(p, i), false, ch);
        }
    }
}

/// A pattern means the same with a byte put in front of it, and a name with bytes taken off it.
proof fn lemma_glob_shift(b: u8, p: Seq<u8>, i: int, n: Seq<u8>, j: int, k: int)
    requires
        0 <= i,
        0 <= k <= j,
        k <= n.len(),
    ensures
        glob_at(seq![b] + p, i + 1, n, j) == glob_at(p, i, n.skip(k), j - k),
    decreases p.len() - i, n.len() - j,
{
    let q = seq![b] + p;
    let m = n.skip(k);
    if i < p.len() && j <= n.len() {
        assert(q[i + 1] == p[i]);
        if p[i] == STAR {
            lemma_glob_shift(b, p, i + 1, n, j, k);
            if j < n.len() {
                lemma_glob_shift(b, p, i, n, j + 1, k);
            }
        } else {
            lemma_glob_elem_end(p, i);
            if p[i] == LBRACKET {
                let c = if j < n.len() {
                    n[j]
                } else {
                    0u8
                };
                if i + 1 < p.len() {
                    assert(q[i + 2] == p[i + 1]);
                }
                lemma_items_shift(b, p, class_first_item(p, i + 1), true, c);
                let e = class_items_end(p, class_first_item(p, i + 1), true);
                if 0 <= e < p.len() {
                    assert(q[e + 1] == p[e]);
                }
            }
            assert(glob_elem_end(q, i + 1) == glob_elem_end(p, i) + 1);
            if j < n.len() {
                assert(m[j - k] == n[j]);
                lemma_glob_shift(b, p, glob_elem_end(p, i), n, j + 1, k);
            }
        }
    }
}

proof fn lemma_star_from(rest: Seq<u8>, n: Seq<u8>, j: int)
    requires
        0 <= j <= n.len(),
    ensures
        glob_at(seq![STAR] + rest, 0, n, j) <==> exists|k: int|
            j <= k <= n.len() && #[trigger] glob_matches(rest, n.skip(k)),
    decreases n.len() - j,
{
    let q = seq![STAR] + rest;
    assert(q[0] == STAR);
    lemma_glob_shift(STAR, rest, 0, n, j, j);
    assert(glob_at(q, 1, n, j) == glob_matches(rest, n.skip(j)));
    if j < n.len() {
        lemma_star_from(rest, n, j + 1);
    }
}

/// A leading `*` stands for any beginning of the name: the pattern matches exactly when the rest of
/// it matches some end of the name.
pub proof fn law_leading_star(rest: Seq<u8>, name: Seq<u8>)
    ensures
        glob_matches(seq![STAR] + rest, name) <==> exists|k: int|
            0 <= k <= name.len() && #[trigger] glob_matches(rest, name.skip(k)),
        glob_matches(seq![STAR], name),
{
    lemma_star_from(rest, name, 0);
    let none = Seq::<u8>::empty();
    lemma_star_from(none, name, 0);
    assert(seq![STAR] + none =~= seq![STAR]);
    assert(glob_matches(none, name.skip(name.len() as int)));
}

/// A pattern means the same without what stands before a position in it.
proof fn lemma_glob_skip(p: Seq<u8>, a: int, i: int, n: Seq<u8>, j: int, k: int)
    requires
        0 <= a <= p.len(),
        0 <= i,
        0 <= k <= j,
        k <= n.len(),
    ensures
        glob_at(p, a + i, n, j) == glob_at(p.skip(a), i, n.skip(k), j - k),
    decreases a,
{
    if a == 0 {
        assert(p.skip(0) =~= p);
        let q = seq![0u8] + p;
        lemma_glob_shift(0u8, p, i, n, j, 0);
        assert(n.skip(0) =~= n);
        lemma_glob_shift(0u8, p, i, n, j, k);
    } else {
        let b = p[a - 1];
        assert(p.skip(a - 1) =~= seq![b] + p.skip(a));
        lemma_glob_skip(p, a - 1, i + 1, n, j, 0);
        assert(n.skip(0) =~= n);
        lemma_glob_shift(b, p.skip(a), i, n, j, k);
    }
}

/// The first element takes the first byte of the name, and the rest of the pattern the rest of it.
proof fn lemma_first_element(p: Seq<u8>, n: Seq<u8>)
    requires
        p.len() > 0,
        p[0] != STAR,
    ensures
        glob_matches(p, n) <==> n.len() > 0 && glob_elem_accepts(p, 0, n[0]) && glob_matches(
            p.skip(glob_elem_end(p, 0)),
            n.skip(1),
        ),
{
    lemma_glob_elem_end(p, 0);
    if n.len() > 0 {
        lemma_glob_skip(p, glob_elem_end(p, 0), 0, n, 1, 1);
    }
}

/// A pattern without `*`, `?` and `[` matches itself and nothing else.
pub proof fn law_plain_pattern_matches_itself(p: Seq<u8>, name: Seq<u8>)
    requires
        !p.contains(STAR),
        !p.contains(QUESTION),
        !p.contains(LBRACKET),
    ensures
        glob_matches(p, name) <==> name == p,
    decreases p.len(),
{
    if p.len() == 0 {
        if name.len() == 0 {
            assert(name =~= p);
        }
    } else {
        assert(p.contains(p[0]));
        lemma_first_element(p, name);
        let r = p.skip(1);
        assert forall|b: u8| #[trigger] r.contains(b) implies p.contains(b) by {
            let i = choose|i: int| 0 <= i < r.len() && r[i] == b;
            assert(p[i + 1] == b);
        }
        if name.len() > 0 {
            law_plain_pattern_matches_itself(r, name.skip(1));
            if name.skip(1) == r && name[0] == p[0] {
                assert(name =~= seq![name[0]] + name.skip(1));
                assert(p =~= seq![p[0]] + r);
            }
        }
    }
}

/// A leading byte without a meaning of its own stands for itself.
pub proof fn law_leading_byte(b: u8, rest: Seq<u8>, name: Seq<u8>)
    requires
        b != STAR,
        b != QUESTION,
        b != LBRACKET,
    ensures
        glob_matches(seq![b] + rest, name) <==> name.len() > 0 && name[0] == b && glob_matches(
            rest,
            name.skip(1),
        ),
{
    let p = seq![b] + rest;
    lemma_first_element(p, name);
    assert(p.skip(1) =~= rest);
}

/// A leading `?` stands for any one byte.
pub proof fn law_leading_question(rest: Seq<u8>, name: Seq<u8>)
    ensures
        glob_matches(seq![QUESTION] + rest, name) <==> name.len() > 0 && glob_matches(
            rest,
            name.skip(1),
        ),
{
    let p = seq![QUESTION] + rest;
    lemma_first_element(p, name);
    assert(p.skip(1) =~= rest);
}

/// Whether bytes between brackets stand for themselves, one by one.
pub open spec fn are_members(m: Seq<u8>) -> bool {
    &&& m.len() > 0
    &&& m[0] != BANG && m[0] != CARET
    &&& !m.contains(DASH)
    &&& !m.contains(RBRACKET)
}

/// The items from a position on, where members and a `]` are left.
proof fn lemma_members(p: Seq<u8>, i: int, m: Seq<u8>, first: bool, ch: u8)
    requires
        0 <= i,
        i + m.len() < p.len(),
        p.subrange(i, i + m.len()) == m,
        p[i + m.len()] == RBRACKET,
        !m.contains(DASH),
        !m.contains(RBRACKET),
        first ==> m.len() > 0,
    ensures
        class_items_end(p, i, first) == i + m.len(),
        class_items_have(p, i, first, ch) == m.contains(ch),
    decreases m.len(),
{
    if m.len() > 0 {
        assert(p[i] == p.subrange(i, i + m.len())[0]);
        assert(m.contains(m[0]));
        if m.len() > 1 {
            assert(p[i + 1] == p.subrange(i, i + m.len())[1]);
            assert(m.contains(m[1]));
        }
        let r = m.skip(1);
        assert(p.subrange(i + 1, i + 1 + r.len()) =~= r);
        assert forall|b: u8| #[trigger] r.contains(b) implies m.contains(b) by {
            let k = choose|k: int| 0 <= k < r.len() && r[k] == b;
            assert(m[k + 1] == b);
        }
        lemma_members(p, i + 1, r, false, ch);
        if m.contains(ch) && m[0] != ch {
            let k = choose|k: int| 0 <= k < m.len() && m[k] == ch;
            assert(r[k - 1] == ch);
        }
    } else {
        assert(!m.contains(ch));
    }
}

/// Brackets with members between them stand for one byte that is a member; with a `!` or a `^` in
/// front of the members, for one byte that is none.
pub proof fn law_leading_members(m: Seq<u8>, mark: u8, rest: Seq<u8>, name: Seq<u8>)
    requires
        are_members(m),
        mark == BANG || mark == CARET,
    ensures
        glob_matches(seq![LBRACKET] + m + seq![RBRACKET] + rest, name) <==> name.len() > 0
            && m.contains(name[0]) && glob_matches(rest, name.skip(1)),
        glob_matches(seq![LBRACKET, mark] + m + seq![RBRACKET] + rest, name) <==> name.len() > 0
            && !m.contains(name[0]) && glob_matches(rest, name.skip(1)),
{
    let k = m.len() as int;
    let p = seq![LBRACKET] + m + seq![RBRACKET] + rest;
    let q = seq![LBRACKET, mark] + m + seq![RBRACKET] + rest;
    let c = if name.len() > 0 {
        name[0]
    } else {
        0u8
    };
    assert(p.subrange(1, 1 + k) =~= m);
    assert(p[1 + k] == RBRACKET);
    assert(p[1] == m[0]);
    lemma_members(p, 1, m, true, c);
    lemma_first_element(p, name);
    assert(p.skip(2 + k) =~= rest);
    assert(q.subrange(2, 2 + k) =~= m);
    assert(q[2 + k] == RBRACKET);
    assert(q[1] == mark);
    lemma_members(q, 2, m, true, c);
    lemma_first_element(q, name);
    assert(q.skip(3 + k) =~= rest);
}

/// A range in brackets stands for one byte from its lower to its upper end, both included, and a
/// range with a `!` or a `^` in front of it for one byte outside.
pub proof fn law_leading_range(lo: u8, hi: u8, mark: u8, rest: Seq<u8>, name: Seq<u8>)
    requires
        lo != BANG,
        lo != CARET,
        mark == BANG || mark == CARET,
    ensures
        glob_matches(seq![LBRACKET, lo, DASH, hi, RBRACKET] + rest, name) <==> name.len() > 0 && lo
            <= name[0] <= hi && glob_matches(rest, name.skip(1)),
        glob_matches(seq![LBRACKET, mark, lo, DASH, hi, RBRACKET] + rest, name) <==> name.len() > 0
            && !(lo <= name[0] <= hi) && glob_matches(rest, name.skip(1)),
{
    let p = seq![LBRACKET, lo, DASH, hi, RBRACKET] + rest;
    let q = seq![LBRACKET, mark, lo, DASH, hi, RBRACKET] + rest;
    let c = if name.len() > 0 {
        name[0]
    } else {
        0u8
    };
    assert(p[1] == lo && p[2] == DASH && p[3] == hi && p[4] == RBRACKET);
    assert(!class_has_item(p, 4, false));
    assert(class_items_end(p, 4, false) == 4);
    assert(!class_items_have(p, 4, false, c));
    assert(class_items_end(p, 1, true) == 4);
    lemma_first_element(p, name);
    assert(p.skip(5) =~= rest);
    assert(q[1] == mark && q[2] == lo && q[3] == DASH && q[4] == hi && q[5] == RBRACKET);
    assert(!class_has_item(q, 5, false));
    assert(class_items_end(q, 5, false) == 5);
    assert(!class_items_have(q, 5, false, c));
    assert(class_items_end(q, 2, true) == 5);
    lemma_first_element(q, name);
    assert(q.skip(6) =~= rest);
}

/// More may stand in front of members: brackets with a range and members stand for one byte that is
/// in the range or a member.
pub proof fn law_range_before_members(
    lo: u8,
    hi: u8,
    m: Seq<u8>,
    rest: Seq<u8>,
    name: Seq<u8>,
)
    requires
        lo != BANG,
        lo != CARET,
        are_members(m),
    ensures
        glob_matches(seq![LBRACKET, lo, DASH, hi] + m + seq![RBRACKET] + rest, name)
            <==> name.len() > 0 && (lo <= name[0] <= hi || m.contains(name[0])) && glob_matches(
            rest,
            name.skip(1),
        ),
{
    let k = m.len() as int;
    let p = seq![LBRACKET, lo, DASH, hi] + m + seq![RBRACKET] + rest;
    let c = if name.len() > 0 {
        name[0]
    } else {
        0u8
    };
    assert(p[1] == lo && p[2] == DASH && p[3] == hi);
    assert(p.subrange(4, 4 + k) =~= m);
    assert(p[4 + k] == RBRACKET);
    assert(p[4] == m[0]);
    assert(m.contains(m[0]));
    lemma_members(p, 4, m, false, c);
    assert(class_items_end(p, 1, true) == 4 + k);
    lemma_first_element(p, name);
    assert(p.skip(5 + k) =~= rest);
}

} // verus!
