//! What the elements of a regular expression stand for.
use crate::ascii::{
    BACKSLASH, BANG, CARET, DASH, DOT, LBRACKET, LPAREN, PIPE, PLUS, QUESTION, RBRACKET, RPAREN,
    STAR,
};
use crate::pattern::glob::are_members;
use crate::pattern::regex_spec::{
    anchor_core, find_from, has_meta, is_quantifier, is_regex_metachar, lemma_class_stop,
    regex_spans, rx_alts, rx_cap, rx_cap_alts, rx_cap_rep, rx_class_has, rx_class_next,
    rx_class_stop, rx_close, rx_count, rx_elem_accepts, rx_elem_len, rx_group_alts, rx_quant,
    rx_rest, rx_search, rx_try,
};
use crate::text::lemma_utf8_concat;
use vstd::prelude::*;
use vstd::utf8::{encode_utf8, is_ascii_chars, is_ascii_chars_encode_utf8};

verus! {

/// Whether no quantifier starts a pattern.
pub open spec fn unquantified(rest: Seq<u8>) -> bool {
    rest.len() > 0 ==> !is_quantifier(rest[0])
}

/// Whether a byte has no meaning of its own in a regular expression.
pub open spec fn is_plain(b: u8) -> bool {
    b != DOT && b != LBRACKET && b != LPAREN && b != BACKSLASH && b != STAR && b != PLUS && b
        != QUESTION && b != PIPE && b != RPAREN
}

/// An element without a quantifier takes one byte, and the rest matches behind it.
proof fn lemma_one_byte(t: Seq<u8>, ti: int, elem: Seq<u8>, rest: Seq<u8>, must_end: bool)
    requires
        elem.len() > 0,
        elem[0] != LPAREN,
        rx_elem_len(elem + rest) == elem.len(),
        unquantified(rest),
    ensures
        rx_cap(t, ti, elem + rest, must_end) == if ti < t.len() && rx_elem_accepts(
            elem + rest,
            t[ti],
        ) {
            rx_cap(t, ti + 1, rest, must_end)
        } else {
            None
        },
{
    let p = elem + rest;
    let n = elem.len() as int;
    if rest.len() > 0 {
        assert(p[n] == rest[0]);
    }
    assert(rx_quant(p, n) == 0);
    assert(p.skip(n) =~= rest);
    assert(rx_rest(p, n) == rest);
}

/// A byte without a meaning of its own stands for itself, a `.` for any byte, and a byte behind a
/// backslash for itself: each takes one byte, and the rest of the pattern matches behind it.
pub proof fn law_single_bytes(t: Seq<u8>, ti: int, b: u8, rest: Seq<u8>, must_end: bool)
    requires
        0 <= ti <= t.len(),
        unquantified(rest),
    ensures
        is_plain(b) ==> rx_cap(t, ti, seq![b] + rest, must_end) == (if ti < t.len() && t[ti] == b {
            rx_cap(t, ti + 1, rest, must_end)
        } else {
            None
        }),
        rx_cap(t, ti, seq![DOT] + rest, must_end) == (if ti < t.len() {
            rx_cap(t, ti + 1, rest, must_end)
        } else {
            None
        }),
        rx_cap(t, ti, seq![BACKSLASH, b] + rest, must_end) == (if ti < t.len() && t[ti] == b {
            rx_cap(t, ti + 1, rest, must_end)
        } else {
            None
        }),
{
    assert((seq![b] + rest)[0] == b);
    assert((seq![DOT] + rest)[0] == DOT);
    let e = seq![BACKSLASH, b] + rest;
    assert(e[0] == BACKSLASH && e[1] == b && e.len() > 1);
    if is_plain(b) {
        lemma_one_byte(t, ti, seq![b], rest, must_end);
    }
    lemma_one_byte(t, ti, seq![DOT], rest, must_end);
    lemma_one_byte(t, ti, seq![BACKSLASH, b], rest, must_end);
}

/// Without a rest the pattern matches where it starts, or with an anchor at the end only there.
pub proof fn law_nothing_left(t: Seq<u8>, ti: int, must_end: bool)
    requires
        0 <= ti <= t.len(),
    ensures
        rx_cap(t, ti, Seq::empty(), must_end) == (if must_end && ti != t.len() {
            None
        } else {
            Some((ti, Seq::<(int, int)>::empty()))
        }),
{
}

proof fn lemma_class_shift(p: Seq<u8>, q: Seq<u8>, i: int, c: u8)
    requires
        1 <= i,
        q.len() == p.len() + 1,
        forall|k: int| 1 <= k < p.len() ==> #[trigger] q[k + 1] == p[k],
    ensures
        rx_class_stop(q, i + 1) == rx_class_stop(p, i) + 1,
        rx_class_has(q, i + 1, c) == rx_class_has(p, i, c),
    decreases p.len() - i,
{
    if i < p.len() {
        assert(q[i + 1] == p[i]);
        if i + 1 < p.len() {
            assert(q[i + 1 + 1] == p[i + 1]);
        }
        if i + 2 < p.len() {
            assert(q[i + 2 + 1] == p[i + 2]);
        }
        if p[i] != RBRACKET {
            lemma_class_shift(p, q, rx_class_next(p, i), c);
        }
    }
}

proof fn lemma_class_closes(p: Seq<u8>, i: int)
    requires
        1 <= i < p.len(),
        p.last() == RBRACKET,
        forall|k: int| 1 <= k < p.len() - 1 ==> #[trigger] p[k] != RBRACKET,
    ensures
        p.len() - 1 <= rx_class_stop(p, i) <= p.len(),
    decreases p.len() - i,
{
    lemma_class_stop(p, i);
    if p[i] != RBRACKET {
        let j = rx_class_next(p, i);
        if j < p.len() {
            lemma_class_closes(p, j);
        }
    }
}

/// A class that starts with a `^` or a `!` accepts exactly the bytes that the same class without
/// the mark does not accept: a text of one byte matches the one just where it does not match the
/// other.
pub proof fn law_negated_class_is_the_complement(m: Seq<u8>, mark: u8, c: u8)
    requires
        mark == CARET || mark == BANG,
        m.len() > 0 ==> m[0] != CARET && m[0] != BANG,
        !m.contains(RBRACKET),
    ensures
        ({
            let t = seq![c];
            let plain = seq![LBRACKET] + m + seq![RBRACKET];
            let negated = seq![LBRACKET, mark] + m + seq![RBRACKET];
            rx_cap(t, 0, negated, true) is Some <==> rx_cap(t, 0, plain, true) is None
        }),
{
    let t = seq![c];
    let none = Seq::<u8>::empty();
    let p = seq![LBRACKET] + m + seq![RBRACKET];
    let q = seq![LBRACKET, mark] + m + seq![RBRACKET];
    assert forall|k: int| 1 <= k < p.len() implies #[trigger] q[k + 1] == p[k] by {
        if k <= m.len() {
            assert(p[k] == m[k - 1]);
        }
    }
    assert forall|k: int| 1 <= k < p.len() - 1 implies #[trigger] p[k] != RBRACKET by {
        assert(p[k] == m[k - 1]);
        assert(m.contains(m[k - 1]));
    }
    if m.len() > 0 {
        assert(p[1] == m[0]);
    } else {
        assert(p[1] == RBRACKET);
    }
    assert(q[1] == mark && q[0] == LBRACKET && p[0] == LBRACKET);
    lemma_class_closes(p, 1);
    lemma_class_shift(p, q, 1, c);
    assert(p + none =~= p);
    assert(q + none =~= q);
    lemma_one_byte(t, 0, p, none, true);
    lemma_one_byte(t, 0, q, none, true);
}

proof fn lemma_members(p: Seq<u8>, i: int, m: Seq<u8>, c: u8)
    requires
        1 <= i,
        i + m.len() < p.len(),
        p.subrange(i, i + m.len()) == m,
        p[i + m.len()] == RBRACKET,
        !m.contains(DASH),
        !m.contains(RBRACKET),
    ensures
        rx_class_stop(p, i) == i + m.len(),
        rx_class_has(p, i, c) == m.contains(c),
    decreases m.len(),
{
    if m.len() > 0 {
        assert(p[i] == p.subrange(i, i + m.len())[0]);
        assert(m.contains(m[0]));
        if m.len() > 1 {
            assert(p[i + 1] == p.subrange(i, i + m.len())[1]);
            assert(m.contains(m[1]));
        }
        let r = m.skip(1);
        assert(p.subrange(i + 1, i + 1 + r.len()) =~= r);
        assert forall|b: u8| #[trigger] r.contains(b) implies m.contains(b) by {
            let k = choose|k: int| 0 <= k < r.len() && r[k] == b;
            assert(m[k + 1] == b);
        }
        lemma_members(p, i + 1, r, c);
        if m.contains(c) && m[0] != c {
            let k = choose|k: int| 0 <= k < m.len() && m[k] == c;
            assert(r[k - 1] == c);
        }
    } else {
        assert(!m.contains(c));
    }
}

/// A class with members takes one byte that is a member, and with a `^` or a `!` in front of them
/// one that is none.
pub proof fn law_class_of_members(
    t: Seq<u8>,
    ti: int,
    m: Seq<u8>,
    mark: u8,
    rest: Seq<u8>,
    must_end: bool,
)
    requires
        0 <= ti <= t.len(),
        are_members(m),
        mark == CARET || mark == BANG,
        unquantified(rest),
    ensures
        rx_cap(t, ti, seq![LBRACKET] + m + seq![RBRACKET] + rest, must_end) == (if ti < t.len()
            && m.contains(t[ti]) {
            rx_cap(t, ti + 1, rest, must_end)
        } else {
            None
        }),
        rx_cap(t, ti, seq![LBRACKET, mark] + m + seq![RBRACKET] + rest, must_end) == (if ti
            < t.len() && !m.contains(t[ti]) {
            rx_cap(t, ti + 1, rest, must_end)
        } else {
            None
        }),
{
    let k = m.len() as int;
    let c = if ti < t.len() {
        t[ti]
    } else {
        0u8
    };
    let e = seq![LBRACKET] + m + seq![RBRACKET];
    let f = seq![LBRACKET, mark] + m + seq![RBRACKET];
    let p = e + rest;
    let q = f + rest;
    assert(p.subrange(1, 1 + k) =~= m);
    assert(p[1 + k] == RBRACKET && p[1] == m[0] && p[0] == LBRACKET);
    assert(q.subrange(2, 2 + k) =~= m);
    assert(q[2 + k] == RBRACKET && q[1] == mark && q[0] == LBRACKET);
    lemma_members(p, 1, m, c);
    lemma_members(q, 2, m, c);
    lemma_one_byte(t, ti, e, rest, must_end);
    lemma_one_byte(t, ti, f, rest, must_end);
}

/// A range in a class takes one byte from its lower to its upper end, both included, and with a `^`
/// or a `!` in front of it one that is outside.
pub proof fn law_class_of_a_range(
    t: Seq<u8>,
    ti: int,
    lo: u8,
    hi: u8,
    mark: u8,
    rest: Seq<u8>,
    must_end: bool,
)
    requires
        0 <= ti <= t.len(),
        lo != CARET && lo != BANG && lo != RBRACKET,
        mark == CARET || mark == BANG,
        unquantified(rest),
    ensures
        rx_cap(t, ti, seq![LBRACKET, lo, DASH, hi, RBRACKET] + rest, must_end) == (if ti < t.len()
            && lo <= t[ti] <= hi {
            rx_cap(t, ti + 1, rest, must_end)
        } else {
            None
        }),
        rx_cap(t, ti, seq![LBRACKET, mark, lo, DASH, hi, RBRACKET] + rest, must_end) == (if ti
            < t.len() && !(lo <= t[ti] <= hi) {
            rx_cap(t, ti + 1, rest, must_end)
        } else {
            None
        }),
{
    let c = if ti < t.len() {
        t[ti]
    } else {
        0u8
    };
    let e = seq![LBRACKET, lo, DASH, hi, RBRACKET];
    let f = seq![LBRACKET, mark, lo, DASH, hi, RBRACKET];
    let p = e + rest;
    let q = f + rest;
    assert(p[0] == LBRACKET && p[1] == lo && p[2] == DASH && p[3] == hi && p[4] == RBRACKET);
    assert(q[0] == LBRACKET && q[1] == mark && q[2] == lo && q[3] == DASH && q[4] == hi && q[5]
        == RBRACKET);
    assert(rx_class_stop(p, 4) == 4);
    assert(!rx_class_has(p, 4, c));
    assert(rx_class_next(p, 1) == 4);
    assert(rx_class_stop(p, 1) == 4);
    assert(rx_class_stop(q, 5) == 5);
    assert(!rx_class_has(q, 5, c));
    assert(rx_class_next(q, 2) == 5);
    assert(rx_class_stop(q, 2) == 5);
    lemma_one_byte(t, ti, e, rest, must_end);
    lemma_one_byte(t, ti, f, rest, must_end);
}

/// Whether the `k` bytes from `ti` on are all `b`.
pub open spec fn all_are(t: Seq<u8>, ti: int, k: int, b: u8) -> bool {
    ti + k <= t.len() && forall|i: int| ti <= i < ti + k ==> #[trigger] t[i] == b
}

proof fn lemma_count(t: Seq<u8>, ti: int, p: Seq<u8>, b: u8)
    requires
        0 <= ti <= t.len(),
        p.len() > 0,
        p[0] == b,
        is_plain(b),
    ensures
        rx_count(t, ti, p) >= 0,
        all_are(t, ti, rx_count(t, ti, p), b),
        forall|k: int| 0 <= k && #[trigger] all_are(t, ti, k, b) ==> k <= rx_count(t, ti, p),
    decreases t.len() - ti,
{
    if ti < t.len() && t[ti] == b {
        lemma_count(t, ti + 1, p, b);
        let n = rx_count(t, ti + 1, p);
        assert(all_are(t, ti, 1 + n, b));
        assert forall|k: int| 0 <= k && #[trigger] all_are(t, ti, k, b) implies k <= 1 + n by {
            if k > 0 {
                assert(all_are(t, ti + 1, k - 1, b));
            }
        }
    } else {
        assert forall|k: int| 0 <= k && #[trigger] all_are(t, ti, k, b) implies k <= 0 by {
            if k > 0 {
                assert(t[ti] == b);
            }
        }
    }
}

/// The match of the rest of a pattern behind `k` bytes.
pub open spec fn behind(t: Seq<u8>, ti: int, k: int, rest: Seq<u8>, must_end: bool) -> Option<
    (int, Seq<(int, int)>),
> {
    rx_cap(t, ti + k, rest, must_end)
}

proof fn lemma_rep(t: Seq<u8>, ti: int, c: int, min: int, rest: Seq<u8>, must_end: bool)
    requires
        0 <= min,
    ensures
        match rx_cap_rep(t, ti, c, min, rest, must_end) {
            Some(h) => exists|k: int|
                min <= k <= c && #[trigger] behind(t, ti, k, rest, must_end) == Some(h) && forall|
                    j: int,
                |
                    k < j <= c ==> (#[trigger] behind(t, ti, j, rest, must_end)) is None,
            None => forall|j: int|
                min <= j <= c ==> (#[trigger] behind(t, ti, j, rest, must_end)) is None,
        },
    decreases c + 1,
{
    if c >= min && c >= 0 {
        let here = behind(t, ti, c, rest, must_end);
        if here is None {
            lemma_rep(t, ti, c - 1, min, rest, must_end);
        }
    }
}

/// Whether so many `b` can be taken.
pub open spec fn taken(t: Seq<u8>, ti: int, b: u8, min: int, max: Option<int>, k: int) -> bool {
    min <= k && all_are(t, ti, k, b) && (max matches Some(n) ==> k <= n)
}

/// Whether `r` is the match of the rest behind as many `b` as can be taken, at least `min` and at
/// most `max` of them where there is a limit.
pub open spec fn takes_most(
    t: Seq<u8>,
    ti: int,
    b: u8,
    min: int,
    max: Option<int>,
    rest: Seq<u8>,
    must_end: bool,
    r: Option<(int, Seq<(int, int)>)>,
) -> bool {
    match r {
        Some(h) => exists|k: int|
            taken(t, ti, b, min, max, k) && #[trigger] behind(t, ti, k, rest, must_end) == Some(h)
                && forall|j: int|
                k < j && taken(t, ti, b, min, max, j) ==> (#[trigger] behind(
                    t,
                    ti,
                    j,
                    rest,
                    must_end,
                )) is None,
        None => forall|j: int|
            taken(t, ti, b, min, max, j) ==> (#[trigger] behind(t, ti, j, rest, must_end)) is None,
    }
}

proof fn lemma_takes_most(
    t: Seq<u8>,
    ti: int,
    p: Seq<u8>,
    b: u8,
    min: int,
    rest: Seq<u8>,
    must_end: bool,
)
    requires
        0 <= ti <= t.len(),
        0 <= min,
        is_plain(b),
        p.len() > 0,
        p[0] == b,
    ensures
        takes_most(
            t,
            ti,
            b,
            min,
            None,
            rest,
            must_end,
            rx_cap_rep(t, ti, rx_count(t, ti, p), min, rest, must_end),
        ),
{
    let c = rx_count(t, ti, p);
    lemma_count(t, ti, p, b);
    lemma_rep(t, ti, c, min, rest, must_end);
    assert forall|j: int| min <= j implies taken(t, ti, b, min, None, j) == (j <= c) by {
        if j <= c {
            assert(all_are(t, ti, j, b));
        }
    }
}

/// A `*` behind a byte stands for any number of it, a `+` for at least one, a `?` for one or none;
/// as many are taken as the rest of the pattern allows.
pub proof fn law_quantifiers(t: Seq<u8>, ti: int, b: u8, rest: Seq<u8>, must_end: bool)
    requires
        0 <= ti <= t.len(),
        is_plain(b),
    ensures
        takes_most(t, ti, b, 0, None, rest, must_end, rx_cap(t, ti, seq![b, STAR] + rest, must_end)),
        takes_most(t, ti, b, 1, None, rest, must_end, rx_cap(t, ti, seq![b, PLUS] + rest, must_end)),
        takes_most(
            t,
            ti,
            b,
            0,
            Some(1),
            rest,
            must_end,
            rx_cap(t, ti, seq![b, QUESTION] + rest, must_end),
        ),
{
    let p = seq![b, STAR] + rest;
    assert(p[0] == b && p[1] == STAR);
    assert(p.skip(2) =~= rest);
    lemma_takes_most(t, ti, p, b, 0, rest, must_end);
    assert(rx_cap(t, ti, p, must_end) == rx_cap_rep(
        t,
        ti,
        rx_count(t, ti, p),
        0,
        rest,
        must_end,
    ));
    let q = seq![b, PLUS] + rest;
    assert(q[0] == b && q[1] == PLUS);
    assert(q.skip(2) =~= rest);
    lemma_takes_most(t, ti, q, b, 1, rest, must_end);
    assert(rx_cap(t, ti, q, must_end) == rx_cap_rep(
        t,
        ti,
        rx_count(t, ti, q),
        1,
        rest,
        must_end,
    ));
    let o = seq![b, QUESTION] + rest;
    assert(o[0] == b && o[1] == QUESTION);
    assert(o.skip(2) =~= rest);
    let r = rx_cap(t, ti, o, must_end);
    assert(taken(t, ti, b, 0, Some(1), 0));
    assert(taken(t, ti, b, 0, Some(1), 1) <==> ti < t.len() && t[ti] == b) by {
        if ti < t.len() && t[ti] == b {
            assert(all_are(t, ti, 1, b));
        }
        if all_are(t, ti, 1, b) {
            assert(t[ti] == b);
        }
    }
    if ti < t.len() && t[ti] == b && rx_cap(t, ti + 1, rest, must_end) is Some {
        assert(r == behind(t, ti, 1, rest, must_end));
    } else {
        assert(r == behind(t, ti, 0, rest, must_end));
    }
}

/// Whether `w` stands in `t` at a position.
pub open spec fn stands_at(t: Seq<u8>, ti: int, w: Seq<u8>) -> bool {
    ti + w.len() <= t.len() && t.subrange(ti, ti + w.len()) == w
}

/// Whether all bytes of a word stand for themselves.
pub open spec fn is_word(w: Seq<u8>) -> bool {
    forall|i: int| 0 <= i < w.len() ==> is_plain(#[trigger] w[i])
}

proof fn lemma_stands_step(t: Seq<u8>, ti: int, w: Seq<u8>)
    requires
        0 <= ti,
        w.len() > 0,
    ensures
        stands_at(t, ti, w) <==> ti < t.len() && t[ti] == w[0] && stands_at(t, ti + 1, w.skip(1)),
{
    if stands_at(t, ti, w) {
        assert(t.subrange(ti, ti + w.len())[0] == t[ti]);
        assert(t.subrange(ti + 1, ti + w.len()) =~= w.skip(1));
    }
    if ti < t.len() && t[ti] == w[0] && stands_at(t, ti + 1, w.skip(1)) {
        assert forall|k: int| 0 <= k < w.len() implies t.subrange(ti, ti + w.len())[k] == w[k] by {
            if k > 0 {
                assert(t.subrange(ti + 1, ti + w.len())[k - 1] == w.skip(1)[k - 1]);
            }
        }
        assert(t.subrange(ti, ti + w.len()) =~= w);
    }
}

proof fn lemma_try_word(t: Seq<u8>, ti: int, w: Seq<u8>)
    requires
        0 <= ti,
        is_word(w),
    ensures
        rx_try(t, ti, w) == if stands_at(t, ti, w) || w.len() == 0 {
            Some(ti + w.len())
        } else {
            None
        },
    decreases w.len(),
{
    if w.len() > 0 {
        lemma_stands_step(t, ti, w);
        assert(is_plain(w[0]));
        let r = w.skip(1);
        assert forall|i: int| 0 <= i < r.len() implies is_plain(#[trigger] r[i]) by {
            assert(is_plain(w[i + 1]));
        }
        if w.len() > 1 {
            assert(is_plain(w[1]));
        }
        assert(rx_quant(w, 1) == 0);
        assert(rx_rest(w, 1) == r);
        lemma_try_word(t, ti + 1, r);
        if r.len() == 0 && ti < t.len() {
            assert(t.subrange(ti + 1, ti + 1) =~= r);
        }
    }
}

/// A word in a pattern takes itself, and the rest of the pattern matches behind it.
pub proof fn law_words(t: Seq<u8>, ti: int, w: Seq<u8>, rest: Seq<u8>, must_end: bool)
    requires
        0 <= ti <= t.len(),
        is_word(w),
        unquantified(rest),
    ensures
        rx_cap(t, ti, w + rest, must_end) == (if stands_at(t, ti, w) {
            rx_cap(t, ti + w.len(), rest, must_end)
        } else {
            None
        }),
    decreases w.len(),
{
    if w.len() == 0 {
        assert(w + rest =~= rest);
        assert(t.subrange(ti, ti) =~= w);
    } else {
        let r = w.skip(1);
        assert(is_plain(w[0]));
        assert forall|i: int| 0 <= i < r.len() implies is_plain(#[trigger] r[i]) by {
            assert(is_plain(w[i + 1]));
        }
        if r.len() > 0 {
            assert(is_plain(r[0]));
            assert((r + rest)[0] == r[0]);
        } else {
            assert(r + rest =~= rest);
        }
        assert(w + rest =~= seq![w[0]] + (r + rest));
        law_single_bytes(t, ti, w[0], r + rest, must_end);
        lemma_stands_step(t, ti, w);
        if ti < t.len() {
            law_words(t, ti + 1, r, rest, must_end);
        }
    }
}

proof fn lemma_close_word(p: Seq<u8>, i: int, k: int, d: int)
    requires
        0 <= i <= k <= p.len(),
        forall|j: int| i <= j < k ==> is_plain(#[trigger] p[j]) || p[j] == PIPE,
    ensures
        rx_close(p, i, d) == rx_close(p, k, d),
    decreases k - i,
{
    if i < k {
        assert(is_plain(p[i]) || p[i] == PIPE);
        lemma_close_word(p, i + 1, k, d);
    }
}

proof fn lemma_alts_word(p: Seq<u8>, i: int, k: int, cur: Seq<u8>)
    requires
        0 <= i <= k <= p.len(),
        forall|j: int| i <= j < k ==> is_plain(#[trigger] p[j]),
    ensures
        rx_alts(p, i, 0, cur) == rx_alts(p, k, 0, cur + p.subrange(i, k)),
    decreases k - i,
{
    if i < k {
        assert(is_plain(p[i]));
        lemma_alts_word(p, i + 1, k, cur.push(p[i]));
        assert(cur.push(p[i]) + p.subrange(i + 1, k) =~= cur + p.subrange(i, k));
    } else {
        assert(cur + p.subrange(i, k) =~= cur);
    }
}

/// The match behind a group that took `w`, with the span of the group put in front of the others.
pub open spec fn grouped(t: Seq<u8>, ti: int, w: Seq<u8>, rest: Seq<u8>, must_end: bool) -> Option<
    (int, Seq<(int, int)>),
> {
    if stands_at(t, ti, w) {
        match rx_cap(t, ti + w.len(), rest, must_end) {
            Some((end, spans)) => Some((end, seq![(ti, ti + w.len())] + spans)),
            None => None,
        }
    } else {
        None
    }
}

/// A group of two words joined by a `|` takes the first one where the rest of the pattern matches
/// behind it, else the second one; what it took is its span.
pub proof fn law_alternatives(
    t: Seq<u8>,
    ti: int,
    v: Seq<u8>,
    w: Seq<u8>,
    rest: Seq<u8>,
    must_end: bool,
)
    requires
        0 <= ti <= t.len(),
        is_word(v),
        is_word(w),
        unquantified(rest),
    ensures
        rx_cap(t, ti, seq![LPAREN] + v + seq![PIPE] + w + seq![RPAREN] + rest, must_end) == (
        match grouped(t, ti, v, rest, must_end) {
            Some(h) => Some(h),
            None => grouped(t, ti, w, rest, must_end),
        }),
{
    let p = seq![LPAREN] + v + seq![PIPE] + w + seq![RPAREN] + rest;
    let a = v.len() as int;
    let c = a + w.len() + 2;
    assert(p[0] == LPAREN && p[c] == RPAREN && p[a + 1] == PIPE);
    assert forall|j: int| 1 <= j < c implies is_plain(#[trigger] p[j]) || p[j] == PIPE by {
        if j <= a {
            assert(p[j] == v[j - 1]);
        } else if j > a + 1 {
            assert(p[j] == w[j - a - 2]);
        }
    }
    lemma_close_word(p, 1, c, 0);
    assert(rx_close(p, 1, 0) == Some(c));
    let body = p.subrange(1, c);
    assert(body =~= v + seq![PIPE] + w);
    let none = Seq::<u8>::empty();
    assert forall|j: int| 0 <= j < a implies is_plain(#[trigger] body[j]) by {
        assert(body[j] == v[j]);
    }
    assert forall|j: int| a + 1 <= j < body.len() implies is_plain(#[trigger] body[j]) by {
        assert(body[j] == w[j - a - 1]);
    }
    assert(body[a] == PIPE);
    lemma_alts_word(body, 0, a, none);
    assert(none + body.subrange(0, a) =~= v);
    lemma_alts_word(body, a + 1, body.len() as int, none);
    assert(none + body.subrange(a + 1, body.len() as int) =~= w);
    assert(rx_alts(body, body.len() as int, 0, w) == seq![w]);
    assert(rx_alts(body, a, 0, v) == seq![v] + rx_alts(body, a + 1, 0, none));
    let alts = rx_group_alts(p);
    assert(alts =~= seq![v, w]);
    assert(p.skip(c + 1) =~= rest);
    if rest.len() > 0 {
        assert(p[c + 1] == rest[0]);
    }
    assert(rx_quant(p, c + 1) == 0);
    assert(rx_rest(p, c + 1) == rest);
    lemma_try_word(t, ti, v);
    lemma_try_word(t, ti, w);
    assert(t.subrange(ti, ti) =~= none);
    if v.len() == 0 {
        assert(v =~= none);
    }
    if w.len() == 0 {
        assert(w =~= none);
    }
    assert(alts[0] == v && alts[1] == w);
    assert(rx_cap_alts(t, ti, p, must_end, 2) is None);
    assert(rx_cap_alts(t, ti, p, must_end, 1) == grouped(t, ti, w, rest, must_end));
    assert(rx_cap_alts(t, ti, p, must_end, 0) == match grouped(t, ti, v, rest, must_end) {
        Some(h) => Some(h),
        None => grouped(t, ti, w, rest, must_end),
    });
}

/// A group of one word takes it, and what it took is its span; with a `?` behind it the group may
/// take nothing instead, and its span is then empty.
pub proof fn law_group_of_a_word(
    t: Seq<u8>,
    ti: int,
    w: Seq<u8>,
    rest: Seq<u8>,
    must_end: bool,
)
    requires
        0 <= ti <= t.len(),
        is_word(w),
    ensures
        unquantified(rest) ==> rx_cap(t, ti, seq![LPAREN] + w + seq![RPAREN] + rest, must_end)
            == grouped(t, ti, w, rest, must_end),
        rx_cap(t, ti, seq![LPAREN] + w + seq![RPAREN, QUESTION] + rest, must_end) == (match grouped(
            t,
            ti,
            w,
            rest,
            must_end,
        ) {
            Some(h) => Some(h),
            None => grouped(t, ti, Seq::empty(), rest, must_end),
        }),
{
    let none = Seq::<u8>::empty();
    let c = w.len() as int + 1;
    lemma_try_word(t, ti, w);
    assert(t.subrange(ti, ti) =~= none);
    if w.len() == 0 {
        assert(w =~= none);
    }
    let p = seq![LPAREN] + w + seq![RPAREN] + rest;
    let q = seq![LPAREN] + w + seq![RPAREN, QUESTION] + rest;
    assert(p[0] == LPAREN && p[c] == RPAREN);
    assert(q[0] == LPAREN && q[c] == RPAREN && q[c + 1] == QUESTION);
    assert forall|j: int| 1 <= j < c implies is_plain(#[trigger] p[j]) || p[j] == PIPE by {
        assert(p[j] == w[j - 1]);
    }
    assert forall|j: int| 1 <= j < c implies is_plain(#[trigger] q[j]) || q[j] == PIPE by {
        assert(q[j] == w[j - 1]);
    }
    lemma_close_word(p, 1, c, 0);
    lemma_close_word(q, 1, c, 0);
    assert(rx_close(p, 1, 0) == Some(c));
    assert(rx_close(q, 1, 0) == Some(c));
    assert(p.subrange(1, c) =~= w);
    assert(q.subrange(1, c) =~= w);
    lemma_alts_word(w, 0, w.len() as int, none);
    assert(none + w.subrange(0, w.len() as int) =~= w);
    assert(rx_alts(w, w.len() as int, 0, w) == seq![w]);
    assert(rx_group_alts(p) =~= seq![w]);
    assert(rx_group_alts(q) =~= seq![w]);
    assert(rx_group_alts(p)[0] == w && rx_group_alts(q)[0] == w);
    if unquantified(rest) {
        assert(p.skip(c + 1) =~= rest);
        if rest.len() > 0 {
            assert(p[c + 1] == rest[0]);
        }
        assert(rx_quant(p, c + 1) == 0);
        assert(rx_rest(p, c + 1) == rest);
        assert(rx_cap_alts(t, ti, p, must_end, 1) is None);
        assert(rx_cap_alts(t, ti, p, must_end, 0) == grouped(t, ti, w, rest, must_end));
    }
    assert(q.skip(c + 2) =~= rest);
    assert(rx_rest(q, c + 1) == rest);
    assert(rx_cap_alts(t, ti, q, must_end, 1) is None);
    assert(rx_cap_alts(t, ti, q, must_end, 0) == grouped(t, ti, w, rest, must_end));
}

proof fn lemma_search(t: Seq<u8>, start: int, last: int, p: Seq<u8>, must_end: bool)
    ensures
        match rx_search(t, start, last, p, must_end) {
            Some(spans) => exists|s: int|
                start <= s <= last && ((#[trigger] rx_cap(t, s, p, must_end)) matches Some((end, groups))
                    && spans == seq![(s, end)] + groups) && forall|r: int|
                    start <= r < s ==> (#[trigger] rx_cap(t, r, p, must_end)) is None,
            None => forall|s: int|
                start <= s <= last ==> (#[trigger] rx_cap(t, s, p, must_end)) is None,
        },
    decreases last - start + 1,
{
    if start <= last {
        if rx_cap(t, start, p, must_end) is None {
            lemma_search(t, start + 1, last, p, must_end);
        }
    }
}

/// What captures are filled with: the match that starts first, or with a `^` in front the one that
/// starts the text, comes first, and then the groups in it.
pub proof fn law_first_match_is_found(text: Seq<char>, core: Seq<char>)
    requires
        has_meta(core),
        core[0] != '^',
        core.last() != '$',
    ensures
        ({
            let t = encode_utf8(text);
            let p = encode_utf8(core);
            match regex_spans(text, core) {
                Some(spans) => exists|s: int|
                    0 <= s <= t.len() && ((#[trigger] rx_cap(t, s, p, false)) matches Some((end, groups))
                        && spans == seq![(s, end)] + groups) && forall|r: int|
                        0 <= r < s ==> (#[trigger] rx_cap(t, r, p, false)) is None,
                None => forall|s: int|
                    0 <= s <= t.len() ==> (#[trigger] rx_cap(t, s, p, false)) is None,
            }
        }),
        regex_spans(text, seq!['^'] + core) == (match rx_cap(
            encode_utf8(text),
            0,
            encode_utf8(core),
            false,
        ) {
            Some(h) => Some(seq![(0, h.0)] + h.1),
            None => None,
        }),
{
    let t = encode_utf8(text);
    let p = encode_utf8(core);
    let i = choose|i: int| 0 <= i < core.len() && is_regex_metachar(#[trigger] core[i]);
    assert(core.len() > 0);
    assert(anchor_core(core) =~= core);
    lemma_search(t, 0, t.len() as int, p, false);
    let q = seq!['^'] + core;
    assert(q[0] == '^' && q.last() == core.last());
    assert(anchor_core(q) =~= core);
    assert(rx_search(t, 1, 0, p, false) is None);
}

/// With a `^` in front and a `$` behind it, a pattern has to match the whole text, and with the `$`
/// alone an end of it.
pub proof fn law_anchors_bind_the_match(text: Seq<char>, core: Seq<char>)
    requires
        has_meta(core),
        core[0] != '^',
        core.last() != '\\',
    ensures
        regex_spans(text, seq!['^'] + core + seq!['$']) == (match rx_cap(
            encode_utf8(text),
            0,
            encode_utf8(core),
            true,
        ) {
            Some(h) => Some(seq![(0, h.0)] + h.1),
            None => None,
        }),
        regex_spans(text, core + seq!['$']) is Some <==> exists|s: int|
            0 <= s <= encode_utf8(text).len() && (#[trigger] rx_cap(
                encode_utf8(text),
                s,
                encode_utf8(core),
                true,
            )) is Some,
{
    let t = encode_utf8(text);
    let p = encode_utf8(core);
    let i = choose|i: int| 0 <= i < core.len() && is_regex_metachar(#[trigger] core[i]);
    let q = seq!['^'] + core + seq!['$'];
    assert(q[0] == '^' && q.last() == '$' && q[q.len() - 2] == core.last());
    assert(anchor_core(q) =~= core);
    assert(rx_search(t, 1, 0, p, true) is None);
    let r = core + seq!['$'];
    assert(r[0] == core[0] && r.last() == '$' && r[r.len() - 2] == core.last());
    assert(anchor_core(r) =~= core);
    lemma_search(t, 0, t.len() as int, p, true);
}

/// In terms of texts and patterns: a text of one character matches `^[^m]$` just where it does not
/// match `^[m]$`.
pub proof fn law_texts_outside_a_class(m: Seq<char>, mark: char, c: char)
    requires
        is_ascii_chars(m),
        is_ascii_chars(seq![c]),
        mark == '^' || mark == '!',
        m.len() > 0 ==> m[0] != '^' && m[0] != '!',
        !m.contains(']'),
    ensures
        regex_spans(seq![c], seq!['^', '[', mark] + m + seq![']', '$']) is Some <==> regex_spans(
            seq![c],
            seq!['^', '['] + m + seq![']', '$'],
        ) is None,
{
    let mb = encode_utf8(m);
    let mk = mark as u8;
    lemma_ascii_members(m);
    lemma_ascii_char(c);
    lemma_ascii_char('[');
    lemma_ascii_char(']');
    lemma_ascii_char(mark);
    let p = seq!['['] + m + seq![']'];
    let q = seq!['['] + seq![mark] + m + seq![']'];
    lemma_utf8_concat(seq!['['], m);
    lemma_utf8_concat(seq!['['] + m, seq![']']);
    lemma_utf8_concat(seq!['['], seq![mark]);
    lemma_utf8_concat(seq!['['] + seq![mark], m);
    lemma_utf8_concat(seq!['['] + seq![mark] + m, seq![']']);
    assert(seq![LBRACKET] + seq![mk] =~= seq![LBRACKET, mk]);
    law_negated_class_is_the_complement(mb, mk, c as u8);
    assert(p[0] == '[' && q[0] == '[' && p.last() == ']' && q.last() == ']');
    assert(is_regex_metachar(p[0]) && is_regex_metachar(q[0]));
    law_anchors_bind_the_match(seq![c], p);
    law_anchors_bind_the_match(seq![c], q);
    assert(seq!['^'] + p + seq!['$'] =~= seq!['^', '['] + m + seq![']', '$']);
    assert(seq!['^'] + q + seq!['$'] =~= seq!['^', '[', mark] + m + seq![']', '$']);
}

proof fn lemma_ascii_char(c: char)
    requires
        '\0' <= c <= '\u{7f}',
    ensures
        encode_utf8(seq![c]) == seq![c as u8],
{
    let s = seq![c];
    assert(is_ascii_chars(s));
    is_ascii_chars_encode_utf8(s);
    assert(s[0] as u8 == encode_utf8(s)[0]);
    assert(encode_utf8(s) =~= seq![c as u8]);
}

proof fn lemma_ascii_members(m: Seq<char>)
    requires
        is_ascii_chars(m),
        !m.contains(']'),
        m.len() > 0 ==> m[0] != '^' && m[0] != '!',
    ensures
        !encode_utf8(m).contains(RBRACKET),
        encode_utf8(m).len() > 0 ==> encode_utf8(m)[0] != CARET && encode_utf8(m)[0] != BANG,
{
    let mb = encode_utf8(m);
    is_ascii_chars_encode_utf8(m);
    assert forall|i: int| 0 <= i < mb.len() implies #[trigger] mb[i] != RBRACKET by {
        assert('\0' <= m[i] <= '\u{7f}');
        assert(m[i] as u8 == mb[i]);
        assert(m.contains(m[i]));
    }
    if m.len() > 0 {
        assert('\0' <= m[0] <= '\u{7f}');
        assert(m[0] as u8 == mb[0]);
    }
}

/// A pattern without special characters stands for itself: somewhere in the text, at its start, at
/// its end or for all of it, by its anchors. Its span is where it first stands.
pub proof fn law_literal_patterns(text: Seq<char>, core: Seq<char>)
    requires
        !has_meta(core),
        core.len() > 0,
        core[0] != '^',
        core.last() != '$',
        core.last() != '\\',
    ensures
        ({
            let t = encode_utf8(text);
            let w = encode_utf8(core);
            let n = w.len() as int;
            &&& match regex_spans(text, core) {
                Some(spans) => spans.len() == 1 && spans[0].1 == spans[0].0 + n && 0 <= spans[0].0
                    && stands_at(t, spans[0].0, w) && forall|i: int|
                    0 <= i < spans[0].0 ==> !#[trigger] stands_at(t, i, w),
                None => forall|i: int| 0 <= i ==> !#[trigger] stands_at(t, i, w),
            }
            &&& regex_spans(text, seq!['^'] + core) == (if stands_at(t, 0, w) {
                Some(seq![(0int, n)])
            } else {
                None
            })
            &&& regex_spans(text, core + seq!['$']) == (if n <= t.len() && stands_at(
                t,
                t.len() - n,
                w,
            ) {
                Some(seq![(t.len() - n, t.len() as int)])
            } else {
                None
            })
            &&& regex_spans(text, seq!['^'] + core + seq!['$']) is Some <==> t == w
        }),
{
    let t = encode_utf8(text);
    let w = encode_utf8(core);
    let n = w.len() as int;
    assert(anchor_core(core) =~= core);
    lemma_find(t, 0, w);
    let a = seq!['^'] + core;
    assert(a[0] == '^' && a.last() == core.last());
    assert(anchor_core(a) =~= core);
    let b = core + seq!['$'];
    assert(b[0] == core[0] && b.last() == '$' && b[b.len() - 2] == core.last());
    assert(anchor_core(b) =~= core);
    let c = seq!['^'] + core + seq!['$'];
    assert(c[0] == '^' && c.last() == '$' && c[c.len() - 2] == core.last());
    assert(anchor_core(c) =~= core);
    if n <= t.len() {
        assert(t.take(n) =~= t.subrange(0, n));
        assert(t.skip(t.len() - n) =~= t.subrange(t.len() - n, t.len() as int));
    }
}

pub proof fn lemma_find(t: Seq<u8>, i: int, w: Seq<u8>)
    requires
        0 <= i,
    ensures
        match find_from(t, i, w) {
            Some(k) => i <= k && stands_at(t, k, w) && forall|j: int|
                i <= j < k ==> !#[trigger] stands_at(t, j, w),
            None => forall|j: int| i <= j ==> !#[trigger] stands_at(t, j, w),
        },
    decreases t.len() - i + 1,
{
    if i + w.len() <= t.len() && !stands_at(t, i, w) {
        lemma_find(t, i + 1, w);
    }
}

/// The signs that make a pattern more than the text that it is.
pub proof fn law_signs_of_an_expression(core: Seq<char>)
    ensures
        has_meta(core) <==> core.contains('.') || core.contains('+') || core.contains('*')
            || core.contains('?') || core.contains('[') || core.contains('(') || core.contains(
            '|',
        ),
{
    if has_meta(core) {
        let i = choose|i: int|
            0 <= i < core.len() && is_regex_metachar(#[trigger] core[i]);
        assert(core.contains(core[i]));
    }
    if core.contains('.') || core.contains('+') || core.contains('*') || core.contains('?')
        || core.contains('[') || core.contains('(') || core.contains('|') {
        let i = choose|i: int|
            0 <= i < core.len() && (#[trigger] core[i] == '.' || core[i] == '+' || core[i] == '*'
                || core[i] == '?' || core[i] == '[' || core[i] == '(' || core[i] == '|');
        assert(is_regex_metachar(core[i]));
    }
}

} // verus!
