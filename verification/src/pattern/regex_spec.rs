//! What the regular expressions of `=~` mean: ordered choice, longest repetition first.
//!
//! Patterns and texts are byte strings. A pattern function works on the whole of the pattern
//! it is given; what follows an element is passed on as a shorter pattern.
use crate::ascii::{
    BACKSLASH, BANG, CARET, DASH, DOT, LBRACKET, LPAREN, PIPE, PLUS, QUESTION, RBRACKET, RPAREN,
    STAR,
};
use vstd::prelude::*;
use vstd::utf8::{encode_utf8, is_char_boundary};

verus! {

/// The `)` that closes a group, searched from `i` on with `d` groups open inside it. A
/// backslash hides the byte after it.
pub open spec fn rx_close(p: Seq<u8>, i: int, d: int) -> Option<int>
    decreases p.len() - i + 1,
{
    if i < 0 || i >= p.len() {
        None
    } else if p[i] == BACKSLASH {
        rx_close(p, i + 2, d)
    } else if p[i] == LPAREN {
        rx_close(p, i + 1, d + 1)
    } else if p[i] == RPAREN {
        if d == 0 {
            Some(i)
        } else {
            rx_close(p, i + 1, d - 1)
        }
    } else {
        rx_close(p, i + 1, d)
    }
}

/// The pieces of `p` from `i` on between the `|` at depth zero, the first of them continuing
/// `cur`. A backslash hides the byte after it.
pub open spec fn rx_alts(p: Seq<u8>, i: int, d: int, cur: Seq<u8>) -> Seq<Seq<u8>>
    decreases p.len() - i,
{
    if i < 0 || i >= p.len() {
        seq![cur]
    } else if p[i] == BACKSLASH && i + 1 < p.len() {
        rx_alts(p, i + 2, d, cur.push(p[i]).push(p[i + 1]))
    } else if p[i] == LPAREN {
        rx_alts(p, i + 1, d + 1, cur.push(p[i]))
    } else if p[i] == RPAREN {
        rx_alts(p, i + 1, d - 1, cur.push(p[i]))
    } else if p[i] == PIPE && d == 0 {
        seq![cur] + rx_alts(p, i + 1, 0, Seq::empty())
    } else {
        rx_alts(p, i + 1, d, cur.push(p[i]))
    }
}

/// The alternatives of the group at the start of `p`; none where it is not closed.
pub open spec fn rx_group_alts(p: Seq<u8>) -> Seq<Seq<u8>> {
    match rx_close(p, 1, 0) {
        Some(c) => rx_alts(p.subrange(1, c), 0, 0, Seq::empty()),
        None => Seq::empty(),
    }
}

/// What follows the closed group at the start of `p`.
pub open spec fn rx_after_group(p: Seq<u8>) -> Seq<u8> {
    p.skip(rx_close(p, 1, 0)->0 + 1)
}

/// Whether the class that starts `p` is negated.
pub open spec fn rx_class_negated(p: Seq<u8>) -> bool {
    1 < p.len() && (p[1] == CARET || p[1] == BANG)
}

/// Where the members of the class that starts `p` start.
pub open spec fn rx_class_first(p: Seq<u8>) -> int {
    if rx_class_negated(p) {
        2
    } else {
        1
    }
}

/// Whether the members at `i` are a range.
pub open spec fn rx_class_range(p: Seq<u8>, i: int) -> bool {
    i + 2 < p.len() && p[i + 1] == DASH
}

/// The position past the members at `i`.
pub open spec fn rx_class_next(p: Seq<u8>, i: int) -> int {
    if rx_class_range(p, i) {
        i + 3
    } else {
        i + 1
    }
}

/// The position of the `]` that ends the members from `i` on, or the end of the pattern.
pub open spec fn rx_class_stop(p: Seq<u8>, i: int) -> int
    decreases p.len() - i,
{
    if 0 <= i < p.len() && p[i] != RBRACKET {
        rx_class_stop(p, rx_class_next(p, i))
    } else {
        i
    }
}

/// Whether the members from `i` on hold `c`.
pub open spec fn rx_class_has(p: Seq<u8>, i: int, c: u8) -> bool
    decreases p.len() - i,
{
    0 <= i < p.len() && p[i] != RBRACKET && ((if rx_class_range(p, i) {
        p[i] <= c <= p[i + 2]
    } else {
        p[i] == c
    }) || rx_class_has(p, rx_class_next(p, i), c))
}

/// The length of the element at the start of `p`: a class, an escaped byte or one byte.
pub open spec fn rx_elem_len(p: Seq<u8>) -> int {
    if p[0] == LBRACKET {
        let stop = rx_class_stop(p, rx_class_first(p));
        if stop < p.len() {
            stop + 1
        } else {
            p.len() as int
        }
    } else if p[0] == BACKSLASH && p.len() > 1 {
        2
    } else {
        1
    }
}

/// Whether the element at the start of `p` accepts `c`.
pub open spec fn rx_elem_accepts(p: Seq<u8>, c: u8) -> bool {
    if p[0] == DOT {
        true
    } else if p[0] == LBRACKET {
        rx_class_has(p, rx_class_first(p), c) != rx_class_negated(p)
    } else if p[0] == BACKSLASH && p.len() > 1 {
        c == p[1]
    } else {
        c == p[0]
    }
}

/// Whether `b` repeats what stands before it.
pub open spec fn is_quantifier(b: u8) -> bool {
    b == STAR || b == PLUS || b == QUESTION
}

/// The quantifier at position `i`, or zero.
pub open spec fn rx_quant(p: Seq<u8>, i: int) -> u8 {
    if 0 <= i < p.len() && is_quantifier(p[i]) {
        p[i]
    } else {
        0
    }
}

/// What follows position `i` and the quantifier there.
pub open spec fn rx_rest(p: Seq<u8>, i: int) -> Seq<u8> {
    if rx_quant(p, i) != 0 {
        p.skip(i + 1)
    } else {
        p.skip(i)
    }
}

/// How many bytes of `t` from `ti` on the element at the start of `p` accepts in a row.
pub open spec fn rx_count(t: Seq<u8>, ti: int, p: Seq<u8>) -> int
    decreases t.len() - ti,
{
    if 0 <= ti < t.len() && rx_elem_accepts(p, t[ti]) {
        1 + rx_count(t, ti + 1, p)
    } else {
        0
    }
}

/// Where a match of `p` that starts at `ti` ends, without regard to captures. A group inside
/// takes no quantifier here: the bytes after its `)` are read as elements.
pub open spec fn rx_try(t: Seq<u8>, ti: int, p: Seq<u8>) -> Option<int>
    decreases p.len(), rx_group_alts(p).len() + 2, 0nat,
    via rx_try_terminates
{
    if p.len() == 0 {
        Some(ti)
    } else if p[0] == LPAREN {
        rx_try_group(t, ti, p, 0)
    } else {
        let n = rx_elem_len(p);
        let q = rx_quant(p, n);
        if q == STAR || q == PLUS {
            rx_try_rep(
                t,
                ti,
                rx_count(t, ti, p),
                if q == PLUS {
                    1
                } else {
                    0
                },
                rx_rest(p, n),
            )
        } else if q == QUESTION {
            if ti < t.len() && rx_elem_accepts(p, t[ti]) && rx_try(t, ti + 1, rx_rest(p, n)) is Some {
                rx_try(t, ti + 1, rx_rest(p, n))
            } else {
                rx_try(t, ti, rx_rest(p, n))
            }
        } else if ti < t.len() && rx_elem_accepts(p, t[ti]) {
            rx_try(t, ti + 1, rx_rest(p, n))
        } else {
            None
        }
    }
}

/// The first of the group's alternatives, from the `k`-th on, after which the rest matches.
pub open spec fn rx_try_group(t: Seq<u8>, ti: int, p: Seq<u8>, k: int) -> Option<int>
    decreases p.len(), rx_group_alts(p).len() + 1, rx_group_alts(p).len() - k,
    via rx_try_group_terminates
{
    if p.len() == 0 || k < 0 || k >= rx_group_alts(p).len() {
        None
    } else {
        match rx_try(t, ti, rx_group_alts(p)[k]) {
            Some(e) => match rx_try(t, e, rx_after_group(p)) {
                Some(f) => Some(f),
                None => rx_try_group(t, ti, p, k + 1),
            },
            None => rx_try_group(t, ti, p, k + 1),
        }
    }
}

/// The most repetitions, from `c` down to `min`, after which the rest matches.
pub open spec fn rx_try_rep(t: Seq<u8>, ti: int, c: int, min: int, rest: Seq<u8>) -> Option<int>
    decreases rest.len(), rx_group_alts(rest).len() + 3, c + 1,
{
    if c < min || c < 0 {
        None
    } else {
        match rx_try(t, ti + c, rest) {
            Some(e) => Some(e),
            None => rx_try_rep(t, ti, c - 1, min, rest),
        }
    }
}

#[via_fn]
proof fn rx_try_terminates(t: Seq<u8>, ti: int, p: Seq<u8>) {
    if p.len() > 0 {
        lemma_elem_len(p);
    }
}

#[via_fn]
proof fn rx_try_group_terminates(t: Seq<u8>, ti: int, p: Seq<u8>, k: int) {
    lemma_group_alts(p);
}

pub proof fn lemma_close(p: Seq<u8>, i: int, d: int)
    requires
        0 <= i,
    ensures
        rx_close(p, i, d) matches Some(c) ==> i <= c < p.len(),
    decreases p.len() - i + 1,
{
    if i < p.len() {
        if p[i] == BACKSLASH {
            lemma_close(p, i + 2, d);
        } else if p[i] == LPAREN {
            lemma_close(p, i + 1, d + 1);
        } else if p[i] == RPAREN {
            if d != 0 {
                lemma_close(p, i + 1, d - 1);
            }
        } else {
            lemma_close(p, i + 1, d);
        }
    }
}

pub proof fn lemma_alts_len(p: Seq<u8>, i: int, d: int, cur: Seq<u8>, k: int)
    requires
        0 <= i <= p.len(),
        0 <= k < rx_alts(p, i, d, cur).len(),
    ensures
        rx_alts(p, i, d, cur)[k].len() <= cur.len() + p.len() - i,
    decreases p.len() - i,
{
    if i < p.len() {
        if p[i] == BACKSLASH && i + 1 < p.len() {
            lemma_alts_len(p, i + 2, d, cur.push(p[i]).push(p[i + 1]), k);
        } else if p[i] == LPAREN {
            lemma_alts_len(p, i + 1, d + 1, cur.push(p[i]), k);
        } else if p[i] == RPAREN {
            lemma_alts_len(p, i + 1, d - 1, cur.push(p[i]), k);
        } else if p[i] == PIPE && d == 0 {
            if k > 0 {
                lemma_alts_len(p, i + 1, 0, Seq::empty(), k - 1);
            }
        } else {
            lemma_alts_len(p, i + 1, d, cur.push(p[i]), k);
        }
    }
}

/// The alternatives of a group are shorter than the pattern that the group starts, and so is
/// what follows it.
pub proof fn lemma_group_alts(p: Seq<u8>)
    ensures
        forall|k: int|
            0 <= k < rx_group_alts(p).len() ==> (#[trigger] rx_group_alts(p)[k]).len() < p.len(),
        rx_close(p, 1, 0) matches Some(c) ==> 1 <= c < p.len() && rx_after_group(p).len() == p.len()
            - c - 1,
{
    lemma_close(p, 1, 0);
    if rx_close(p, 1, 0) is Some {
        let c = rx_close(p, 1, 0)->0;
        assert forall|k: int| 0 <= k < rx_group_alts(p).len() implies (#[trigger] rx_group_alts(
            p,
        )[k]).len() < p.len() by {
            lemma_alts_len(p.subrange(1, c), 0, 0, Seq::empty(), k);
        }
    }
}

pub proof fn lemma_class_stop(p: Seq<u8>, i: int)
    requires
        0 <= i <= p.len(),
    ensures
        i <= rx_class_stop(p, i) <= p.len(),
    decreases p.len() - i,
{
    if i < p.len() && p[i] != RBRACKET {
        lemma_class_stop(p, rx_class_next(p, i));
    }
}

pub proof fn lemma_elem_len(p: Seq<u8>)
    requires
        p.len() > 0,
    ensures
        1 <= rx_elem_len(p) <= p.len(),
        rx_rest(p, rx_elem_len(p)).len() < p.len(),
{
    if p[0] == LBRACKET {
        lemma_class_stop(p, rx_class_first(p));
    }
}

/// Whether alternatives, one after the other, fill the text from `start` to `end`, each taking
/// at least one byte, and at least `min` of them.
pub open spec fn rx_fill(
    t: Seq<u8>,
    start: int,
    end: int,
    alts: Seq<Seq<u8>>,
    min: int,
) -> bool
    decreases end - start,
{
    if start >= end {
        start == end && min == 0
    } else {
        exists|k: int| #![trigger alts[k]]
            0 <= k < alts.len() && {
                match rx_try(t, start, alts[k]) {
                    Some(a) => start < a <= end && ((a == end && min <= 1) || rx_fill(
                        t,
                        a,
                        end,
                        alts,
                        if min > 0 {
                            min - 1
                        } else {
                            0
                        },
                    )),
                    None => false,
                }
            }
    }
}

/// A match: where it ends, and the span of each group on the way.
pub type Hit = (int, Seq<(int, int)>);

/// A match of the rest of a pattern, with the span of the group before it put in front.
pub open spec fn with_group(span: (int, int), rest: Option<Hit>) -> Option<Hit> {
    match rest {
        Some((e, caps)) => Some((e, seq![span] + caps)),
        None => None,
    }
}

/// The match of `p` that starts at `ti`; with `must_end` it has to reach the end of the text.
pub open spec fn rx_cap(t: Seq<u8>, ti: int, p: Seq<u8>, must_end: bool) -> Option<Hit>
    decreases p.len(), rx_group_alts(p).len() + 2, 0int,
    via rx_cap_terminates
{
    if p.len() == 0 {
        if must_end && ti < t.len() {
            None
        } else {
            Some((ti, Seq::empty()))
        }
    } else if p[0] == LPAREN {
        match rx_close(p, 1, 0) {
            None => None,
            Some(c) => {
                let q = rx_quant(p, c + 1);
                if q == STAR || q == PLUS {
                    rx_cap_fill(
                        t,
                        ti,
                        t.len() as int,
                        p,
                        must_end,
                        if q == PLUS {
                            1
                        } else {
                            0
                        },
                    )
                } else if q == QUESTION {
                    match rx_cap_alts(t, ti, p, must_end, 0) {
                        Some(h) => Some(h),
                        None => with_group((ti, ti), rx_cap(t, ti, rx_rest(p, c + 1), must_end)),
                    }
                } else {
                    rx_cap_alts(t, ti, p, must_end, 0)
                }
            },
        }
    } else {
        let n = rx_elem_len(p);
        let q = rx_quant(p, n);
        if q == STAR || q == PLUS {
            rx_cap_rep(
                t,
                ti,
                rx_count(t, ti, p),
                if q == PLUS {
                    1
                } else {
                    0
                },
                rx_rest(p, n),
                must_end,
            )
        } else if q == QUESTION {
            if ti < t.len() && rx_elem_accepts(p, t[ti]) && rx_cap(
                t,
                ti + 1,
                rx_rest(p, n),
                must_end,
            ) is Some {
                rx_cap(t, ti + 1, rx_rest(p, n), must_end)
            } else {
                rx_cap(t, ti, rx_rest(p, n), must_end)
            }
        } else if ti < t.len() && rx_elem_accepts(p, t[ti]) {
            rx_cap(t, ti + 1, rx_rest(p, n), must_end)
        } else {
            None
        }
    }
}

/// The first of the group's alternatives, from the `k`-th on, after which the rest matches.
pub open spec fn rx_cap_alts(
    t: Seq<u8>,
    ti: int,
    p: Seq<u8>,
    must_end: bool,
    k: int,
) -> Option<Hit>
    decreases p.len(), rx_group_alts(p).len() + 1, rx_group_alts(p).len() - k,
    via rx_cap_alts_terminates
{
    let c = rx_close(p, 1, 0)->0;
    if p.len() == 0 || rx_close(p, 1, 0) is None || k < 0 || k >= rx_group_alts(p).len() {
        None
    } else {
        match rx_try(t, ti, rx_group_alts(p)[k]) {
            Some(e) => match rx_cap(t, e, rx_rest(p, c + 1), must_end) {
                Some(h) => with_group((ti, e), Some(h)),
                None => rx_cap_alts(t, ti, p, must_end, k + 1),
            },
            None => rx_cap_alts(t, ti, p, must_end, k + 1),
        }
    }
}

/// The longest repetition of the group, ending at `end` or before, after which the rest matches.
pub open spec fn rx_cap_fill(
    t: Seq<u8>,
    ti: int,
    end: int,
    p: Seq<u8>,
    must_end: bool,
    min: int,
) -> Option<Hit>
    decreases p.len(), rx_group_alts(p).len() + 1, end - ti + 1,
    via rx_cap_fill_terminates
{
    let c = rx_close(p, 1, 0)->0;
    if p.len() == 0 || rx_close(p, 1, 0) is None || end < ti {
        None
    } else if rx_fill(t, ti, end, rx_group_alts(p), min) && rx_cap(
        t,
        end,
        rx_rest(p, c + 1),
        must_end,
    ) is Some {
        with_group((ti, end), rx_cap(t, end, rx_rest(p, c + 1), must_end))
    } else {
        rx_cap_fill(t, ti, end - 1, p, must_end, min)
    }
}

/// The most repetitions, from `c` down to `min`, after which the rest matches.
pub open spec fn rx_cap_rep(
    t: Seq<u8>,
    ti: int,
    c: int,
    min: int,
    rest: Seq<u8>,
    must_end: bool,
) -> Option<Hit>
    decreases rest.len(), rx_group_alts(rest).len() + 3, c + 1,
{
    if c < min || c < 0 {
        None
    } else {
        match rx_cap(t, ti + c, rest, must_end) {
            Some(h) => Some(h),
            None => rx_cap_rep(t, ti, c - 1, min, rest, must_end),
        }
    }
}

#[via_fn]
proof fn rx_cap_terminates(t: Seq<u8>, ti: int, p: Seq<u8>, must_end: bool) {
    if p.len() > 0 {
        lemma_elem_len(p);
    }
    lemma_group_alts(p);
}

#[via_fn]
proof fn rx_cap_alts_terminates(t: Seq<u8>, ti: int, p: Seq<u8>, must_end: bool, k: int) {
    lemma_group_alts(p);
}

#[via_fn]
proof fn rx_cap_fill_terminates(
    t: Seq<u8>,
    ti: int,
    end: int,
    p: Seq<u8>,
    must_end: bool,
    min: int,
) {
    lemma_group_alts(p);
}

/// The spans of the first match that starts at `start` or later, `last` at the latest: the
/// whole match, then each group.
pub open spec fn rx_search(
    t: Seq<u8>,
    start: int,
    last: int,
    p: Seq<u8>,
    must_end: bool,
) -> Option<Seq<(int, int)>>
    decreases last - start + 1,
{
    if start > last {
        None
    } else {
        match rx_cap(t, start, p, must_end) {
            Some((e, caps)) => Some(seq![(start, e)] + caps),
            None => rx_search(t, start + 1, last, p, must_end),
        }
    }
}

/// The position of the first occurrence of `s` in `t` at `i` or later.
pub open spec fn find_from(t: Seq<u8>, i: int, s: Seq<u8>) -> Option<int>
    decreases t.len() - i + 1,
{
    if i < 0 || i + s.len() > t.len() {
        None
    } else if t.subrange(i, i + s.len()) == s {
        Some(i)
    } else {
        find_from(t, i + 1, s)
    }
}

/// The span of a literal pattern in `t`: the whole text, its start, its end or the first
/// occurrence, by the anchors.
pub open spec fn literal_span(t: Seq<u8>, s: Seq<u8>, start: bool, end: bool) -> Option<
    (int, int),
> {
    if start && end {
        if t == s {
            Some((0, t.len() as int))
        } else {
            None
        }
    } else if start {
        if s.len() <= t.len() && t.take(s.len() as int) == s {
            Some((0, s.len() as int))
        } else {
            None
        }
    } else if end {
        if s.len() <= t.len() && t.skip(t.len() - s.len()) == s {
            Some((t.len() - s.len(), t.len() as int))
        } else {
            None
        }
    } else {
        match find_from(t, 0, s) {
            Some(i) => Some((i, i + s.len())),
            None => None,
        }
    }
}

/// Whether a pattern is bound to the start of the text.
pub open spec fn anchored_start(p: Seq<char>) -> bool {
    p.len() > 0 && p[0] == '^'
}

/// Whether a pattern is bound to the end of the text by a `$` that no backslash hides.
pub open spec fn anchored_end(p: Seq<char>) -> bool {
    p.len() > 0 && p.last() == '$' && !(p.len() > 1 && p[p.len() - 2] == '\\')
}

/// The pattern without its anchors.
pub open spec fn anchor_core(p: Seq<char>) -> Seq<char> {
    let a: int = if anchored_start(p) {
        1
    } else {
        0
    };
    let b: int = if anchored_end(p) {
        p.len() - 1
    } else {
        p.len() as int
    };
    p.subrange(a, b)
}

/// The characters that make a pattern more than a literal.
pub open spec fn is_regex_metachar(c: char) -> bool {
    c == '.' || c == '+' || c == '*' || c == '?' || c == '[' || c == '(' || c == '|'
}

/// Whether a pattern is more than a literal.
pub open spec fn has_meta(core: Seq<char>) -> bool {
    exists|i: int| 0 <= i < core.len() && is_regex_metachar(#[trigger] core[i])
}

/// The byte spans of `pattern` in `text`: the first match, then each of its groups.
pub open spec fn regex_spans(text: Seq<char>, pattern: Seq<char>) -> Option<Seq<(int, int)>> {
    let t = encode_utf8(text);
    let core = anchor_core(pattern);
    let s = anchored_start(pattern);
    let e = anchored_end(pattern);
    if has_meta(core) {
        rx_search(
            t,
            0,
            if s {
                0
            } else {
                t.len() as int
            },
            encode_utf8(core),
            e,
        )
    } else {
        match literal_span(t, encode_utf8(core), s, e) {
            Some(span) => Some(seq![span]),
            None => None,
        }
    }
}

/// Whether every span of a match starts and ends between characters of the text. A `.` or a
/// class takes one byte, so a match may cut a character that takes more than one.
pub open spec fn spans_keep_chars(text: Seq<char>, pattern: Seq<char>) -> bool {
    has_meta(anchor_core(pattern)) ==> match regex_spans(text, pattern) {
        Some(spans) => forall|k: int|
            0 <= k < spans.len() ==> is_char_boundary(encode_utf8(text), (#[trigger] spans[k]).0)
                && is_char_boundary(encode_utf8(text), spans[k].1),
        None => true,
    }
}

} // verus!
