//! A matcher that only answers whether a pattern matches.
use crate::ascii::{BACKSLASH, LPAREN};
use crate::pattern::regex::{
    find_matching_paren_bytes, has_regex_metachar, literal_match_range, parse_quantifier,
    parse_regex_elem, regex_match_capturing, regex_strip_anchors,
};
use crate::pattern::regex_spec::{
    anchor_core, anchored_end, anchored_start, has_meta, lemma_elem_len, lemma_group_alts,
    literal_span, regex_spans, rx_cap, rx_cap_alts, rx_cap_fill, rx_cap_rep, rx_close, rx_count,
    rx_elem_len, rx_group_alts, rx_quant, rx_rest, rx_search, rx_try,
};
use vstd::prelude::*;
use vstd::utf8::encode_utf8;

verus! {

/// How much of `p` its first element or group takes, with the quantifier behind it.
pub open spec fn rx_step(p: Seq<u8>) -> int {
    let n = if p[0] == LPAREN {
        rx_close(p, 1, 0)->0 + 1
    } else {
        rx_elem_len(p)
    };
    if rx_quant(p, n) != 0 {
        n + 1
    } else {
        n
    }
}

/// Whether a group starts `p` that is never closed.
pub open spec fn opens_in_vain(p: Seq<u8>) -> bool {
    p.len() > 0 && p[0] == LPAREN && rx_close(p, 1, 0) is None
}

/// Whether `p` holds a group that is never closed.
pub open spec fn rx_unclosed(p: Seq<u8>) -> bool
    decreases p.len(),
    via rx_unclosed_terminates
{
    p.len() > 0 && (opens_in_vain(p) || rx_unclosed(p.skip(rx_step(p))))
}

/// The pattern in which a `(` that is never closed stands for itself.
pub open spec fn parens_closed(p: Seq<u8>) -> Seq<u8>
    decreases p.len(),
    via parens_closed_terminates
{
    if p.len() == 0 {
        p
    } else if opens_in_vain(p) {
        seq![BACKSLASH, LPAREN] + parens_closed(p.skip(1))
    } else {
        p.take(rx_step(p)) + parens_closed(p.skip(rx_step(p)))
    }
}

proof fn lemma_step(p: Seq<u8>)
    requires
        p.len() > 0,
        !opens_in_vain(p),
    ensures
        1 <= rx_step(p) <= p.len(),
{
    lemma_elem_len(p);
    lemma_group_alts(p);
}

#[via_fn]
proof fn rx_unclosed_terminates(p: Seq<u8>) {
    if p.len() > 0 && !opens_in_vain(p) {
        lemma_step(p);
    }
}

#[via_fn]
proof fn parens_closed_terminates(p: Seq<u8>) {
    if p.len() > 0 && !opens_in_vain(p) {
        lemma_step(p);
    }
}

/// Whether `p` matches at `ti`, its groups and their alternatives included; with `must_end` the
/// match has to reach the end of the text. A `(` that is never closed is a byte like any other.
pub open spec fn rx_holds(t: Seq<u8>, ti: int, p: Seq<u8>, must_end: bool) -> bool {
    rx_cap(t, ti, parens_closed(p), must_end) is Some
}

/// Whether `pattern` matches somewhere in `text`; one without special characters is a literal.
pub open spec fn simple_holds(text: Seq<char>, pattern: Seq<char>) -> bool {
    let t = encode_utf8(text);
    let core = anchor_core(pattern);
    if has_meta(core) {
        like_holds(text, pattern)
    } else {
        literal_span(t, encode_utf8(core), anchored_start(pattern), anchored_end(pattern)) is Some
    }
}

/// Whether the pattern's elements match at the start of `text` or, unless it is anchored
/// there, at any later position.
pub open spec fn like_holds(text: Seq<char>, pattern: Seq<char>) -> bool {
    let t = encode_utf8(text);
    exists|start: int|
        0 <= start <= (if anchored_start(pattern) {
            0
        } else {
            t.len() as int
        }) && #[trigger] rx_holds(
            t,
            start,
            encode_utf8(anchor_core(pattern)),
            anchored_end(pattern),
        )
}

/// Makes a `(` that is never closed stand for itself.
fn close_parens(pat: &[u8]) -> (r: Vec<u8>)
    ensures
        r@ == parens_closed(pat@),
{
    let ghost p = pat@;
    let mut out: Vec<u8> = Vec::new();
    let mut i: usize = 0;
    assert(p.skip(0) =~= p);
    assert(out@ + parens_closed(p) =~= parens_closed(p));
    while i < pat.len()
        invariant
            i <= pat@.len(),
            p == pat@,
            out@ + parens_closed(p.skip(i as int)) == parens_closed(p),
        decreases pat@.len() - i,
    {
        let rest = vstd::slice::slice_subrange(pat, i, pat.len());
        let ghost q = rest@;
        let ghost before = out@;
        assert(q =~= p.skip(i as int));
        let end: Option<usize> = if rest[0] == LPAREN {
            match find_matching_paren_bytes(rest, 1) {
                Some(c) => Some(c + 1),
                None => None,
            }
        } else {
            let (n, _) = parse_regex_elem(rest);
            Some(n)
        };
        match end {
            None => {
                out.push(BACKSLASH);
                out.push(LPAREN);
                proof {
                    assert(q.skip(1) =~= p.skip(i + 1));
                    assert(out@ + parens_closed(q.skip(1)) =~= before + (seq![BACKSLASH, LPAREN]
                        + parens_closed(q.skip(1))));
                }
                i = i + 1;
            },
            Some(n) => {
                let (_, m) = parse_quantifier(rest, n);
                out.extend_from_slice(vstd::slice::slice_subrange(rest, 0, m));
                proof {
                    lemma_step(q);
                    assert(q.skip(m as int).len() == rx_rest(q, n as int).len());
                    assert(m == rx_step(q));
                    assert(q.skip(m as int) =~= p.skip(i + m));
                    assert(out@ =~= before + q.take(m as int));
                    assert(out@ + parens_closed(q.skip(m as int)) =~= before + (q.take(m as int)
                        + parens_closed(q.skip(m as int))));
                }
                i = i + m;
            },
        }
    }
    proof {
        assert(p.skip(i as int).len() == 0);
        assert(out@ + parens_closed(p.skip(i as int)) =~= out@);
    }
    out
}

/// Whether the elements of a pattern match somewhere in the text: `.`, `[abc]` and other bytes,
/// each with `*`, `+` or `?` behind it or not, `(a|b)` and the anchors. A `(` that is never closed
/// stands for itself.
pub fn regex_like_match(text: &str, pattern: &str) -> (r: bool)
    ensures
        r == like_holds(text@, pattern@),
{
    let (core, start_anchor, end_anchor) = regex_strip_anchors(pattern);
    let t = text.as_bytes();
    let closed = close_parens(core.as_bytes());
    let ghost c = encode_utf8(anchor_core(pattern@));
    let last: usize = if start_anchor {
        0
    } else {
        t.len()
    };
    let mut start: usize = 0;
    loop
        invariant
            start <= last <= t@.len(),
            t@ == encode_utf8(text@),
            c == encode_utf8(anchor_core(pattern@)),
            closed@ == parens_closed(c),
            end_anchor == anchored_end(pattern@),
            last == (if anchored_start(pattern@) {
                0
            } else {
                t@.len() as int
            }),
            forall|s: int| 0 <= s < start ==> !#[trigger] rx_holds(t@, s, c, end_anchor),
        decreases last - start,
    {
        if regex_match_capturing(t, start, closed.as_slice(), end_anchor).is_some() {
            assert(rx_holds(t@, start as int, c, end_anchor));
            return true;
        }
        assert(!rx_holds(t@, start as int, c, end_anchor));
        if start == last {
            return false;
        }
        start = start + 1;
    }
}

/// Whether a pattern matches somewhere in the text; one without special characters is
/// compared as a literal.
pub fn simple_regex_match(text: &str, pattern: &str) -> (r: bool)
    ensures
        r == simple_holds(text@, pattern@),
{
    let (core, start, end) = regex_strip_anchors(pattern);
    if has_regex_metachar(core) {
        return regex_like_match(text, pattern);
    }
    literal_match_range(text.as_bytes(), core.as_bytes(), start, end).is_some()
}

proof fn lemma_closed(p: Seq<u8>)
    requires
        !rx_unclosed(p),
    ensures
        parens_closed(p) == p,
    decreases p.len(),
{
    if p.len() > 0 {
        lemma_step(p);
        lemma_closed(p.skip(rx_step(p)));
        assert(p.take(rx_step(p)) + p.skip(rx_step(p)) =~= p);
    }
}

proof fn lemma_unclosed_rep(t: Seq<u8>, ti: int, c: int, min: int, rest: Seq<u8>, must_end: bool)
    requires
        forall|i: int| (#[trigger] rx_cap(t, i, rest, must_end)) is None,
    ensures
        rx_cap_rep(t, ti, c, min, rest, must_end) is None,
    decreases c + 1,
{
    if c >= min && c >= 0 {
        assert(rx_cap(t, ti + c, rest, must_end) is None);
        lemma_unclosed_rep(t, ti, c - 1, min, rest, must_end);
    }
}

proof fn lemma_unclosed_alts(t: Seq<u8>, ti: int, p: Seq<u8>, must_end: bool, k: int)
    requires
        p.len() > 0,
        rx_close(p, 1, 0) is Some,
        forall|i: int|
            (#[trigger] rx_cap(t, i, rx_rest(p, rx_close(p, 1, 0)->0 + 1), must_end)) is None,
    ensures
        rx_cap_alts(t, ti, p, must_end, k) is None,
    decreases rx_group_alts(p).len() - k,
{
    if 0 <= k < rx_group_alts(p).len() {
        lemma_unclosed_alts(t, ti, p, must_end, k + 1);
        if let Some(e) = rx_try(t, ti, rx_group_alts(p)[k]) {
            assert(rx_cap(t, e, rx_rest(p, rx_close(p, 1, 0)->0 + 1), must_end) is None);
        }
    }
}

proof fn lemma_unclosed_fill(
    t: Seq<u8>,
    ti: int,
    end: int,
    p: Seq<u8>,
    must_end: bool,
    min: int,
)
    requires
        p.len() > 0,
        rx_close(p, 1, 0) is Some,
        forall|i: int|
            (#[trigger] rx_cap(t, i, rx_rest(p, rx_close(p, 1, 0)->0 + 1), must_end)) is None,
    ensures
        rx_cap_fill(t, ti, end, p, must_end, min) is None,
    decreases end - ti + 1,
{
    if end >= ti {
        lemma_unclosed_fill(t, ti, end - 1, p, must_end, min);
        assert(rx_cap(t, end, rx_rest(p, rx_close(p, 1, 0)->0 + 1), must_end) is None);
    }
}

proof fn lemma_unclosed(t: Seq<u8>, ti: int, p: Seq<u8>, must_end: bool)
    requires
        rx_unclosed(p),
    ensures
        rx_cap(t, ti, p, must_end) is None,
    decreases p.len(),
{
    if !opens_in_vain(p) {
        lemma_step(p);
        let n = if p[0] == LPAREN {
            rx_close(p, 1, 0)->0 + 1
        } else {
            rx_elem_len(p)
        };
        let rest = rx_rest(p, n);
        assert(rest == p.skip(rx_step(p)));
        assert forall|i: int| (#[trigger] rx_cap(t, i, rest, must_end)) is None by {
            lemma_unclosed(t, i, rest, must_end);
        }
        assert(rx_cap(t, ti, rest, must_end) is None);
        assert(rx_cap(t, ti + 1, rest, must_end) is None);
        if p[0] == LPAREN {
            lemma_unclosed_alts(t, ti, p, must_end, 0);
            lemma_unclosed_fill(t, ti, t.len() as int, p, must_end, 0);
            lemma_unclosed_fill(t, ti, t.len() as int, p, must_end, 1);
        } else {
            let c = rx_count(t, ti, p);
            lemma_unclosed_rep(t, ti, c, 0, rest, must_end);
            lemma_unclosed_rep(t, ti, c, 1, rest, must_end);
        }
    }
}

proof fn lemma_search(t: Seq<u8>, start: int, last: int, p: Seq<u8>, must_end: bool)
    ensures
        rx_search(t, start, last, p, must_end) is Some <==> exists|s: int|
            start <= s <= last && (#[trigger] rx_cap(t, s, p, must_end)) is Some,
    decreases last - start + 1,
{
    if start <= last {
        lemma_search(t, start + 1, last, p, must_end);
    }
}

/// Both matchers accept the same texts: where the one that captures finds a match, the one that only
/// answers yes or no says yes, and the other way round unless the pattern holds a group that is
/// never closed. To the one that captures such a pattern matches nothing.
pub proof fn law_matchers_agree(text: Seq<char>, pattern: Seq<char>)
    ensures
        ({
            let core = anchor_core(pattern);
            regex_spans(text, pattern) is Some <==> simple_holds(text, pattern) && !(has_meta(core)
                && rx_unclosed(encode_utf8(core)))
        }),
{
    let t = encode_utf8(text);
    let core = encode_utf8(anchor_core(pattern));
    let end = anchored_end(pattern);
    let last = if anchored_start(pattern) {
        0
    } else {
        t.len() as int
    };
    lemma_search(t, 0, last, core, end);
    if rx_unclosed(core) {
        assert forall|s: int| 0 <= s <= last implies (#[trigger] rx_cap(t, s, core, end)) is None by {
            lemma_unclosed(t, s, core, end);
        }
    } else {
        lemma_closed(core);
        if like_holds(text, pattern) {
            let s = choose|s: int| 0 <= s <= last && #[trigger] rx_holds(t, s, core, end);
            assert(rx_cap(t, s, core, end) is Some);
        }
        if exists|s: int| 0 <= s <= last && (#[trigger] rx_cap(t, s, core, end)) is Some {
            let s = choose|s: int| 0 <= s <= last && (#[trigger] rx_cap(t, s, core, end)) is Some;
            assert(rx_holds(t, s, core, end));
        }
    }
}

} // verus!
