//! The backtracking matcher behind `=~`.
use crate::ascii::{
    BACKSLASH, BANG, CARET, DASH, DOT, LBRACKET, LPAREN, PIPE, PLUS, QUESTION, RBRACKET, RPAREN,
    STAR,
};
use crate::pattern::regex_spec::{
    anchor_core, anchored_end, anchored_start, find_from, has_meta, is_regex_metachar,
    lemma_elem_len, lemma_group_alts, literal_span, regex_spans, rx_after_group, rx_alts, rx_cap,
    rx_cap_alts, rx_cap_fill, rx_cap_rep, rx_class_first, rx_class_has, rx_class_next,
    rx_class_range, rx_class_stop, rx_close, rx_count, rx_elem_accepts, rx_elem_len, rx_fill,
    rx_group_alts, rx_quant, rx_rest, rx_search, rx_try, rx_try_group, rx_try_rep, spans_keep_chars,
    with_group, Hit,
};
use crate::text::{byte_slice, bytes_at, bytes_eq};
use crate::views::{lemma_rows_push, rows};
use vstd::prelude::*;
use vstd::slice::slice_subrange;
use vstd::utf8::{encode_utf8, is_char_boundary};

verus! {

/// One element of a pattern: what it takes of one byte.
pub enum RegexElem {
    Any,
    Byte(u8),
    Class { chars: Vec<u8>, negate: bool },
}

impl RegexElem {
    /// Whether the element accepts `c`.
    pub open spec fn accepts(&self, c: u8) -> bool {
        match self {
            RegexElem::Any => true,
            RegexElem::Byte(b) => c == *b,
            RegexElem::Class { chars, negate } => chars@.contains(c) != *negate,
        }
    }

    /// Whether the element accepts `c`.
    pub fn matches(&self, c: u8) -> (r: bool)
        ensures
            r == self.accepts(c),
    {
        match self {
            RegexElem::Any => true,
            RegexElem::Byte(b) => c == *b,
            RegexElem::Class { chars, negate } => regex_char_class_matches(
                chars.as_slice(),
                *negate,
                c,
            ),
        }
    }
}

fn regex_char_class_matches(chars: &[u8], negate: bool, c: u8) -> (r: bool)
    ensures
        r == (chars@.contains(c) != negate),
{
    let mut found: bool = false;
    let mut i: usize = 0;
    while i < chars.len() && !found
        invariant
            i <= chars@.len(),
            found ==> chars@.contains(c),
            !found ==> forall|k: int| 0 <= k < i ==> chars@[k] != c,
        decreases chars@.len() - i,
    {
        if chars[i] == c {
            assert(chars@[i as int] == c);
            found = true;
        }
        i = i + 1;
    }
    if negate {
        !found
    } else {
        found
    }
}

/// Reads the element at the start of `pat`, and returns its length with it.
pub fn parse_regex_elem(pat: &[u8]) -> (r: (usize, RegexElem))
    requires
        pat@.len() > 0,
    ensures
        r.0 == rx_elem_len(pat@),
        1 <= r.0 <= pat@.len(),
        forall|c: u8| r.1.accepts(c) == rx_elem_accepts(pat@, c),
{
    let b: u8 = pat[0];
    if b == DOT {
        (1, RegexElem::Any)
    } else if b == LBRACKET {
        parse_regex_char_class(pat)
    } else if b == BACKSLASH && pat.len() > 1 {
        (2, RegexElem::Byte(pat[1]))
    } else {
        (1, RegexElem::Byte(b))
    }
}

fn push_range(chars: &mut Vec<u8>, lo: u8, hi: u8)
    ensures
        forall|c: u8|
            final(chars)@.contains(c) <==> (old(chars)@.contains(c) || lo <= c <= hi),
{
    let ghost before = chars@;
    let mut next: u16 = lo as u16;
    while next <= hi as u16
        invariant
            lo <= next <= 256,
            next <= hi + 1 || next == lo,
            forall|c: u8| chars@.contains(c) <==> (before.contains(c) || lo <= c < next),
        decreases 256 - next,
    {
        let ghost prev = chars@;
        chars.push(next as u8);
        assert forall|c: u8| chars@.contains(c) <==> (before.contains(c) || lo <= c < next + 1) by {
            if prev.contains(c) {
                let k = choose|k: int| 0 <= k < prev.len() && prev[k] == c;
                assert(chars@[k] == c);
            }
            assert(chars@[prev.len() as int] == next as u8);
            if chars@.contains(c) {
                let k = choose|k: int| 0 <= k < chars@.len() && chars@[k] == c;
                if k < prev.len() {
                    assert(prev[k] == c);
                }
            }
        }
        next = next + 1;
    }
}

fn parse_regex_char_class(pat: &[u8]) -> (r: (usize, RegexElem))
    requires
        pat@.len() > 0,
        pat@[0] == LBRACKET,
    ensures
        r.0 == rx_elem_len(pat@),
        1 <= r.0 <= pat@.len(),
        forall|c: u8| r.1.accepts(c) == rx_elem_accepts(pat@, c),
{
    let ghost p = pat@;
    let negate: bool = pat.len() > 1 && (pat[1] == CARET || pat[1] == BANG);
    let mut i: usize = if negate {
        2
    } else {
        1
    };
    let ghost first = i as int;
    let mut chars: Vec<u8> = Vec::new();
    while i < pat.len() && pat[i] != RBRACKET
        invariant
            p == pat@,
            first == rx_class_first(p),
            1 <= i <= p.len(),
            rx_class_stop(p, first) == rx_class_stop(p, i as int),
            forall|c: u8|
                rx_class_has(p, first, c) == (chars@.contains(c) || rx_class_has(p, i as int, c)),
        decreases p.len() - i,
    {
        let ghost prev = chars@;
        let ghost at = i as int;
        if pat.len() - i > 2 && pat[i + 1] == DASH {
            push_range(&mut chars, pat[i], pat[i + 2]);
            i = i + 3;
        } else {
            chars.push(pat[i]);
            proof {
                assert forall|c: u8|
                    chars@.contains(c) <==> (prev.contains(c) || p[i as int] == c) by {
                    if prev.contains(c) {
                        let k = choose|k: int| 0 <= k < prev.len() && prev[k] == c;
                        assert(chars@[k] == c);
                    }
                    assert(chars@[prev.len() as int] == p[i as int]);
                    if chars@.contains(c) {
                        let k = choose|k: int| 0 <= k < chars@.len() && chars@[k] == c;
                        if k < prev.len() {
                            assert(prev[k] == c);
                        }
                    }
                }
            }
            i = i + 1;
        }
        proof {
            assert forall|c: u8|
                rx_class_has(p, first, c) == (chars@.contains(c) || rx_class_has(
                    p,
                    i as int,
                    c,
                )) by {
                assert(rx_class_has(p, first, c) == (prev.contains(c) || rx_class_has(p, at, c)));
                assert(i == rx_class_next(p, at));
                assert(chars@.contains(c) == (prev.contains(c) || if rx_class_range(p, at) {
                    p[at] <= c <= p[at + 2]
                } else {
                    p[at] == c
                }));
                assert(rx_class_has(p, at, c) == ((if rx_class_range(p, at) {
                    p[at] <= c <= p[at + 2]
                } else {
                    p[at] == c
                }) || rx_class_has(p, i as int, c)));
            }
        }
    }
    let end: usize = if i < pat.len() {
        i + 1
    } else {
        i
    };
    (end, RegexElem::Class { chars, negate })
}

/// Finds the `)` that closes the group whose body starts at `start`.
pub fn find_matching_paren_bytes(pat: &[u8], start: usize) -> (r: Option<usize>)
    requires
        start <= pat@.len(),
    ensures
        match r {
            Some(c) => rx_close(pat@, start as int, 0) == Some(c as int) && start <= c < pat@.len(),
            None => rx_close(pat@, start as int, 0) is None,
        },
{
    let ghost p = pat@;
    let mut open: usize = 0;
    let mut i: usize = start;
    while i < pat.len()
        invariant
            p == pat@,
            start <= i,
            open <= i,
            rx_close(p, start as int, 0) == rx_close(p, i as int, open as int),
        decreases p.len() - i,
    {
        if pat[i] == BACKSLASH {
            if pat.len() - i <= 2 {
                assert(rx_close(p, i + 2, open as int) is None);
                return None;
            }
            i = i + 2;
            continue;
        }
        if pat[i] == LPAREN {
            open = open + 1;
        } else if pat[i] == RPAREN {
            if open == 0 {
                return Some(i);
            }
            open = open - 1;
        }
        i = i + 1;
    }
    None
}

/// Splits a group's body at the `|` that stand outside every inner group.
pub fn split_alternatives_bytes(pat: &[u8]) -> (r: Vec<Vec<u8>>)
    ensures
        rows(r@) == rx_alts(pat@, 0, 0, Seq::empty()),
{
    broadcast use lemma_rows_push;

    let ghost p = pat@;
    let mut alternatives: Vec<Vec<u8>> = Vec::new();
    let mut current: Vec<u8> = Vec::new();
    let mut level: i128 = 0;
    let mut i: usize = 0;
    assert(current@ =~= Seq::<u8>::empty());
    assert(rows(alternatives@) + rx_alts(p, 0, 0, current@) =~= rx_alts(p, 0, 0, Seq::empty()));
    while i < pat.len()
        invariant
            p == pat@,
            i <= p.len(),
            -(i as int) <= level <= i,
            rows(alternatives@) + rx_alts(p, i as int, level as int, current@) == rx_alts(
                p,
                0,
                0,
                Seq::empty(),
            ),
        decreases p.len() - i,
    {
        let b: u8 = pat[i];
        if b == BACKSLASH && pat.len() - i > 1 {
            current.push(b);
            current.push(pat[i + 1]);
            i = i + 2;
            continue;
        }
        if b == LPAREN {
            level = level + 1;
            current.push(b);
        } else if b == RPAREN {
            level = level - 1;
            current.push(b);
        } else if b == PIPE && level == 0 {
            let ghost before = rows(alternatives@);
            let piece = current;
            current = Vec::new();
            alternatives.push(piece);
            assert(current@ =~= Seq::<u8>::empty());
            assert(rows(alternatives@) + rx_alts(p, i + 1, 0, current@) =~= before + (seq![piece@]
                + rx_alts(p, i + 1, 0, Seq::empty())));
        } else {
            current.push(b);
        }
        i = i + 1;
    }
    let ghost before = rows(alternatives@);
    alternatives.push(current);
    assert(rows(alternatives@) =~= before + seq![current@]);
    alternatives
}

/// The quantifier at `pos`, or zero, with the position past it.
pub fn parse_quantifier(pat: &[u8], pos: usize) -> (r: (u8, usize))
    requires
        pos <= pat@.len(),
    ensures
        r.0 == rx_quant(pat@, pos as int),
        r.1 <= pat@.len(),
        pat@.skip(r.1 as int) == rx_rest(pat@, pos as int),
        r.0 == 0 <==> r.1 == pos,
{
    if pos < pat.len() {
        let b: u8 = pat[pos];
        if b == STAR || b == PLUS || b == QUESTION {
            return (b, pos + 1);
        }
    }
    (0, pos)
}

/// How many bytes of the text from `ti` on the element accepts in a row.
pub(crate) fn count_regex_matches(text: &[u8], ti: usize, elem: &RegexElem, Ghost(p): Ghost<Seq<u8>>) -> (r:
    usize)
    requires
        ti <= text@.len(),
        forall|c: u8| elem.accepts(c) == rx_elem_accepts(p, c),
    ensures
        r == rx_count(text@, ti as int, p),
        ti + r <= text@.len(),
{
    let mut count: usize = 0;
    assert(text.len() == text@.len());
    while count < text.len() - ti && elem.matches(text[ti + count])
        invariant
            ti + count <= text@.len(),
            text.len() == text@.len(),
            forall|c: u8| elem.accepts(c) == rx_elem_accepts(p, c),
            rx_count(text@, ti as int, p) == count + rx_count(text@, ti + count, p),
        decreases text@.len() - ti - count,
    {
        count = count + 1;
    }
    count
}

/// Matches `pat` at `ti` without captures, and returns where the match ends.
pub fn regex_try_match_inner(text: &[u8], ti: usize, pat: &[u8]) -> (r: Option<usize>)
    requires
        ti <= text@.len(),
    ensures
        match r {
            Some(e) => rx_try(text@, ti as int, pat@) == Some(e as int) && ti <= e <= text@.len(),
            None => rx_try(text@, ti as int, pat@) is None,
        },
    decreases pat@.len(), 2nat,
{
    if pat.len() == 0 {
        return Some(ti);
    }
    if pat[0] == LPAREN {
        return regex_try_match_group(text, ti, pat);
    }
    let (elem_end, elem) = parse_regex_elem(pat);
    let (quant, after) = parse_quantifier(pat, elem_end);
    proof {
        lemma_elem_len(pat@);
    }
    let rest = slice_subrange(pat, after, pat.len());
    assert(rest@ =~= rx_rest(pat@, elem_end as int));
    if quant == STAR || quant == PLUS {
        let min: usize = if quant == PLUS {
            1
        } else {
            0
        };
        let count = count_regex_matches(text, ti, &elem, Ghost(pat@));
        regex_try_match_repeated_elem(text, ti, count, min, rest)
    } else if quant == QUESTION {
        if ti < text.len() && elem.matches(text[ti]) {
            if let Some(end) = regex_try_match_inner(text, ti + 1, rest) {
                return Some(end);
            }
        }
        regex_try_match_inner(text, ti, rest)
    } else if ti < text.len() && elem.matches(text[ti]) {
        regex_try_match_inner(text, ti + 1, rest)
    } else {
        None
    }
}

fn regex_try_match_repeated_elem(
    text: &[u8],
    ti: usize,
    count: usize,
    min: usize,
    rest: &[u8],
) -> (r: Option<usize>)
    requires
        ti + count <= text@.len(),
        min <= 1,
    ensures
        match r {
            Some(e) => rx_try_rep(text@, ti as int, count as int, min as int, rest@) == Some(
                e as int,
            ) && ti <= e <= text@.len(),
            None => rx_try_rep(text@, ti as int, count as int, min as int, rest@) is None,
        },
    decreases rest@.len(), 3nat,
{
    if count < min {
        return None;
    }
    assert(text.len() == text@.len());
    let mut c: usize = count;
    loop
        invariant
            min <= c <= count,
            ti + count <= text@.len(),
            text.len() == text@.len(),
            rx_try_rep(text@, ti as int, count as int, min as int, rest@) == rx_try_rep(
                text@,
                ti as int,
                c as int,
                min as int,
                rest@,
            ),
        decreases c,
    {
        if let Some(end) = regex_try_match_inner(text, ti + c, rest) {
            return Some(end);
        }
        if c == min {
            assert(rx_try_rep(text@, ti as int, c - 1, min as int, rest@) is None);
            return None;
        }
        c = c - 1;
    }
}

fn regex_try_match_group(text: &[u8], ti: usize, pat: &[u8]) -> (r: Option<usize>)
    requires
        ti <= text@.len(),
        pat@.len() > 0,
    ensures
        match r {
            Some(e) => rx_try_group(text@, ti as int, pat@, 0) == Some(e as int) && ti <= e
                <= text@.len(),
            None => rx_try_group(text@, ti as int, pat@, 0) is None,
        },
    decreases pat@.len(), 1nat,
{
    let close = match find_matching_paren_bytes(pat, 1) {
        Some(c) => c,
        None => return None,
    };
    assert(close < pat.len());
    let inner = slice_subrange(pat, 1, close);
    let rest = slice_subrange(pat, close + 1, pat.len());
    let alternatives = split_alternatives_bytes(inner);
    proof {
        lemma_group_alts(pat@);
        assert(rest@ =~= rx_after_group(pat@));
        assert(rows(alternatives@) == rx_group_alts(pat@));
    }
    let mut k: usize = 0;
    while k < alternatives.len()
        invariant
            k <= alternatives@.len(),
            ti <= text@.len(),
            pat@.len() > 0,
            rows(alternatives@) == rx_group_alts(pat@),
            rest@ == rx_after_group(pat@),
            rest@.len() < pat@.len(),
            forall|j: int|
                0 <= j < rx_group_alts(pat@).len() ==> (#[trigger] rx_group_alts(pat@)[j]).len()
                    < pat@.len(),
            rx_try_group(text@, ti as int, pat@, 0) == rx_try_group(text@, ti as int, pat@, k as int),
        decreases alternatives@.len() - k,
    {
        let alt = alternatives[k].as_slice();
        assert(alt@ == rows(alternatives@)[k as int]);
        if let Some(end) = regex_try_match_inner(text, ti, alt) {
            if let Some(last) = regex_try_match_inner(text, end, rest) {
                return Some(last);
            }
        }
        k = k + 1;
    }
    None
}

/// Whether the alternatives, one after the other, fill the text from `start` to `end`.
pub fn regex_match_group_repeated(
    text: &[u8],
    start: usize,
    end: usize,
    alternatives: &Vec<Vec<u8>>,
    min_reps: usize,
) -> (r: bool)
    requires
        start <= end <= text@.len(),
    ensures
        r == rx_fill(text@, start as int, end as int, rows(alternatives@), min_reps as int),
    decreases end - start,
{
    let ghost alts = rows(alternatives@);
    if start == end {
        return min_reps == 0;
    }
    let mut k: usize = 0;
    let fewer: usize = if min_reps > 0 {
        min_reps - 1
    } else {
        0
    };
    while k < alternatives.len()
        invariant
            k <= alternatives@.len(),
            start < end <= text@.len(),
            alts == rows(alternatives@),
            fewer == (if min_reps > 0 {
                min_reps - 1
            } else {
                0
            }),
            forall|j: int|
                0 <= j < k ==> match rx_try(text@, start as int, #[trigger] alts[j]) {
                    Some(a) => !(start < a <= end && ((a == end && min_reps <= 1) || rx_fill(
                        text@,
                        a,
                        end as int,
                        alts,
                        fewer as int,
                    ))),
                    None => true,
                },
        decreases alternatives@.len() - k,
    {
        let alt = alternatives[k].as_slice();
        assert(alt@ == alts[k as int]);
        if let Some(after) = regex_try_match_inner(text, start, alt) {
            if after > start && after <= end {
                if after == end && min_reps <= 1 {
                    return true;
                }
                if regex_match_group_repeated(text, after, end, alternatives, fewer) {
                    return true;
                }
            }
        }
        k = k + 1;
    }
    false
}

/// The spans as mathematical integers.
pub open spec fn spans_of(v: Seq<(usize, usize)>) -> Seq<(int, int)> {
    v.map_values(|c: (usize, usize)| (c.0 as int, c.1 as int))
}

/// What a matcher returned, as a match of the model.
pub open spec fn hit_of(r: Option<(usize, Vec<(usize, usize)>)>) -> Option<Hit> {
    match r {
        Some((e, caps)) => Some((e as int, spans_of(caps@))),
        None => None,
    }
}

/// Every position lies in the text, and no span ends before it starts.
pub open spec fn hit_in_text(r: Option<(usize, Vec<(usize, usize)>)>, ti: int, len: int) -> bool {
    match r {
        Some((e, caps)) => ti <= e <= len && forall|k: int|
            0 <= k < caps@.len() ==> (#[trigger] caps@[k]).0 <= caps@[k].1 <= len,
        None => true,
    }
}

fn prepend_span(start: usize, end: usize, hit: (usize, Vec<(usize, usize)>)) -> (r: (
    usize,
    Vec<(usize, usize)>,
))
    requires
        start <= end,
    ensures
        hit_of(Some(r)) == with_group((start as int, end as int), hit_of(Some(hit))),
        forall|ti: int, len: int|
            hit_in_text(Some(hit), end as int, len) && ti <= end && end <= len
                ==> #[trigger] hit_in_text(Some(r), ti, len),
{
    let (last, mut caps) = hit;
    let ghost before = caps@;
    caps.insert(0, (start, end));
    assert(spans_of(caps@) =~= seq![(start as int, end as int)] + spans_of(before));
    assert forall|ti: int, len: int|
        hit_in_text(Some(hit), end as int, len) && ti <= end && end
            <= len implies #[trigger] hit_in_text(Some((last, caps)), ti, len) by {
        assert forall|k: int| 0 <= k < caps@.len() implies (#[trigger] caps@[k]).0 <= caps@[k].1
            <= len by {
            if k > 0 {
                assert(caps@[k] == before[k - 1]);
            }
        }
    }
    (last, caps)
}

/// Matches `pat` at `ti`, and returns where the match ends with the span of each group.
pub fn regex_match_capturing(text: &[u8], ti: usize, pat: &[u8], must_end: bool) -> (r: Option<
    (usize, Vec<(usize, usize)>),
>)
    requires
        ti <= text@.len(),
    ensures
        hit_of(r) == rx_cap(text@, ti as int, pat@, must_end),
        hit_in_text(r, ti as int, text@.len() as int),
    decreases pat@.len(), 2nat,
{
    if pat.len() == 0 {
        if must_end && ti < text.len() {
            return None;
        }
        let none: Vec<(usize, usize)> = Vec::new();
        assert(spans_of(none@) =~= Seq::empty());
        return Some((ti, none));
    }
    if pat[0] == LPAREN {
        return regex_match_group(text, ti, pat, must_end);
    }
    regex_match_elem(text, ti, pat, must_end)
}

fn regex_match_group(text: &[u8], ti: usize, pat: &[u8], must_end: bool) -> (r: Option<
    (usize, Vec<(usize, usize)>),
>)
    requires
        ti <= text@.len(),
        pat@.len() > 0,
        pat@[0] == LPAREN,
    ensures
        hit_of(r) == rx_cap(text@, ti as int, pat@, must_end),
        hit_in_text(r, ti as int, text@.len() as int),
    decreases pat@.len(), 1nat,
{
    let close = match find_matching_paren_bytes(pat, 1) {
        Some(c) => c,
        None => return None,
    };
    assert(close < pat.len());
    let inner = slice_subrange(pat, 1, close);
    let alternatives = split_alternatives_bytes(inner);
    let (quant, after) = parse_quantifier(pat, close + 1);
    let rest = slice_subrange(pat, after, pat.len());
    proof {
        lemma_group_alts(pat@);
        assert(rest@ =~= rx_rest(pat@, close + 1));
        assert(rows(alternatives@) == rx_group_alts(pat@));
    }
    if quant == STAR || quant == PLUS {
        let min: usize = if quant == PLUS {
            1
        } else {
            0
        };
        regex_match_group_rep(text, ti, pat, rest, must_end, &alternatives, min)
    } else if quant == QUESTION {
        if let Some(hit) = regex_try_group_one_alt(text, ti, pat, rest, must_end, &alternatives) {
            return Some(hit);
        }
        match regex_match_capturing(text, ti, rest, must_end) {
            Some(hit) => Some(prepend_span(ti, ti, hit)),
            None => None,
        }
    } else {
        regex_try_group_one_alt(text, ti, pat, rest, must_end, &alternatives)
    }
}

/// Matches the longest repetition of a group after which the rest matches.
fn regex_match_group_rep(
    text: &[u8],
    ti: usize,
    pat: &[u8],
    rest: &[u8],
    must_end: bool,
    alternatives: &Vec<Vec<u8>>,
    min_reps: usize,
) -> (r: Option<(usize, Vec<(usize, usize)>)>)
    requires
        ti <= text@.len(),
        rest@.len() < pat@.len(),
        rx_close(pat@, 1, 0) is Some,
        rest@ == rx_rest(pat@, rx_close(pat@, 1, 0)->0 + 1),
        rows(alternatives@) == rx_group_alts(pat@),
    ensures
        hit_of(r) == rx_cap_fill(
            text@,
            ti as int,
            text@.len() as int,
            pat@,
            must_end,
            min_reps as int,
        ),
        hit_in_text(r, ti as int, text@.len() as int),
    decreases pat@.len(), 0nat,
{
    let mut end: usize = text.len();
    loop
        invariant
            ti <= end <= text@.len(),
            rest@.len() < pat@.len(),
            rx_close(pat@, 1, 0) is Some,
            rest@ == rx_rest(pat@, rx_close(pat@, 1, 0)->0 + 1),
            rows(alternatives@) == rx_group_alts(pat@),
            rx_cap_fill(
                text@,
                ti as int,
                text@.len() as int,
                pat@,
                must_end,
                min_reps as int,
            ) == rx_cap_fill(text@, ti as int, end as int, pat@, must_end, min_reps as int),
        decreases end,
    {
        if regex_match_group_repeated(text, ti, end, alternatives, min_reps) {
            if let Some(hit) = regex_match_capturing(text, end, rest, must_end) {
                return Some(prepend_span(ti, end, hit));
            }
        }
        if end == ti {
            assert(rx_cap_fill(text@, ti as int, ti - 1, pat@, must_end, min_reps as int) is None);
            return None;
        }
        end = end - 1;
    }
}

/// Matches the first alternative of a group after which the rest matches.
fn regex_try_group_one_alt(
    text: &[u8],
    ti: usize,
    pat: &[u8],
    rest: &[u8],
    must_end: bool,
    alternatives: &Vec<Vec<u8>>,
) -> (r: Option<(usize, Vec<(usize, usize)>)>)
    requires
        ti <= text@.len(),
        rest@.len() < pat@.len(),
        rx_close(pat@, 1, 0) is Some,
        rest@ == rx_rest(pat@, rx_close(pat@, 1, 0)->0 + 1),
        rows(alternatives@) == rx_group_alts(pat@),
    ensures
        hit_of(r) == rx_cap_alts(text@, ti as int, pat@, must_end, 0),
        hit_in_text(r, ti as int, text@.len() as int),
    decreases pat@.len(), 0nat,
{
    let mut k: usize = 0;
    while k < alternatives.len()
        invariant
            k <= alternatives@.len(),
            ti <= text@.len(),
            rest@.len() < pat@.len(),
            rx_close(pat@, 1, 0) is Some,
            rest@ == rx_rest(pat@, rx_close(pat@, 1, 0)->0 + 1),
            rows(alternatives@) == rx_group_alts(pat@),
            rx_cap_alts(text@, ti as int, pat@, must_end, 0) == rx_cap_alts(
                text@,
                ti as int,
                pat@,
                must_end,
                k as int,
            ),
        decreases alternatives@.len() - k,
    {
        let alt = alternatives[k].as_slice();
        assert(alt@ == rows(alternatives@)[k as int]);
        if let Some(end) = regex_try_match_inner(text, ti, alt) {
            if let Some(hit) = regex_match_capturing(text, end, rest, must_end) {
                return Some(prepend_span(ti, end, hit));
            }
        }
        k = k + 1;
    }
    None
}

fn regex_match_elem(text: &[u8], ti: usize, pat: &[u8], must_end: bool) -> (r: Option<
    (usize, Vec<(usize, usize)>),
>)
    requires
        ti <= text@.len(),
        pat@.len() > 0,
        pat@[0] != LPAREN,
    ensures
        hit_of(r) == rx_cap(text@, ti as int, pat@, must_end),
        hit_in_text(r, ti as int, text@.len() as int),
    decreases pat@.len(), 1nat,
{
    let (elem_end, elem) = parse_regex_elem(pat);
    let (quant, after) = parse_quantifier(pat, elem_end);
    proof {
        lemma_elem_len(pat@);
    }
    let rest = slice_subrange(pat, after, pat.len());
    assert(rest@ =~= rx_rest(pat@, elem_end as int));
    if quant == STAR || quant == PLUS {
        let min: usize = if quant == PLUS {
            1
        } else {
            0
        };
        let count = count_regex_matches(text, ti, &elem, Ghost(pat@));
        regex_match_repeated_elem(text, ti, count, min, rest, must_end)
    } else if quant == QUESTION {
        if ti < text.len() && elem.matches(text[ti]) {
            if let Some(hit) = regex_match_capturing(text, ti + 1, rest, must_end) {
                return Some(hit);
            }
        }
        regex_match_capturing(text, ti, rest, must_end)
    } else if ti < text.len() && elem.matches(text[ti]) {
        regex_match_capturing(text, ti + 1, rest, must_end)
    } else {
        None
    }
}

fn regex_match_repeated_elem(
    text: &[u8],
    ti: usize,
    count: usize,
    min: usize,
    rest: &[u8],
    must_end: bool,
) -> (r: Option<(usize, Vec<(usize, usize)>)>)
    requires
        ti + count <= text@.len(),
        min <= 1,
    ensures
        hit_of(r) == rx_cap_rep(text@, ti as int, count as int, min as int, rest@, must_end),
        hit_in_text(r, ti as int, text@.len() as int),
    decreases rest@.len(), 3nat,
{
    if count < min {
        return None;
    }
    assert(text.len() == text@.len());
    let mut c: usize = count;
    loop
        invariant
            min <= c <= count,
            ti + count <= text@.len(),
            text.len() == text@.len(),
            rx_cap_rep(text@, ti as int, count as int, min as int, rest@, must_end) == rx_cap_rep(
                text@,
                ti as int,
                c as int,
                min as int,
                rest@,
                must_end,
            ),
        decreases c,
    {
        if let Some(hit) = regex_match_capturing(text, ti + c, rest, must_end) {
            return Some(hit);
        }
        if c == min {
            assert(rx_cap_rep(text@, ti as int, c - 1, min as int, rest@, must_end) is None);
            return None;
        }
        c = c - 1;
    }
}

/// Strips the anchors from a pattern: its core, and whether each end was anchored.
pub fn regex_strip_anchors<'a>(pattern: &'a str) -> (r: (&'a str, bool, bool))
    ensures
        r.0@ == anchor_core(pattern@),
        r.1 == anchored_start(pattern@),
        r.2 == anchored_end(pattern@),
{
    let n: usize = pattern.unicode_len();
    let start: bool = n > 0 && pattern.get_char(0) == '^';
    let end: bool = n > 0 && pattern.get_char(n - 1) == '$' && !(n > 1 && pattern.get_char(n - 2)
        == '\\');
    let a: usize = if start {
        1
    } else {
        0
    };
    let b: usize = if end {
        n - 1
    } else {
        n
    };
    (pattern.substring_char(a, b), start, end)
}

/// Whether a pattern without anchors is more than a literal.
pub fn has_regex_metachar(core: &str) -> (r: bool)
    ensures
        r == has_meta(core@),
{
    let n: usize = core.unicode_len();
    let mut i: usize = 0;
    while i < n
        invariant
            i <= n,
            n == core@.len(),
            forall|k: int| 0 <= k < i ==> !is_regex_metachar(#[trigger] core@[k]),
        decreases n - i,
    {
        let c: char = core.get_char(i);
        if c == '.' || c == '+' || c == '*' || c == '?' || c == '[' || c == '(' || c == '|' {
            assert(is_regex_metachar(core@[i as int]));
            return true;
        }
        i = i + 1;
    }
    false
}

/// The span of a literal pattern in the text.
pub fn literal_match_range(text: &[u8], core: &[u8], start: bool, end: bool) -> (r: Option<
    (usize, usize),
>)
    ensures
        match r {
            Some((a, b)) => literal_span(text@, core@, start, end) == Some((a as int, b as int))
                && a + core@.len() == b && b <= text@.len() && text@.subrange(a as int, b as int)
                == core@,
            None => literal_span(text@, core@, start, end) is None,
        },
{
    if start && end {
        if bytes_eq(text, core) {
            assert(text@.subrange(0, text@.len() as int) =~= core@);
            Some((0, text.len()))
        } else {
            None
        }
    } else if start {
        if bytes_at(text, 0, core) {
            assert(text@.take(core@.len() as int) =~= core@);
            Some((0, core.len()))
        } else {
            assert(core@.len() <= text@.len() ==> text@.take(core@.len() as int)
                =~= text@.subrange(0, core@.len() as int));
            None
        }
    } else if end {
        if core.len() <= text.len() && bytes_at(text, text.len() - core.len(), core) {
            assert(text@.skip(text@.len() - core@.len()) =~= core@);
            Some((text.len() - core.len(), text.len()))
        } else {
            assert(core@.len() <= text@.len() ==> text@.skip(text@.len() - core@.len())
                =~= text@.subrange(text@.len() - core@.len(), text@.len() as int));
            None
        }
    } else {
        if core.len() > text.len() {
            return None;
        }
        let last: usize = text.len() - core.len();
        let mut i: usize = 0;
        assert(text.len() == text@.len());
        while i <= last
            invariant
                i <= last + 1,
                last + core@.len() == text@.len(),
                text.len() == text@.len(),
                !start && !end,
                find_from(text@, 0, core@) == find_from(text@, i as int, core@),
            decreases last + 1 - i,
        {
            if bytes_at(text, i, core) {
                return Some((i, i + core.len()));
            }
            if i == last {
                assert(find_from(text@, last + 1, core@) is None);
                return None;
            }
            i = i + 1;
        }
        None
    }
}

/// Searches the spans of the first match that starts no later than `last`.
pub fn regex_find_first_match(
    text: &[u8],
    core: &[u8],
    last: usize,
    anchored_end: bool,
) -> (r: Option<Vec<(usize, usize)>>)
    requires
        last <= text@.len(),
    ensures
        match r {
            Some(v) => rx_search(text@, 0, last as int, core@, anchored_end) == Some(spans_of(v@))
                && forall|k: int|
                0 <= k < v@.len() ==> (#[trigger] v@[k]).0 <= v@[k].1 <= text@.len(),
            None => rx_search(text@, 0, last as int, core@, anchored_end) is None,
        },
{
    let mut start: usize = 0;
    loop
        invariant
            start <= last <= text@.len(),
            rx_search(text@, 0, last as int, core@, anchored_end) == rx_search(
                text@,
                start as int,
                last as int,
                core@,
                anchored_end,
            ),
        decreases last - start,
    {
        if let Some((end, mut caps)) = regex_match_capturing(text, start, core, anchored_end) {
            let ghost before = caps@;
            caps.insert(0, (start, end));
            proof {
                assert(spans_of(caps@) =~= seq![(start as int, end as int)] + spans_of(before));
                assert forall|k: int| 0 <= k < caps@.len() implies (#[trigger] caps@[k]).0
                    <= caps@[k].1 <= text@.len() by {
                    if k > 0 {
                        assert(caps@[k] == before[k - 1]);
                    }
                }
            }
            return Some(caps);
        }
        if start == last {
            assert(rx_search(text@, last + 1, last as int, core@, anchored_end) is None);
            return None;
        }
        start = start + 1;
    }
}

/// The strings at the given spans of the text.
fn regex_build_capture_list(text: &str, spans: &Vec<(usize, usize)>) -> (r: Vec<String>)
    requires
        forall|k: int|
            0 <= k < spans@.len() ==> (#[trigger] spans@[k]).0 <= spans@[k].1 <= encode_utf8(
                text@,
            ).len() && is_char_boundary(encode_utf8(text@), spans@[k].0 as int)
                && is_char_boundary(encode_utf8(text@), spans@[k].1 as int),
    ensures
        captured(text@, spans_of(spans@), r@),
{
    let mut result: Vec<String> = Vec::new();
    let mut k: usize = 0;
    while k < spans.len()
        invariant
            k <= spans@.len(),
            result@.len() == k,
            forall|j: int|
                0 <= j < spans@.len() ==> (#[trigger] spans@[j]).0 <= spans@[j].1 <= encode_utf8(
                    text@,
                ).len() && is_char_boundary(encode_utf8(text@), spans@[j].0 as int)
                    && is_char_boundary(encode_utf8(text@), spans@[j].1 as int),
            forall|j: int|
                0 <= j < k ==> encode_utf8((#[trigger] result@[j])@) == encode_utf8(text@).subrange(
                    spans@[j].0 as int,
                    spans@[j].1 as int,
                ),
        decreases spans@.len() - k,
    {
        let (a, b) = spans[k];
        assert(spans@[k as int] == (a, b));
        result.push(byte_slice(text, a, b).to_owned());
        k = k + 1;
    }
    result
}

/// Whether `r` holds the parts of the text at the given byte spans.
pub open spec fn captured(text: Seq<char>, spans: Seq<(int, int)>, r: Seq<String>) -> bool {
    r.len() == spans.len() && forall|k: int|
        0 <= k < r.len() ==> encode_utf8((#[trigger] r[k])@) == encode_utf8(text).subrange(
            spans[k].0,
            spans[k].1,
        )
}

/// Whether a match of a regular expression cuts no character of the text.
pub fn regex_keeps_chars(text: &str, pattern: &str) -> (r: bool)
    ensures
        r == spans_keep_chars(text@, pattern@),
{
    let (core, start, end) = regex_strip_anchors(pattern);
    if !has_regex_metachar(core) {
        return true;
    }
    let t = text.as_bytes();
    let last: usize = if start {
        0
    } else {
        t.len()
    };
    match regex_find_first_match(t, core.as_bytes(), last, end) {
        Some(spans) => {
            let ghost sp = regex_spans(text@, pattern@)->0;
            assert(sp == spans_of(spans@));
            let mut k: usize = 0;
            while k < spans.len()
                invariant
                    k <= spans@.len(),
                    sp == spans_of(spans@),
                    has_meta(anchor_core(pattern@)),
                    regex_spans(text@, pattern@) == Some(sp),
                    forall|j: int|
                        0 <= j < k ==> is_char_boundary(
                            encode_utf8(text@),
                            (#[trigger] spans@[j]).0 as int,
                        ) && is_char_boundary(encode_utf8(text@), spans@[j].1 as int),
                decreases spans@.len() - k,
            {
                let (a, b) = spans[k];
                if !text.is_char_boundary(a) || !text.is_char_boundary(b) {
                    proof {
                        let bytes = encode_utf8(text@);
                        assert(spans@[k as int] == (a, b));
                        assert(sp[k as int] == (a as int, b as int));
                        assert(!is_char_boundary(bytes, sp[k as int].0) || !is_char_boundary(
                            bytes,
                            sp[k as int].1,
                        ));
                        assert(sp.len() == spans@.len());
                        let found = regex_spans(text@, pattern@)->0;
                        assert(found[k as int] == sp[k as int]);
                    }
                    return false;
                }
                k = k + 1;
            }
            assert forall|j: int| 0 <= j < sp.len() implies is_char_boundary(
                encode_utf8(text@),
                (#[trigger] sp[j]).0,
            ) && is_char_boundary(encode_utf8(text@), sp[j].1) by {
                assert(sp[j] == (spans@[j].0 as int, spans@[j].1 as int));
            }
            true
        },
        None => true,
    }
}

/// Matches a regular expression against a text. The captures are the whole match and then
/// each group.
pub fn regex_match_with_captures(text: &str, pattern: &str) -> (r: Option<Vec<String>>)
    requires
        spans_keep_chars(text@, pattern@),
    ensures
        match r {
            Some(v) => regex_spans(text@, pattern@) is Some && captured(
                text@,
                regex_spans(text@, pattern@)->0,
                v@,
            ),
            None => regex_spans(text@, pattern@) is None,
        },
{
    let (core, start, end) = regex_strip_anchors(pattern);
    let t = text.as_bytes();
    let c = core.as_bytes();
    if !has_regex_metachar(core) {
        return match literal_match_range(t, c, start, end) {
            Some(_) => {
                let mut v: Vec<String> = Vec::new();
                v.push(core.to_owned());
                Some(v)
            },
            None => None,
        };
    }
    let last: usize = if start {
        0
    } else {
        t.len()
    };
    match regex_find_first_match(t, c, last, end) {
        Some(spans) => {
            proof {
                let sp = regex_spans(text@, pattern@)->0;
                assert(sp == spans_of(spans@));
                assert forall|k: int| 0 <= k < spans@.len() implies is_char_boundary(
                    encode_utf8(text@),
                    (#[trigger] spans@[k]).0 as int,
                ) && is_char_boundary(encode_utf8(text@), spans@[k].1 as int) by {
                    assert(sp[k] == (spans@[k].0 as int, spans@[k].1 as int));
                }
            }
            Some(regex_build_capture_list(text, &spans))
        },
        None => None,
    }
}

} // verus!
