//! What the operations on texts have in common.
use crate::text::{
    after_char, before_char, char_pos, dec, dec_int, find_chars, is_space, joined, lemma_char_pos,
    lemma_dec_digits, lemma_split_on_nonempty, padded, parse_signed, replace_all, replace_first,
    split_on, trim_end, trim_start, trimmed, upper_char,
};
use vstd::prelude::*;

verus! {

proof fn lemma_split_push(s: Seq<char>, w: Seq<char>, d: char)
    requires
        !w.contains(d),
    ensures
        split_on(s + w, d) == split_on(s, d).drop_last().push(split_on(s, d).last() + w),
    decreases w.len(),
{
    lemma_split_on_nonempty(s, d);
    let r = split_on(s, d);
    if w.len() == 0 {
        assert(s + w =~= s);
        assert(r.last() + w =~= r.last());
        assert(r.drop_last().push(r.last()) =~= r);
    } else {
        let v = w.drop_last();
        assert forall|c: char| #[trigger] v.contains(c) implies w.contains(c) by {
            let i = choose|i: int| 0 <= i < v.len() && v[i] == c;
            assert(w[i] == c);
        }
        lemma_split_push(s, v, d);
        assert((s + w).drop_last() =~= s + v);
        assert(w.contains(w.last()));
        let q = split_on(s + v, d);
        assert(q.last() == r.last() + v);
        assert(q.drop_last() =~= r.drop_last());
        assert(q.last().push(w.last()) =~= r.last() + w);
    }
}

/// Words that are joined by a character that none of them holds come back, in their order, when the
/// text is split at that character.
pub proof fn law_joined_words_split_again(words: Seq<Seq<char>>, d: char)
    requires
        words.len() > 0,
        forall|i: int| 0 <= i < words.len() ==> !(#[trigger] words[i]).contains(d),
    ensures
        split_on(joined(words, seq![d]), d) == words,
    decreases words.len(),
{
    let none = Seq::<char>::empty();
    if words.len() == 1 {
        let w = words[0];
        lemma_split_push(none, w, d);
        assert(none + w =~= w);
        assert(split_on(none, d) == seq![none]);
        assert(seq![none].drop_last().push(none + w) =~= words);
    } else {
        let before = words.drop_last();
        law_joined_words_split_again(before, d);
        let s = joined(before, seq![d]);
        let t = s + seq![d];
        assert(t.drop_last() =~= s);
        assert(split_on(t, d) == before.push(none));
        lemma_split_push(t, words.last(), d);
        assert(none + words.last() =~= words.last());
        assert(before.push(none).drop_last() =~= before);
        assert(before.push(words.last()) =~= words);
    }
}

/// The pieces that a text is split into do not hold the character, and joined by it they are the
/// text again.
pub proof fn law_pieces_join_again(s: Seq<char>, d: char)
    ensures
        split_on(s, d).len() > 0,
        forall|i: int| 0 <= i < split_on(s, d).len() ==> !(#[trigger] split_on(s, d)[i]).contains(d),
        joined(split_on(s, d), seq![d]) == s,
    decreases s.len(),
{
    let none = Seq::<char>::empty();
    let r = split_on(s, d);
    if s.len() == 0 {
        assert(r == seq![none]);
        assert(s =~= none);
    } else {
        let t = s.drop_last();
        law_pieces_join_again(t, d);
        let q = split_on(t, d);
        if s.last() == d {
            assert(r.drop_last() =~= q);
            assert(joined(q, seq![d]) + seq![d] + none =~= s);
        } else {
            let last = q.last().push(s.last());
            assert forall|i: int| 0 <= i < r.len() implies !(#[trigger] r[i]).contains(d) by {
                if i < r.len() - 1 {
                    assert(r[i] == q[i]);
                } else {
                    assert(r[i] == last);
                    if last.contains(d) {
                        let k = choose|k: int| 0 <= k < last.len() && last[k] == d;
                        assert(q.last()[k] == d);
                        assert(q[q.len() - 1].contains(d));
                    }
                }
            }
            assert(r.drop_last() =~= q.drop_last());
            if q.len() == 1 {
                assert(r[0] =~= s);
            } else {
                assert(joined(q, seq![d]) == joined(q.drop_last(), seq![d]) + seq![d] + q.last());
                assert(joined(r, seq![d]) =~= t.push(s.last()));
                assert(t.push(s.last()) =~= s);
            }
        }
    }
}

/// A text without a character, with it and more behind, is split at it: what stands before it and
/// what stands behind.
pub proof fn law_split_at_the_first(a: Seq<char>, c: char, b: Seq<char>)
    requires
        !a.contains(c),
    ensures
        before_char(a + seq![c] + b, c) == a,
        after_char(a + seq![c] + b, c) == Some(b),
        before_char(a, c) == a,
        after_char(a, c) is None,
{
    let s = a + seq![c] + b;
    lemma_char_pos(s, c);
    lemma_char_pos(a, c);
    let k = char_pos(s, c);
    assert(s[a.len() as int] == c);
    if k < a.len() {
        assert(a[k] == s[k]);
        assert(a.contains(a[k]));
    }
    assert(k == a.len());
    assert(s.take(k) =~= a);
    assert(s.skip(k + 1) =~= b);
    if char_pos(a, c) < a.len() {
        assert(a.contains(a[char_pos(a, c)]));
    }
    assert(a.take(a.len() as int) =~= a);
}

/// Whether `p` stands in `s` at a position.
pub open spec fn occurs_at(s: Seq<char>, p: Seq<char>, i: int) -> bool {
    0 <= i && i + p.len() <= s.len() && s.subrange(i, i + p.len()) == p
}

/// A search finds the first place, and finds one where there is one.
pub proof fn law_search_finds_the_first(s: Seq<char>, p: Seq<char>, from: int)
    requires
        0 <= from,
    ensures
        match find_chars(s, p, from) {
            Some(k) => from <= k && occurs_at(s, p, k) && forall|i: int|
                from <= i < k ==> !#[trigger] occurs_at(s, p, i),
            None => forall|i: int| from <= i ==> !#[trigger] occurs_at(s, p, i),
        },
    decreases s.len() - from + 1,
{
    if from + p.len() <= s.len() && !occurs_at(s, p, from) {
        law_search_finds_the_first(s, p, from + 1);
    }
}

/// Whether `p` stands in a text right behind `a` and at no place before.
pub open spec fn first_behind(a: Seq<char>, p: Seq<char>, b: Seq<char>) -> bool {
    forall|i: int| 0 <= i < a.len() ==> !#[trigger] occurs_at(a + p + b, p, i)
}

/// What replacing does: the first occurrence gives way to the replacement, and where all are
/// replaced the text behind it is searched again, never the replacement. A text without an
/// occurrence stays as it is.
pub proof fn law_replacing(a: Seq<char>, p: Seq<char>, b: Seq<char>, r: Seq<char>)
    requires
        p.len() > 0,
    ensures
        first_behind(a, p, b) ==> replace_first(a + p + b, p, r) == a + r + b,
        first_behind(a, p, b) ==> replace_all(a + p + b, p, r) == a + r + replace_all(b, p, r),
        (forall|i: int| !#[trigger] occurs_at(b, p, i)) ==> replace_first(b, p, r) == b
            && replace_all(b, p, r) == b,
{
    let s = a + p + b;
    if first_behind(a, p, b) {
        law_search_finds_the_first(s, p, 0);
        assert(s.subrange(a.len() as int, (a.len() + p.len()) as int) =~= p);
        assert(occurs_at(s, p, a.len() as int));
        assert(find_chars(s, p, 0) == Some(a.len() as int));
        assert(s.take(a.len() as int) =~= a);
        assert(s.skip((a.len() + p.len()) as int) =~= b);
    }
    law_search_finds_the_first(b, p, 0);
}

proof fn lemma_trim_start(s: Seq<char>)
    ensures
        trim_start(s).len() <= s.len(),
        trim_start(s) == s.skip(s.len() - trim_start(s).len()),
        forall|i: int| 0 <= i < s.len() - trim_start(s).len() ==> is_space(#[trigger] s[i]),
        trim_start(s).len() > 0 ==> !is_space(trim_start(s)[0]),
    decreases s.len(),
{
    if s.len() > 0 && is_space(s[0]) {
        lemma_trim_start(s.skip(1));
        let k = s.len() - trim_start(s).len();
        assert(s.skip(1).skip(k - 1) =~= s.skip(k));
        assert forall|i: int| 0 <= i < k implies is_space(#[trigger] s[i]) by {
            if i > 0 {
                assert(is_space(s.skip(1)[i - 1]));
            }
        }
    } else {
        assert(s.skip(0) =~= s);
    }
}

proof fn lemma_trim_end(s: Seq<char>)
    ensures
        trim_end(s).len() <= s.len(),
        trim_end(s) == s.take(trim_end(s).len() as int),
        forall|i: int| trim_end(s).len() <= i < s.len() ==> is_space(#[trigger] s[i]),
        trim_end(s).len() > 0 ==> !is_space(trim_end(s).last()),
    decreases s.len(),
{
    if s.len() > 0 && is_space(s.last()) {
        lemma_trim_end(s.drop_last());
        let k = trim_end(s).len() as int;
        assert(s.drop_last().take(k) =~= s.take(k));
        assert forall|i: int| k <= i < s.len() implies is_space(#[trigger] s[i]) by {
            if i < s.len() - 1 {
                assert(is_space(s.drop_last()[i]));
            }
        }
    } else {
        assert(s.take(s.len() as int) =~= s);
    }
}

/// Trimming takes white space off both ends, all of it, and nothing else: blanks and tabs and line
/// ends are white space, letters and digits are not.
pub proof fn law_trimming(s: Seq<char>)
    ensures
        exists|i: int, j: int|
            0 <= i <= j <= s.len() && #[trigger] s.subrange(i, j) == trimmed(s) && (forall|k: int|
                (0 <= k < i || j <= k < s.len()) ==> is_space(#[trigger] s[k])),
        trimmed(s).len() > 0 ==> !is_space(trimmed(s)[0]) && !is_space(trimmed(s).last()),
        is_space(' ') && is_space('\t') && is_space('\n') && is_space('\r'),
        forall|c: char| 0x21 <= c as int <= 0x7e ==> !#[trigger] is_space(c),
{
    let t = trim_start(s);
    let u = trim_end(t);
    lemma_trim_start(s);
    lemma_trim_end(t);
    let i = s.len() - t.len();
    let j = i + u.len();
    assert(s.subrange(i, j) =~= u);
    assert forall|k: int| (0 <= k < i || j <= k < s.len()) implies is_space(#[trigger] s[k]) by {
        if k >= j {
            assert(is_space(t[k - i]));
        }
    }
    if u.len() > 0 {
        assert(u[0] == t[0]);
    }
}

/// An integer reads back from its decimal form, within its limits, and its form has a sign just
/// where it is negative.
pub proof fn law_integers_read_back(n: int, min: int, max: int)
    requires
        min <= n <= max,
    ensures
        parse_signed(dec_int(n), min, max) == Some(n),
        (dec_int(n)[0] == '-') == (n < 0),
{
    let m = if n < 0 {
        (-n) as nat
    } else {
        n as nat
    };
    lemma_dec_digits(m);
    let d = dec(m);
    assert(crate::text::is_digit(d[0]));
    if n < 0 {
        assert(dec_int(n).skip(1) =~= d);
    }
}

/// Padding puts just so many blanks in front that the text has the width, and never cuts it.
pub proof fn law_padding(s: Seq<char>, width: nat)
    ensures
        padded(s, width).len() == (if s.len() < width {
            width
        } else {
            s.len()
        }),
        padded(s, width).skip(padded(s, width).len() - s.len()) == s,
        forall|i: int|
            0 <= i < padded(s, width).len() - s.len() ==> #[trigger] padded(s, width)[i] == ' ',
{
    let p = padded(s, width);
    assert(p.skip(p.len() - s.len()) =~= s);
}

/// Upper case changes the letters from `a` to `z` alone, keeps their order, and does nothing twice.
pub proof fn law_upper_case(c: char)
    ensures
        c as int >= 0x61 && c as int <= 0x7a ==> upper_char(c) as int - 0x41 == c as int - 0x61,
        !(c as int >= 0x61 && c as int <= 0x7a) ==> upper_char(c) == c,
        upper_char(upper_char(c)) == upper_char(c),
{
}

} // verus!
