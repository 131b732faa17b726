//! The words between the parentheses of an array assignment.
use crate::text::{chars_of, string_of, sub_string};
use crate::views::{lemma_strs_push, strs};
use vstd::prelude::*;
use vstd::utf8::encode_utf8;

verus! {

/// A blank between words, of the ASCII ones.
pub open spec fn is_blank(c: char) -> bool {
    c == ' ' || c == '\t' || c == '\n' || c == '\x0c' || c == '\r'
}

/// A blank between words.
pub fn is_ascii_blank(c: char) -> (r: bool)
    ensures
        r == is_blank(c),
{
    c == ' ' || c == '\t' || c == '\n' || c == '\x0c' || c == '\r'
}

/// The quotes that are open.
#[derive(Clone, Copy, Debug, PartialEq, Eq, Structural)]
pub struct ArrayParseState {
    pub in_single_quote: bool,
    pub in_double_quote: bool,
    pub escape_next: bool,
}

/// What a character does.
#[derive(Clone, Copy, Debug, PartialEq, Eq, Structural)]
pub enum ArrayCharAction {
    Append(char),
    Skip,
    SplitField,
}

/// The quotes that are open after a character, and what it does: a backslash outside single
/// quotes makes the next character ordinary, quotes are dropped, blanks outside of them end a
/// word.
pub open spec fn scan_char(s: ArrayParseState, c: char) -> (ArrayParseState, ArrayCharAction) {
    if s.escape_next {
        (ArrayParseState { escape_next: false, ..s }, ArrayCharAction::Append(c))
    } else if c == '\\' && !s.in_single_quote {
        (ArrayParseState { escape_next: true, ..s }, ArrayCharAction::Skip)
    } else if c == '\'' && !s.in_double_quote {
        (
            ArrayParseState { in_single_quote: !s.in_single_quote, ..s },
            ArrayCharAction::Skip,
        )
    } else if c == '"' && !s.in_single_quote {
        (
            ArrayParseState { in_double_quote: !s.in_double_quote, ..s },
            ArrayCharAction::Skip,
        )
    } else if is_blank(c) && !s.in_single_quote && !s.in_double_quote {
        (s, ArrayCharAction::SplitField)
    } else {
        (s, ArrayCharAction::Append(c))
    }
}

impl ArrayParseState {
    /// No quotes open.
    pub fn new() -> (r: ArrayParseState)
        ensures
            r == unquoted(),
    {
        ArrayParseState { in_single_quote: false, in_double_quote: false, escape_next: false }
    }

    /// Takes a character.
    pub fn process_char(&mut self, c: char) -> (r: ArrayCharAction)
        ensures
            (*final(self), r) == scan_char(*old(self), c),
    {
        if self.escape_next {
            self.escape_next = false;
            return ArrayCharAction::Append(c);
        }
        if c == '\\' && !self.in_single_quote {
            self.escape_next = true;
            return ArrayCharAction::Skip;
        }
        if c == '\'' && !self.in_double_quote {
            self.in_single_quote = !self.in_single_quote;
            return ArrayCharAction::Skip;
        }
        if c == '"' && !self.in_single_quote {
            self.in_double_quote = !self.in_double_quote;
            return ArrayCharAction::Skip;
        }
        if is_ascii_blank(c) && !self.in_single_quote && !self.in_double_quote {
            return ArrayCharAction::SplitField;
        }
        ArrayCharAction::Append(c)
    }
}

/// No quotes open.
pub open spec fn unquoted() -> ArrayParseState {
    ArrayParseState { in_single_quote: false, in_double_quote: false, escape_next: false }
}

/// The words so far, and the one that is being read.
pub struct ArrayScan {
    pub state: ArrayParseState,
    pub current: Seq<char>,
    pub elements: Seq<Seq<char>>,
}

/// The words with one more, unless it is empty.
pub open spec fn with_word(elements: Seq<Seq<char>>, current: Seq<char>) -> Seq<Seq<char>> {
    if current.len() == 0 {
        elements
    } else {
        elements.push(current)
    }
}

/// The words after one more character.
pub open spec fn scan_step(s: ArrayScan, c: char) -> ArrayScan {
    let (state, action) = scan_char(s.state, c);
    match action {
        ArrayCharAction::Append(x) => ArrayScan {
            state,
            current: s.current.push(x),
            elements: s.elements,
        },
        ArrayCharAction::Skip => ArrayScan { state, current: s.current, elements: s.elements },
        ArrayCharAction::SplitField => ArrayScan {
            state,
            current: Seq::empty(),
            elements: with_word(s.elements, s.current),
        },
    }
}

/// The words after a text.
pub open spec fn scan_text(s: ArrayScan, text: Seq<char>) -> ArrayScan
    decreases text.len(),
{
    if text.len() == 0 {
        s
    } else {
        scan_step(scan_text(s, text.drop_last()), text.last())
    }
}

/// The state before the first character.
pub open spec fn scan_start() -> ArrayScan {
    ArrayScan { state: unquoted(), current: Seq::empty(), elements: Seq::empty() }
}

/// The elements of an array: the words of a text, without their quotes.
pub open spec fn array_elements(text: Seq<char>) -> Seq<Seq<char>> {
    let end = scan_text(scan_start(), text);
    with_word(end.elements, end.current)
}

/// The elements of an array.
pub fn parse_array_elements(inner: &str) -> (r: Vec<String>)
    ensures
        strs(r@) == array_elements(inner@),
{
    broadcast use lemma_strs_push;
    let chars = chars_of(inner);
    let mut elements: Vec<String> = Vec::new();
    let mut current: Vec<char> = Vec::new();
    let mut state = ArrayParseState::new();
    let mut i: usize = 0;
    proof {
        assert(strs(elements@) =~= Seq::empty());
        assert(current@ =~= Seq::empty());
        assert(inner@.take(0) =~= Seq::empty());
    }
    while i < chars.len()
        invariant
            i <= chars@.len(),
            chars@ == inner@,
            scan_text(scan_start(), inner@.take(i as int)) == (ArrayScan {
                state,
                current: current@,
                elements: strs(elements@),
            }),
        decreases chars@.len() - i,
    {
        proof {
            let t = inner@.take(i + 1);
            assert(t.drop_last() =~= inner@.take(i as int));
            assert(t.last() == chars@[i as int]);
        }
        let ghost before = ArrayScan { state, current: current@, elements: strs(elements@) };
        let action = state.process_char(chars[i]);
        assert((state, action) == scan_char(before.state, chars@[i as int]));
        match action {
            ArrayCharAction::Append(c) => {
                current.push(c);
            },
            ArrayCharAction::Skip => {},
            ArrayCharAction::SplitField => {
                if current.len() > 0 {
                    elements.push(string_of(current.as_slice()));
                }
                current = Vec::new();
                assert(current@ =~= Seq::empty());
            },
        }
        proof {
            let after = scan_step(before, chars@[i as int]);
            assert(after.state == state);
            assert(after.current == current@);
            assert(after.elements == strs(elements@));
        }
        i = i + 1;
    }
    assert(inner@.take(i as int) =~= inner@);
    if current.len() > 0 {
        elements.push(string_of(current.as_slice()));
    }
    elements
}

/// Whether a word has no character that the syntax gives a meaning to.
pub open spec fn plain_word(w: Seq<char>) -> bool {
    &&& w.len() > 0
    &&& forall|i: int|
        0 <= i < w.len() ==> !is_blank(#[trigger] w[i]) && w[i] != '\\' && w[i] != '\'' && w[i]
            != '"'
}

proof fn lemma_scan_plain(s: ArrayScan, w: Seq<char>)
    requires
        s.state == unquoted(),
        forall|i: int|
            0 <= i < w.len() ==> !is_blank(#[trigger] w[i]) && w[i] != '\\' && w[i] != '\'' && w[i]
                != '"',
    ensures
        scan_text(s, w) == (ArrayScan { current: s.current + w, ..s }),
    decreases w.len(),
{
    if w.len() == 0 {
        assert(s.current + w =~= s.current);
    } else {
        let t = w.drop_last();
        assert forall|i: int| 0 <= i < t.len() implies !is_blank(#[trigger] t[i]) && t[i] != '\\'
            && t[i] != '\'' && t[i] != '"' by {
            assert(t[i] == w[i]);
        }
        lemma_scan_plain(s, t);
        assert(w[w.len() - 1] == w.last());
        assert((s.current + t).push(w.last()) =~= s.current + w);
    }
}

proof fn lemma_scan_split(s: ArrayScan, a: Seq<char>, b: Seq<char>)
    ensures
        scan_text(s, a + b) == scan_text(scan_text(s, a), b),
    decreases b.len(),
{
    if b.len() == 0 {
        assert(a + b =~= a);
    } else {
        assert((a + b).drop_last() =~= a + b.drop_last());
        lemma_scan_split(s, a, b.drop_last());
    }
}

/// Words without quotes and blanks, written with blanks between them, are the elements of the
/// array, in order.
pub proof fn law_plain_words_are_elements(words: Seq<Seq<char>>)
    requires
        forall|i: int| 0 <= i < words.len() ==> plain_word(#[trigger] words[i]),
    ensures
        array_elements(crate::text::joined(words, " "@)) == words,
{
    reveal_strlit(" ");
    lemma_scan_words(words);
    if words.len() > 0 {
        let end = scan_text(scan_start(), crate::text::joined(words, " "@));
        assert(words.drop_last().push(words.last()) =~= words);
    } else {
        assert(crate::text::joined(words, " "@) =~= Seq::empty());
        assert(words =~= Seq::empty());
    }
}

proof fn lemma_scan_words(words: Seq<Seq<char>>)
    requires
        forall|i: int| 0 <= i < words.len() ==> plain_word(#[trigger] words[i]),
    ensures
        words.len() > 0 ==> scan_text(scan_start(), crate::text::joined(words, " "@)) == (
        ArrayScan { state: unquoted(), current: words.last(), elements: words.drop_last() }),
    decreases words.len(),
{
    reveal_strlit(" ");
    if words.len() > 0 {
        let w = words.last();
        assert(plain_word(words[words.len() - 1]));
        if words.len() == 1 {
            assert(crate::text::joined(words, " "@) =~= w);
            lemma_scan_plain(scan_start(), w);
            assert(Seq::<char>::empty() + w =~= w);
            assert(words.drop_last() =~= Seq::<Seq<char>>::empty());
        } else {
            let before = words.drop_last();
            lemma_scan_words(before);
            let jb = crate::text::joined(before, " "@);
            assert(plain_word(words[words.len() - 2]));
            assert(before.last() == words[words.len() - 2]);
            let whole = crate::text::joined(words, " "@);
            assert(whole =~= jb + " "@ + w);
            let s1 = scan_text(scan_start(), jb);
            lemma_scan_split(scan_start(), jb + " "@, w);
            lemma_scan_split(scan_start(), jb, " "@);
            assert(" "@.drop_last() =~= Seq::<char>::empty());
            assert(scan_text(s1, " "@) == scan_step(scan_text(s1, " "@.drop_last()), ' '));
            let s2 = scan_text(s1, " "@);
            assert(s2.elements =~= before);
            lemma_scan_plain(s2, w);
            assert(Seq::<char>::empty() + w =~= w);
        }
    }
}

/// The position of the first character from `p` on that is no blank.
pub open spec fn skip_blanks(s: Seq<char>, p: int) -> int
    decreases s.len() - p,
{
    if 0 <= p < s.len() && is_blank(s[p]) {
        skip_blanks(s, p + 1)
    } else {
        p
    }
}

/// The position of the first blank from `p` on.
pub open spec fn skip_word(s: Seq<char>, p: int) -> int
    decreases s.len() - p,
{
    if 0 <= p < s.len() && !is_blank(s[p]) {
        skip_word(s, p + 1)
    } else {
        p
    }
}

/// The position of the first `c` from `p` on, or the length.
pub open spec fn find_char(s: Seq<char>, p: int, c: char) -> int
    decreases s.len() - p,
{
    if 0 <= p < s.len() && s[p] != c {
        find_char(s, p + 1, c)
    } else {
        p
    }
}

/// One further, but not beyond the end.
pub open spec fn past(s: Seq<char>, p: int) -> int {
    if p < s.len() {
        p + 1
    } else {
        p
    }
}

/// Where the value of a key starts that starts at `p` with a bracket: after the closing one and
/// the `=` that follows.
pub open spec fn value_start(s: Seq<char>, p: int) -> int {
    let q = past(s, find_char(s, p + 1, ']'));
    if q < s.len() && s[q] == '=' {
        q + 1
    } else {
        q
    }
}

/// A text in double quotes from `p` on, and where it ends: a backslash makes the next character
/// ordinary.
pub open spec fn double_quoted(s: Seq<char>, p: int) -> (Seq<char>, int)
    decreases s.len() - p,
{
    if p < 0 || p >= s.len() {
        (Seq::empty(), p)
    } else if s[p] == '"' {
        (Seq::empty(), p + 1)
    } else if s[p] == '\\' && p + 1 < s.len() {
        let (rest, end) = double_quoted(s, p + 2);
        (seq![s[p + 1]] + rest, end)
    } else {
        let (rest, end) = double_quoted(s, p + 1);
        (seq![s[p]] + rest, end)
    }
}

/// The value that starts at `q`, and where it ends: in quotes, or up to a blank.
pub open spec fn value_at(s: Seq<char>, q: int) -> (Seq<char>, int) {
    if q < s.len() && s[q] == '"' {
        double_quoted(s, q + 1)
    } else if q < s.len() && s[q] == '\'' {
        let e = find_char(s, q + 1, '\'');
        (s.subrange(q + 1, e), past(s, e))
    } else {
        let e = skip_word(s, q);
        (s.subrange(q, e), e)
    }
}

/// A text whose characters are the bytes of another.
pub open spec fn bytes_as_chars(s: Seq<char>) -> Seq<char> {
    encode_utf8(s).map_values(|b: u8| b as char)
}

/// The pairs of key and value from `p` on. What is no pair is passed over, and the characters of
/// a value are the bytes that are written.
pub open spec fn assoc_pairs(s: Seq<char>, p: int) -> Seq<(Seq<char>, Seq<char>)>
    decreases s.len() - p,
    via assoc_pairs_decreases
{
    let k = skip_blanks(s, p);
    if p < 0 || k >= s.len() {
        Seq::empty()
    } else if s[k] == '[' {
        let e = find_char(s, k + 1, ']');
        let (value, next) = value_at(s, value_start(s, k));
        seq![(s.subrange(k + 1, e), bytes_as_chars(value))] + assoc_pairs(s, next)
    } else {
        assoc_pairs(s, skip_word(s, k))
    }
}

#[via_fn]
proof fn assoc_pairs_decreases(s: Seq<char>, p: int) {
    if 0 <= p <= s.len() {
        lemma_skips(s, p);
        let k = skip_blanks(s, p);
        if k < s.len() {
            lemma_skips(s, k);
            lemma_find_char(s, k + 1, ']');
            lemma_value_at(s, value_start(s, k));
        }
    }
}

proof fn lemma_skips(s: Seq<char>, p: int)
    requires
        0 <= p <= s.len(),
    ensures
        p <= skip_blanks(s, p) <= s.len(),
        p <= skip_word(s, p) <= s.len(),
        p < s.len() && !is_blank(s[p]) ==> skip_word(s, p) > p,
        skip_blanks(s, p) < s.len() ==> !is_blank(s[skip_blanks(s, p)]),
    decreases s.len() - p,
{
    if p < s.len() {
        lemma_skips(s, p + 1);
    }
}

proof fn lemma_find_char(s: Seq<char>, p: int, c: char)
    requires
        0 <= p <= s.len(),
    ensures
        p <= find_char(s, p, c) <= s.len(),
    decreases s.len() - p,
{
    if p < s.len() && s[p] != c {
        lemma_find_char(s, p + 1, c);
    }
}

proof fn lemma_double_quoted(s: Seq<char>, p: int)
    requires
        0 <= p <= s.len(),
    ensures
        p <= double_quoted(s, p).1 <= s.len(),
    decreases s.len() - p,
{
    if p < s.len() && s[p] != '"' {
        if s[p] == '\\' && p + 1 < s.len() {
            lemma_double_quoted(s, p + 2);
        } else {
            lemma_double_quoted(s, p + 1);
        }
    }
}

proof fn lemma_value_at(s: Seq<char>, q: int)
    requires
        0 <= q <= s.len(),
    ensures
        q <= value_at(s, q).1 <= s.len(),
{
    if q < s.len() {
        lemma_double_quoted(s, q + 1);
        lemma_find_char(s, q + 1, '\'');
    }
    lemma_skips(s, q);
}

fn find_from(s: &Vec<char>, start: usize, c: char) -> (r: usize)
    requires
        start <= s@.len(),
    ensures
        r == find_char(s@, start as int, c),
        start <= r <= s@.len(),
{
    let mut p: usize = start;
    while p < s.len() && s[p] != c
        invariant
            start <= p <= s@.len(),
            find_char(s@, start as int, c) == find_char(s@, p as int, c),
        decreases s@.len() - p,
    {
        p = p + 1;
    }
    p
}

fn word_end(s: &Vec<char>, start: usize) -> (r: usize)
    requires
        start <= s@.len(),
    ensures
        r == skip_word(s@, start as int),
        start <= r <= s@.len(),
{
    let mut p: usize = start;
    while p < s.len() && !is_ascii_blank(s[p])
        invariant
            start <= p <= s@.len(),
            skip_word(s@, start as int) == skip_word(s@, p as int),
        decreases s@.len() - p,
    {
        p = p + 1;
    }
    p
}

fn blanks_end(s: &Vec<char>, start: usize) -> (r: usize)
    requires
        start <= s@.len(),
    ensures
        r == skip_blanks(s@, start as int),
        start <= r <= s@.len(),
{
    let mut p: usize = start;
    while p < s.len() && is_ascii_blank(s[p])
        invariant
            start <= p <= s@.len(),
            skip_blanks(s@, start as int) == skip_blanks(s@, p as int),
        decreases s@.len() - p,
    {
        p = p + 1;
    }
    p
}

fn parse_double_quoted_assoc_value(s: &Vec<char>, start: usize) -> (r: (String, usize))
    requires
        start <= s@.len(),
    ensures
        (r.0@, r.1 as int) == double_quoted(s@, start as int),
        r.1 <= s@.len(),
{
    let mut value: Vec<char> = Vec::new();
    let mut p: usize = start;
    let ghost whole = double_quoted(s@, start as int);
    assert(value@ + whole.0 =~= whole.0);
    while p < s.len() && s[p] != '"'
        invariant
            start <= p <= s@.len(),
            whole == (
                value@ + double_quoted(s@, p as int).0,
                double_quoted(s@, p as int).1,
            ),
        decreases s@.len() - p,
    {
        let ghost before = value@;
        let ghost p0 = p as int;
        if s[p] == '\\' && p + 1 < s.len() {
            p = p + 1;
        }
        value.push(s[p]);
        p = p + 1;
        assert(before + double_quoted(s@, p0).0 =~= value@ + double_quoted(s@, p as int).0);
    }
    proof {
        assert(value@ + Seq::<char>::empty() =~= value@);
    }
    let end: usize = if p < s.len() {
        p + 1
    } else {
        p
    };
    (string_of(value.as_slice()), end)
}

fn parse_assoc_value(s: &Vec<char>, q: usize) -> (r: (String, usize))
    requires
        q <= s@.len(),
    ensures
        (r.0@, r.1 as int) == value_at(s@, q as int),
        q <= r.1 <= s@.len(),
{
    proof {
        lemma_value_at(s@, q as int);
    }
    if q < s.len() && s[q] == '"' {
        parse_double_quoted_assoc_value(s, q + 1)
    } else if q < s.len() && s[q] == '\'' {
        let e = find_from(s, q + 1, '\'');
        let value = sub_string(s, q + 1, e);
        (
            value,
            if e < s.len() {
                e + 1
            } else {
                e
            },
        )
    } else {
        let e = word_end(s, q);
        (sub_string(s, q, e), e)
    }
}

fn chars_from_bytes(s: &str) -> (r: String)
    ensures
        r@ == bytes_as_chars(s@),
{
    let bytes = s.as_bytes();
    let ghost all = bytes_as_chars(s@);
    let mut out: Vec<char> = Vec::new();
    let mut i: usize = 0;
    while i < bytes.len()
        invariant
            i <= bytes@.len(),
            bytes@ == encode_utf8(s@),
            all == bytes_as_chars(s@),
            out@ == all.take(i as int),
        decreases bytes@.len() - i,
    {
        out.push(bytes[i] as char);
        assert(all.take(i + 1) =~= all.take(i as int).push(all[i as int]));
        i = i + 1;
    }
    assert(all.take(all.len() as int) =~= all);
    string_of(out.as_slice())
}

/// The model of a list of pairs.
pub open spec fn pairs_of(v: Seq<(String, String)>) -> Seq<(Seq<char>, Seq<char>)> {
    v.map_values(|p: (String, String)| (p.0@, p.1@))
}

/// The pairs of key and value of an array assignment.
pub fn parse_assoc_pairs(inner: &str) -> (r: Vec<(String, String)>)
    ensures
        pairs_of(r@) == assoc_pairs(inner@, 0),
{
    let chars = chars_of(inner);
    let ghost s = inner@;
    let ghost whole = assoc_pairs(s, 0);
    let mut pairs: Vec<(String, String)> = Vec::new();
    let mut p: usize = 0;
    assert(pairs_of(pairs@) + whole =~= whole);
    loop
        invariant
            p <= chars@.len(),
            chars@ == s,
            whole == pairs_of(pairs@) + assoc_pairs(s, p as int),
        ensures
            whole == pairs_of(pairs@),
        decreases chars@.len() - p,
    {
        let k = blanks_end(&chars, p);
        if k >= chars.len() {
            assert(pairs_of(pairs@) + Seq::empty() =~= pairs_of(pairs@));
            break;
        }
        proof {
            lemma_skips(s, p as int);
            lemma_skips(s, k as int);
        }
        if chars[k] == '[' {
            let e = find_from(&chars, k + 1, ']');
            let key = sub_string(&chars, k + 1, e);
            let q: usize = if e < chars.len() {
                e + 1
            } else {
                e
            };
            let start: usize = if q < chars.len() && chars[q] == '=' {
                q + 1
            } else {
                q
            };
            let (raw, next) = parse_assoc_value(&chars, start);
            let value = chars_from_bytes(raw.as_str());
            let ghost before = pairs_of(pairs@);
            pairs.push((key, value));
            proof {
                assert(pairs_of(pairs@) =~= before.push((key@, value@)));
                assert(before + (seq![(key@, value@)] + assoc_pairs(s, next as int))
                    =~= before.push((key@, value@)) + assoc_pairs(s, next as int));
            }
            p = next;
        } else {
            p = word_end(&chars, k);
        }
    }
    pairs
}

} // verus!
