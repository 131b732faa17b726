//! What holds of assignments.
use crate::commands::arrays::{
    array_elements, assoc_pairs, bytes_as_chars, double_quoted, find_char, is_blank, scan_start,
    scan_step, scan_text, skip_blanks, skip_word, unquoted, value_at, value_start, ArrayScan,
};
use crate::commands::assign::{
    append_name, assoc_env, compound_text, in_parens, is_element_name, is_integer, target_answers,
    value_or_empty, whole_assigned, AssignStep, AssignTarget,
};
use crate::commands::scope::assign_env;
use crate::entries::{lemma_put, value_of};
use crate::state::{element_of, flags_of, init_array_env, lemma_update_lookup, ShellState};
use crate::text::{char_pos, is_space, lemma_char_pos, trimmed};
use crate::text_laws::law_trimming;
use crate::vars::{law_set_then_lookup, lookup, EnvView, ValueView, VarView};
use vstd::prelude::*;

verus! {

proof fn lemma_scan_in_quotes(s: ArrayScan, text: Seq<char>, q: char)
    requires
        !s.state.escape_next,
        q == '\'' ==> s.state.in_single_quote && !s.state.in_double_quote,
        q == '"' ==> s.state.in_double_quote && !s.state.in_single_quote,
        q == '\'' || q == '"',
        !text.contains(q),
        q == '"' ==> !text.contains('\\'),
    ensures
        scan_text(s, text) == (ArrayScan { current: s.current + text, ..s }),
    decreases text.len(),
{
    if text.len() == 0 {
        assert(s.current + text =~= s.current);
    } else {
        let t = text.drop_last();
        assert forall|c: char| #[trigger] t.contains(c) implies text.contains(c) by {
            let i = choose|i: int| 0 <= i < t.len() && t[i] == c;
            assert(text[i] == c);
        }
        assert(text.contains(text[text.len() - 1]));
        lemma_scan_in_quotes(s, t, q);
        assert((s.current + t).push(text.last()) =~= s.current + text);
    }
}

proof fn lemma_scan_one(s: ArrayScan, c: char)
    ensures
        scan_text(s, seq![c]) == scan_step(s, c),
{
    assert(seq![c].drop_last() =~= Seq::<char>::empty());
    assert(scan_text(s, seq![c].drop_last()) == s);
}

proof fn lemma_scan_parts(s: ArrayScan, a: Seq<char>, b: Seq<char>)
    ensures
        scan_text(s, a + b) == scan_text(scan_text(s, a), b),
    decreases b.len(),
{
    if b.len() == 0 {
        assert(a + b =~= a);
    } else {
        assert((a + b).drop_last() =~= a + b.drop_last());
        lemma_scan_parts(s, a, b.drop_last());
    }
}

/// Text in quotes goes on with the word that is read, blanks and other quotes and all, and the quotes
/// are dropped; it ends no word.
pub proof fn law_quoted_text_joins_the_word(s: ArrayScan, text: Seq<char>, q: char)
    requires
        s.state == unquoted(),
        q == '\'' || q == '"',
        !text.contains(q),
        q == '"' ==> !text.contains('\\'),
    ensures
        scan_text(s, seq![q] + text + seq![q]) == (ArrayScan { current: s.current + text, ..s }),
{
    let mid = scan_step(s, q);
    lemma_scan_one(s, q);
    lemma_scan_in_quotes(mid, text, q);
    let end = scan_text(mid, text);
    lemma_scan_one(end, q);
    lemma_scan_parts(s, seq![q], text);
    lemma_scan_parts(s, seq![q] + text, seq![q]);
}

/// A character after a backslash goes on with the word, whatever it is.
pub proof fn law_escaped_character_joins_the_word(s: ArrayScan, c: char)
    requires
        s.state == unquoted(),
    ensures
        scan_text(s, seq!['\\', c]) == (ArrayScan { current: s.current.push(c), ..s }),
{
    lemma_scan_one(s, '\\');
    lemma_scan_one(scan_step(s, '\\'), c);
    lemma_scan_parts(s, seq!['\\'], seq![c]);
    assert(seq!['\\'] + seq![c] =~= seq!['\\', c]);
}

/// A blank ends the word that is read; one that is empty is no element.
pub proof fn law_blank_ends_the_word(s: ArrayScan, c: char)
    requires
        s.state == unquoted(),
        c == ' ' || c == '\t' || c == '\n',
    ensures
        scan_text(s, seq![c]).current.len() == 0,
        scan_text(s, seq![c]).elements == (if s.current.len() > 0 {
            s.elements.push(s.current)
        } else {
            s.elements
        }),
{
    lemma_scan_one(s, c);
}

/// A quoted text that is not empty is one element.
pub proof fn law_quoted_element(text: Seq<char>, q: char)
    requires
        text.len() > 0,
        q == '\'' || q == '"',
        !text.contains(q),
        q == '"' ==> !text.contains('\\'),
    ensures
        array_elements(seq![q] + text + seq![q]) == seq![text],
{
    law_quoted_text_joins_the_word(scan_start(), text, q);
    assert(Seq::<char>::empty() + text =~= text);
    assert(Seq::<Seq<char>>::empty().push(text) =~= seq![text]);
}

proof fn lemma_find_char_is(s: Seq<char>, p: int, c: char, e: int)
    requires
        0 <= p <= e < s.len(),
        s[e] == c,
        forall|i: int| p <= i < e ==> #[trigger] s[i] != c,
    ensures
        find_char(s, p, c) == e,
    decreases e - p,
{
    if p < e {
        assert(s[p] != c);
        lemma_find_char_is(s, p + 1, c, e);
    }
}

proof fn lemma_skip_word_is(s: Seq<char>, p: int, e: int)
    requires
        0 <= p <= e <= s.len(),
        e < s.len() ==> is_blank(s[e]),
        forall|i: int| p <= i < e ==> !is_blank(#[trigger] s[i]),
    ensures
        skip_word(s, p) == e,
    decreases e - p,
{
    if p < e {
        assert(!is_blank(s[p]));
        lemma_skip_word_is(s, p + 1, e);
    }
}

proof fn lemma_double_quoted_is(s: Seq<char>, p: int, e: int)
    requires
        0 <= p <= e < s.len(),
        s[e] == '"',
        forall|i: int| p <= i < e ==> #[trigger] s[i] != '"' && s[i] != '\\',
    ensures
        double_quoted(s, p) == (s.subrange(p, e), e + 1),
    decreases e - p,
{
    if p < e {
        assert(s[p] != '"');
        lemma_double_quoted_is(s, p + 1, e);
        assert(seq![s[p]] + s.subrange(p + 1, e) =~= s.subrange(p, e));
    } else {
        assert(s.subrange(p, e) =~= Seq::empty());
    }
}

/// `[key]=value` is a pair of the two, with the value in quotes of either kind or up to a blank, and the
/// pairs behind it follow.
pub proof fn law_written_pairs(
    before: Seq<char>,
    key: Seq<char>,
    value: Seq<char>,
    quote: Option<char>,
    rest: Seq<char>,
)
    requires
        !key.contains(']'),
        match quote {
            Some(q) => (q == '\'' || q == '"') && !value.contains(q) && (q == '"'
                ==> !value.contains('\\')),
            None => value.len() > 0 && value[0] != '"' && value[0] != '\'' && (rest.len() > 0
                ==> is_blank(rest[0])) && (forall|i: int|
                0 <= i < value.len() ==> !is_blank(#[trigger] value[i])),
        },
    ensures
        ({
            let written = match quote {
                Some(q) => seq![q] + value + seq![q],
                None => value,
            };
            let head = before + seq!['['] + key + seq![']', '='] + written;
            assoc_pairs(head + rest, before.len() as int) == seq![(key, bytes_as_chars(value))]
                + assoc_pairs(head + rest, head.len() as int)
        }),
{
    let written = match quote {
        Some(q) => seq![q] + value + seq![q],
        None => value,
    };
    let head = before + seq!['['] + key + seq![']', '='] + written;
    let s = head + rest;
    let p = before.len() as int;
    let e = p + 1 + key.len();
    assert(s[p] == '[');
    assert(skip_blanks(s, p) == p);
    assert forall|i: int| p + 1 <= i < e implies #[trigger] s[i] != ']' by {
        assert(s[i] == key[i - p - 1]);
        assert(key.contains(key[i - p - 1]));
    }
    assert(s[e] == ']' && s[e + 1] == '=');
    lemma_find_char_is(s, p + 1, ']', e);
    assert(s.subrange(p + 1, e) =~= key);
    assert(value_start(s, p) == e + 2);
    let v = e + 2;
    match quote {
        Some(q) => {
            assert(s[v] == q);
            let end = v + 1 + value.len();
            assert(s[end] == q);
            assert forall|i: int| v + 1 <= i < end implies #[trigger] s[i] != q && (q == '"'
                ==> s[i] != '\\') by {
                assert(s[i] == value[i - v - 1]);
                assert(value.contains(value[i - v - 1]));
            }
            assert(s.subrange(v + 1, end) =~= value);
            if q == '"' {
                lemma_double_quoted_is(s, v + 1, end);
            } else {
                lemma_find_char_is(s, v + 1, '\'', end);
            }
            assert(value_at(s, v) == (value, head.len() as int));
        },
        None => {
            let end = v + value.len();
            assert(s[v] == value[0]);
            assert forall|i: int| v <= i < end implies !is_blank(#[trigger] s[i]) by {
                assert(s[i] == value[i - v]);
            }
            if end < s.len() {
                assert(s[end] == rest[0]);
            }
            lemma_skip_word_is(s, v, end);
            assert(s.subrange(v, end) =~= value);
            assert(value_at(s, v) == (value, head.len() as int));
        },
    }
}

/// An associative array that is assigned holds each of its pairs, the later one where two have the same
/// key, and nothing else.
pub proof fn law_pairs_are_held(
    env: EnvView,
    name: Seq<char>,
    pairs: Seq<(Seq<char>, Seq<char>)>,
    n: int,
    key: Seq<char>,
)
    requires
        env.len() > 0,
        !flags_of(lookup(env, name)).readonly,
        0 <= n <= pairs.len(),
    ensures
        assoc_env(env, name, pairs, n).len() == env.len(),
        lookup(assoc_env(env, name, pairs, n), name) matches Some(v) && v.value is Assoc
            && !v.readonly && (match element_of(v.value, key) {
            Some(x) => exists|i: int|
                0 <= i < n && pairs[i] == (key, x) && (forall|j: int|
                    i < j < n ==> (#[trigger] pairs[j]).0 != key),
            None => forall|j: int| 0 <= j < n ==> (#[trigger] pairs[j]).0 != key,
        }),
    decreases n,
{
    let empty = ValueView::Assoc(Seq::empty());
    if n == 0 {
        let f = flags_of(lookup(env, name));
        law_set_then_lookup(
            env,
            name,
            VarView {
                value: empty,
                exported: f.exported,
                readonly: false,
                integer: false,
                nameref: false,
            },
        );
        assert(assoc_env(env, name, pairs, 0) == init_array_env(env, name, empty));
    } else {
        law_pairs_are_held(env, name, pairs, n - 1, key);
        let before = assoc_env(env, name, pairs, n - 1);
        let x = lookup(before, name)->0;
        let e = x.value->Assoc_0;
        let after = crate::entries::put(e, pairs[n - 1].0, pairs[n - 1].1);
        lemma_put(e, pairs[n - 1].0, pairs[n - 1].1);
        let v = VarView { value: ValueView::Assoc(after), ..x };
        lemma_update_lookup(before, name, v);
        assert(lookup(assoc_env(env, name, pairs, n), name) == Some(v));
        if pairs[n - 1].0 == key {
            assert(pairs[n - 1] == (key, pairs[n - 1].1));
        } else {
            assert(value_of(after, key) == value_of(e, key));
            if value_of(e, key) is Some {
                let i = choose|i: int|
                    0 <= i < n - 1 && pairs[i] == (key, value_of(e, key)->0) && (forall|j: int|
                        i < j < n - 1 ==> (#[trigger] pairs[j]).0 != key);
                assert(pairs[i] == (key, value_of(e, key)->0));
            }
        }
    }
}

/// `base[index]` names one element; a `+` at the end makes the assignment of a whole variable append.
pub proof fn law_assignment_targets(
    base: Seq<char>,
    index: Seq<char>,
    name: Seq<char>,
    r: AssignTarget,
)
    requires
        !base.contains('['),
        !name.contains('['),
    ensures
        target_answers(base + seq!['['] + index + seq![']'], r) <==> (r matches
            AssignTarget::Element { base: b, index: i } && b@ == base && i@ == index),
        target_answers(name + seq!['+'], r) <==> (r matches AssignTarget::Whole { name: n, append }
            && n@ == name && append),
        name.len() > 0 && name.last() != '+' ==> (target_answers(name, r) <==> (r matches
            AssignTarget::Whole { name: n, append } && n@ == name && !append)),
{
    let s = base + seq!['['] + index + seq![']'];
    let k = base.len() as int;
    assert(s.last() == ']' && s[k] == '[');
    assert(s.contains('['));
    assert(append_name(s) == (s, false));
    assert(is_element_name(s));
    lemma_char_pos(s, '[');
    let m = char_pos(s, '[');
    assert(m == k) by {
        if m < k {
            assert(s[m] == base[m]);
            assert(base.contains(base[m]));
        }
    }
    assert(s.take(k) =~= base);
    assert(s.subrange(k + 1, s.len() - 1) =~= index);
    let t = name + seq!['+'];
    assert(t.last() == '+');
    assert(t.drop_last() =~= name);
}

/// A value in parentheses is an array, blanks around it or not; one that does not start with a
/// parenthesis or end with one is none.
pub proof fn law_values_in_parentheses(inner: Seq<char>, value: Seq<char>)
    requires
        value.len() > 0 ==> !is_space(value[0]) && !is_space(value.last()),
    ensures
        compound_text(seq!['('] + inner + seq![')']) == Some(inner),
        !(value.len() > 0 && value[0] == '(' && value.last() == ')') ==> compound_text(value) is None,
{
    let s = seq!['('] + inner + seq![')'];
    assert(s[0] == '(' && s.last() == ')');
    assert(trimmed(s) == s) by {
        lemma_parentheses_are_signs();
        lemma_trim_none(s);
    }
    assert(trimmed(value) == value) by {
        lemma_trim_none(value);
    }
    lemma_ends_in_parentheses(s);
    lemma_ends_in_parentheses(value);
    assert(s.subrange(1, s.len() - 1) =~= inner);
}

proof fn lemma_parentheses_are_signs()
    ensures
        !is_space('('),
        !is_space(')'),
{
    law_trimming(Seq::empty());
}

proof fn lemma_ends_in_parentheses(s: Seq<char>)
    ensures
        in_parens(s) <==> s.len() > 0 && s[0] == '(' && s.last() == ')',
{
    reveal_strlit("(");
    reveal_strlit(")");
    assert("("@[0] == '(' && ")"@[0] == ')');
    if s.len() > 0 {
        assert(s.take(1)[0] == s[0]);
        assert(s.skip(s.len() - 1)[0] == s.last());
        if s[0] == '(' && s.last() == ')' {
            assert(s.take(1) =~= "("@);
            assert(s.skip(s.len() - 1) =~= ")"@);
        }
    }
}

proof fn lemma_trim_none(s: Seq<char>)
    requires
        s.len() > 0 ==> !is_space(s[0]) && !is_space(s.last()),
    ensures
        trimmed(s) == s,
{
    law_trimming(s);
    let (i, j) = choose|i: int, j: int|
        0 <= i <= j <= s.len() && #[trigger] s.subrange(i, j) == trimmed(s) && (forall|k: int|
            (0 <= k < i || j <= k < s.len()) ==> is_space(#[trigger] s[k]));
    if s.len() > 0 {
        assert(!is_space(s[0]));
        assert(!is_space(s[s.len() - 1]));
    }
    assert(s.subrange(i, j) =~= s);
}

/// `name=value` assigns the value, `name+=value` puts it behind what the variable holds; for an integer
/// variable what stands on the right is added.
pub proof fn law_appending_assignment(
    before: ShellState,
    after: ShellState,
    name: Seq<char>,
    append: bool,
    value: Seq<char>,
    elapsed: nat,
    r: AssignStep,
)
    requires
        compound_text(value) is None,
        whole_assigned(before, after, name, append, value, elapsed, r),
    ensures
        ({
            let held = value_or_empty(before, name, elapsed);
            let text = if append {
                held + value
            } else {
                value
            };
            &&& !is_integer(before.env@, name) ==> r is Done && after.env@ == assign_env(
                before.env@,
                name,
                text,
            )
            &&& is_integer(before.env@, name) ==> after.env@ == before.env@ && (r matches
                AssignStep::Evaluate { name: n, expr } && n@ == name && expr@ == (if append {
                held + seq!['+'] + value
            } else {
                value
            }))
            &&& after.positional == before.positional
        }),
{
    reveal_strlit("+");
    assert("+"@ =~= seq!['+']);
}

} // verus!
