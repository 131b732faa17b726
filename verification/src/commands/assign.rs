//! Assignments: of a value, of an element, of a whole array, and appending.
use crate::commands::arrays::{
    array_elements, assoc_pairs, pairs_of, parse_array_elements, parse_assoc_pairs,
};
use crate::commands::scope::assign_env;
use crate::state::{
    append_fits, appended_env, chain_ends, element_set_env, flags_of, init_array_env, same_but_env,
    same_but_env_and_seed, value_in, xorshift, ShellState,
};
use crate::text::{
    chars_of, contains_char, dec, dec_int, ends_with, find_chars, find_in, i64_to_dec,
    split_at_char, starts_with, str_ends_with, str_starts_with, sub_string, trim, trimmed,
    u64_to_dec,
};
use crate::vars::{lookup, EnvView, ValueView};
use crate::views::strs;
use vstd::prelude::*;

verus! {

/// The variables after the first `n` elements went into an indexed array.
pub open spec fn indexed_env(
    env: EnvView,
    name: Seq<char>,
    elements: Seq<Seq<char>>,
    n: int,
) -> EnvView
    decreases n,
{
    if n <= 0 {
        init_array_env(env, name, ValueView::Indexed(Seq::empty()))
    } else {
        element_set_env(
            indexed_env(env, name, elements, n - 1),
            name,
            dec((n - 1) as nat),
            elements[n - 1],
        )
    }
}

/// The variables after the first `n` pairs went into an associative array.
pub open spec fn assoc_env(
    env: EnvView,
    name: Seq<char>,
    pairs: Seq<(Seq<char>, Seq<char>)>,
    n: int,
) -> EnvView
    decreases n,
{
    if n <= 0 {
        init_array_env(env, name, ValueView::Assoc(Seq::empty()))
    } else {
        element_set_env(
            assoc_env(env, name, pairs, n - 1),
            name,
            pairs[n - 1].0,
            pairs[n - 1].1,
        )
    }
}

/// Makes a variable an indexed array of these elements.
pub fn assign_indexed_array(state: &mut ShellState, name: &str, elements: &Vec<String>)
    ensures
        final(state).env@ == indexed_env(
            old(state).env@,
            name@,
            strs(elements@),
            elements@.len() as int,
        ),
        same_but_env(*final(state), *old(state)),
{
    let ghost env0 = state.env@;
    let ghost all = strs(elements@);
    state.init_indexed_array(name.to_owned());
    let mut i: usize = 0;
    while i < elements.len()
        invariant
            i <= elements@.len(),
            all == strs(elements@),
            state.env@ == indexed_env(env0, name@, all, i as int),
            same_but_env(*state, *old(state)),
        decreases elements@.len() - i,
    {
        assert(all[i as int] == elements@[i as int]@);
        let index = u64_to_dec(i as u64);
        state.set_array_element(name.to_owned(), index.as_str(), elements[i].clone());
        i = i + 1;
    }
}

/// Makes a variable an associative array of these pairs.
pub fn assign_assoc_array(state: &mut ShellState, name: &str, pairs: &Vec<(String, String)>)
    ensures
        final(state).env@ == assoc_env(
            old(state).env@,
            name@,
            pairs_of(pairs@),
            pairs@.len() as int,
        ),
        same_but_env(*final(state), *old(state)),
{
    let ghost env0 = state.env@;
    let ghost all = pairs_of(pairs@);
    state.init_assoc_array(name.to_owned());
    let mut i: usize = 0;
    while i < pairs.len()
        invariant
            i <= pairs@.len(),
            all == pairs_of(pairs@),
            state.env@ == assoc_env(env0, name@, all, i as int),
            same_but_env(*state, *old(state)),
        decreases pairs@.len() - i,
    {
        assert(all[i as int] == (pairs@[i as int].0@, pairs@[i as int].1@));
        state.set_array_element(name.to_owned(), pairs[i].0.as_str(), pairs[i].1.clone());
        i = i + 1;
    }
}

/// Whether a text holds `]=`.
pub open spec fn has_key_mark(s: Seq<char>) -> bool {
    find_chars(s, "]="@, 0) is Some
}

/// Whether a text holds `]=`.
pub fn contains_key_mark(s: &str) -> (r: bool)
    ensures
        r == has_key_mark(s@),
{
    let chars = chars_of(s);
    let mark = chars_of("]=");
    find_in(&chars, &mark, 0).is_some()
}

/// Whether the text between the parentheses is that of an associative array: it has elements, a
/// bracket and `]=`.
pub open spec fn is_assoc_text(inner: Seq<char>) -> bool {
    array_elements(inner).len() > 0 && inner.contains('[') && has_key_mark(inner)
}

/// Whether the text between the parentheses is that of an associative array.
pub fn is_assoc_array_assignment(inner: &str, elements: &Vec<String>) -> (r: bool)
    requires
        strs(elements@) == array_elements(inner@),
    ensures
        r == is_assoc_text(inner@),
{
    assert(elements@.len() == strs(elements@).len());
    elements.len() > 0 && contains_char(inner, '[') && contains_key_mark(inner)
}

/// The variables after an array was assigned or appended to.
pub open spec fn compound_env(
    env: EnvView,
    name: Seq<char>,
    inner: Seq<char>,
    append: bool,
) -> EnvView {
    let elements = array_elements(inner);
    if append {
        appended_env(env, name, elements)
    } else if is_assoc_text(inner) {
        assoc_env(env, name, assoc_pairs(inner, 0), assoc_pairs(inner, 0).len() as int)
    } else {
        indexed_env(env, name, elements, elements.len() as int)
    }
}

/// Whether the elements can be appended to an array.
pub open spec fn compound_fits(env: EnvView, name: Seq<char>, inner: Seq<char>, append: bool) -> bool {
    append && !flags_of(lookup(env, name)).readonly ==> append_fits(
        lookup(env, name),
        array_elements(inner).len(),
    )
}

/// Assigns an array, or appends to it, given the text between the parentheses.
pub fn assign_compound_array(state: &mut ShellState, name: &str, inner: &str, append: bool)
    requires
        compound_fits(old(state).env@, name@, inner@, append),
    ensures
        final(state).env@ == compound_env(old(state).env@, name@, inner@, append),
        same_but_env(*final(state), *old(state)),
{
    let elements = parse_array_elements(inner);
    assert(elements@.len() == strs(elements@).len());
    if append {
        state.append_array(name, elements);
        return;
    }
    if is_assoc_array_assignment(inner, &elements) {
        let pairs = parse_assoc_pairs(inner);
        assert(pairs@.len() == pairs_of(pairs@).len());
        assign_assoc_array(state, name, &pairs);
        return;
    }
    assign_indexed_array(state, name, &elements);
}

/// Whether a text stands in parentheses.
pub open spec fn in_parens(s: Seq<char>) -> bool {
    starts_with(s, "("@) && ends_with(s, ")"@)
}

/// The text between the parentheses, where a value is one in parentheses.
pub open spec fn compound_text(value: Seq<char>) -> Option<Seq<char>> {
    let t = trimmed(value);
    if in_parens(t) {
        Some(t.subrange(1, t.len() - 1))
    } else {
        None
    }
}

/// The text between the parentheses, where a value is one in parentheses.
pub fn compound_inner(value: &str) -> (r: Option<String>)
    ensures
        match r {
            Some(t) => compound_text(value@) == Some(t@),
            None => compound_text(value@) is None,
        },
{
    let t = trim(value);
    if str_starts_with(t.as_str(), "(") && str_ends_with(t.as_str(), ")") {
        let chars = chars_of(t.as_str());
        proof {
            reveal_strlit("(");
            reveal_strlit(")");
            let s = t@;
            assert(s.take(1)[0] == '(');
            assert(s.skip(s.len() - 1)[0] == ')');
            assert(s.len() >= 2);
        }
        Some(sub_string(&chars, 1, chars.len() - 1))
    } else {
        None
    }
}

/// What an assignment is to.
#[derive(Debug)]
pub enum AssignTarget {
    /// An element of an array.
    Element { base: String, index: String },
    /// A variable, possibly to append to.
    Whole { name: String, append: bool },
}

/// The name before a final `+`, and whether there is one.
pub open spec fn append_name(raw: Seq<char>) -> (Seq<char>, bool) {
    if raw.len() > 0 && raw.last() == '+' {
        (raw.drop_last(), true)
    } else {
        (raw, false)
    }
}

/// Whether a name is that of an element: it has a bracket and ends with one.
pub open spec fn is_element_name(name: Seq<char>) -> bool {
    name.contains('[') && name.len() > 0 && name.last() == ']'
}

/// Whether `r` is what an assignment is to.
pub open spec fn target_answers(raw: Seq<char>, r: AssignTarget) -> bool {
    let (name, append) = append_name(raw);
    if is_element_name(name) {
        let k = crate::text::char_pos(name, '[');
        r matches AssignTarget::Element { base, index } && base@ == name.take(k) && index@
            == name.subrange(k + 1, name.len() - 1)
    } else {
        r matches AssignTarget::Whole { name: n, append: a } && n@ == name && a == append
    }
}

/// Reads the name of an assignment.
pub fn assignment_target(raw: &str) -> (r: AssignTarget)
    ensures
        target_answers(raw@, r),
{
    let raw_chars = chars_of(raw);
    let append: bool = raw_chars.len() > 0 && raw_chars[raw_chars.len() - 1] == '+';
    let name = if append {
        sub_string(&raw_chars, 0, raw_chars.len() - 1)
    } else {
        raw.to_owned()
    };
    proof {
        if append {
            assert(name@ =~= raw@.drop_last());
        }
        assert((name@, append) == append_name(raw@));
    }
    let chars = chars_of(name.as_str());
    if contains_char(name.as_str(), '[') && chars.len() > 0 && chars[chars.len() - 1] == ']' {
        let (base, _) = split_at_char(name.as_str(), '[');
        let ghost k = crate::text::char_pos(name@, '[');
        proof {
            crate::text::lemma_char_pos(name@, '[');
            let i = choose|i: int| 0 <= i < name@.len() && name@[i] == '[';
            assert(k < name@.len());
            assert(name@[k] == '[');
            assert(name@.take(k).len() == k);
        }
        let n: usize = chars_of(base.as_str()).len();
        let index = sub_string(&chars, n + 1, chars.len() - 1);
        AssignTarget::Element { base, index }
    } else {
        AssignTarget::Whole { name, append }
    }
}

/// What is left of an assignment.
#[derive(Debug)]
pub enum AssignStep {
    Done,
    /// An integer variable: the expression is to be evaluated, and its value assigned.
    Evaluate { name: String, expr: String },
}

/// The value of a name, or an empty text.
pub open spec fn value_or_empty(st: ShellState, name: Seq<char>, elapsed: nat) -> Seq<char> {
    match value_in(st, st.env@, st.random_seed, name, elapsed) {
        Some(v) => v,
        None => Seq::empty(),
    }
}

/// The seed after a name was read.
pub open spec fn seed_after_read(st: ShellState, name: Seq<char>) -> u32 {
    if name == "RANDOM"@ {
        xorshift(st.random_seed)
    } else {
        st.random_seed
    }
}

/// Whether a variable is an integer.
pub open spec fn is_integer(env: EnvView, name: Seq<char>) -> bool {
    lookup(env, name) matches Some(v) && v.integer
}

/// What assigning a value to a whole variable leaves: an array for a value in parentheses, an
/// expression to evaluate for an integer variable, else the value, after the old one where it is
/// appended.
pub open spec fn whole_assigned(
    before: ShellState,
    after: ShellState,
    name: Seq<char>,
    append: bool,
    value: Seq<char>,
    elapsed: nat,
    r: AssignStep,
) -> bool {
    &&& same_but_env_and_seed(after, before)
    &&& match compound_text(value) {
        Some(inner) => {
            &&& r is Done
            &&& after.env@ == compound_env(before.env@, name, inner, append)
            &&& after.random_seed == before.random_seed
        },
        None => {
            let old_value = value_or_empty(before, name, elapsed);
            &&& after.random_seed == if append {
                seed_after_read(before, name)
            } else {
                before.random_seed
            }
            &&& if is_integer(before.env@, name) {
                &&& after.env@ == before.env@
                &&& r matches AssignStep::Evaluate { name: n, expr } && n@ == name && expr@
                    == if append {
                    old_value + "+"@ + value
                } else {
                    value
                }
            } else {
                &&& r is Done
                &&& after.env@ == assign_env(
                    before.env@,
                    name,
                    if append {
                        old_value + value
                    } else {
                        value
                    },
                )
            }
        },
    }
}

/// Assigns the value of a word; `elapsed` is how many seconds the shell runs.
pub fn assign_value(state: &mut ShellState, target: AssignTarget, value: String, elapsed: u64) -> (r:
    AssignStep)
    requires
        target matches AssignTarget::Whole { name, append } ==> {
            &&& chain_ends(old(state).env@, name@)
            &&& compound_text(value@) matches Some(inner) ==> compound_fits(
                old(state).env@,
                name@,
                inner,
                append,
            )
        },
    ensures
        match target {
            AssignTarget::Element { base, index } => {
                &&& r is Done
                &&& final(state).env@ == element_set_env(
                    old(state).env@,
                    base@,
                    index@,
                    value@,
                )
                &&& same_but_env(*final(state), *old(state))
            },
            AssignTarget::Whole { name, append } => whole_assigned(
                *old(state),
                *final(state),
                name@,
                append,
                value@,
                elapsed as nat,
                r,
            ),
        },
{
    match target {
        AssignTarget::Element { base, index } => {
            state.set_array_element(base, index.as_str(), value);
            AssignStep::Done
        },
        AssignTarget::Whole { name, append } => {
            if let Some(inner) = compound_inner(value.as_str()) {
                assign_compound_array(state, name.as_str(), inner.as_str(), append);
                return AssignStep::Done;
            }
            let integer: bool = match state.env.get(name.as_str()) {
                Some(v) => v.integer,
                None => false,
            };
            if !append {
                if integer {
                    return AssignStep::Evaluate { name, expr: value };
                }
                state.set_var(name, value);
                return AssignStep::Done;
            }
            let before = match state.get_var_at(name.as_str(), elapsed) {
                Some(v) => v,
                None => String::new(),
            };
            proof {
                if value_in(
                    *old(state),
                    old(state).env@,
                    old(state).random_seed,
                    name@,
                    elapsed as nat,
                ) is None {
                    assert(before@ =~= Seq::empty());
                }
                assert(before@ == value_or_empty(*old(state), name@, elapsed as nat));
            }
            if integer {
                let expr = before.concat("+").concat(value.as_str());
                return AssignStep::Evaluate { name, expr };
            }
            let whole = before.concat(value.as_str());
            state.set_var(name, whole);
            AssignStep::Done
        },
    }
}

/// Assigns the value of an expression to an integer variable.
pub fn finish_integer(state: &mut ShellState, name: String, value: i64)
    requires
        chain_ends(old(state).env@, name@),
    ensures
        final(state).env@ == assign_env(old(state).env@, name@, dec_int(value as int)),
        same_but_env(*final(state), *old(state)),
{
    state.set_var(name, i64_to_dec(value));
}

/// Assigns on the fast path, where no element and no appending is possible: as above, but an
/// integer variable evaluates the value without the blanks around it, and the status is zero.
pub fn vm_assign(state: &mut ShellState, name: String, value: String) -> (r: AssignStep)
    requires
        chain_ends(old(state).env@, name@),
    ensures
        match compound_text(value@) {
            Some(inner) => {
                &&& r is Done
                &&& final(state).env@ == compound_env(old(state).env@, name@, inner, false)
                &&& final(state).last_status == 0
            },
            None => if is_integer(old(state).env@, name@) {
                &&& r matches AssignStep::Evaluate { name: n, expr } && n@ == name@ && expr@
                    == trimmed(value@)
                &&& *final(state) == *old(state)
            } else {
                &&& r is Done
                &&& final(state).env@ == assign_env(old(state).env@, name@, value@)
                &&& final(state).last_status == 0
            },
        },
        same_but_env(
            *final(state),
            (ShellState { last_status: final(state).last_status, ..*old(state) }),
        ),
{
    if let Some(inner) = compound_inner(value.as_str()) {
        assign_compound_array(state, name.as_str(), inner.as_str(), false);
        state.last_status = 0;
        return AssignStep::Done;
    }
    let integer: bool = match state.env.get(name.as_str()) {
        Some(v) => v.integer,
        None => false,
    };
    if integer {
        let expr = trim(value.as_str());
        return AssignStep::Evaluate { name, expr };
    }
    state.set_var(name, value);
    state.last_status = 0;
    AssignStep::Done
}

/// Assigning a value that is not in parentheses is the same on the fast path as on the full one.
pub proof fn law_paths_assign_alike(
    before: ShellState,
    full: ShellState,
    fast: ShellState,
    name: Seq<char>,
    value: Seq<char>,
    elapsed: nat,
    r: AssignStep,
)
    requires
        compound_text(value) is None,
        !is_integer(before.env@, name),
        whole_assigned(before, full, name, false, value, elapsed, r),
        fast.env@ == assign_env(before.env@, name, value),
    ensures
        full.env@ == fast.env@,
{
}

/// Words in parentheses without quotes, brackets and blanks make an indexed array of those words.
pub proof fn law_words_make_an_array(env: EnvView, name: Seq<char>, words: Seq<Seq<char>>)
    requires
        forall|i: int|
            0 <= i < words.len() ==> crate::commands::arrays::plain_word(#[trigger] words[i]),
        !crate::text::joined(words, " "@).contains('['),
    ensures
        compound_env(env, name, crate::text::joined(words, " "@), false) == indexed_env(
            env,
            name,
            words,
            words.len() as int,
        ),
{
    crate::commands::arrays::law_plain_words_are_elements(words);
}

/// The entries of an indexed array: each element with its position.
pub open spec fn numbered(elements: Seq<Seq<char>>, n: int) -> Seq<(usize, Seq<char>)> {
    Seq::new(n as nat, |i: int| (i as usize, elements[i]))
}

/// An array that is assigned holds its elements, numbered from zero; what the variable held before
/// is gone. A readonly variable is left alone.
pub proof fn law_array_holds_its_elements(
    env: EnvView,
    name: Seq<char>,
    elements: Seq<Seq<char>>,
    n: int,
)
    requires
        env.len() > 0,
        !flags_of(lookup(env, name)).readonly,
        0 <= n <= elements.len() <= usize::MAX,
    ensures
        indexed_env(env, name, elements, n).len() == env.len(),
        lookup(indexed_env(env, name, elements, n), name) matches Some(v) && v.value
            == ValueView::Indexed(numbered(elements, n)) && !v.readonly,
    decreases n,
{
    let empty = ValueView::Indexed(Seq::empty());
    if n == 0 {
        let f = flags_of(lookup(env, name));
        let after = init_array_env(env, name, empty);
        crate::vars::law_set_then_lookup(
            env,
            name,
            crate::vars::VarView {
                value: empty,
                exported: f.exported,
                readonly: false,
                integer: false,
                nameref: false,
            },
        );
        assert(numbered(elements, 0) =~= Seq::empty());
    } else {
        law_array_holds_its_elements(env, name, elements, n - 1);
        let before = indexed_env(env, name, elements, n - 1);
        let v = lookup(before, name)->0;
        let e = numbered(elements, n - 1);
        let i = (n - 1) as usize;
        let index = dec((n - 1) as nat);
        crate::text::law_dec_parses((n - 1) as nat, usize::MAX as nat);
        crate::entries::lemma_key_index_is(e, i, e.len() as int);
        assert(crate::entries::put(e, i, elements[n - 1]) =~= numbered(elements, n));
        crate::state::lemma_update_lookup(
            before,
            name,
            crate::state::with_value(
                v,
                crate::state::with_element(v.value, index, elements[n - 1]),
            ),
        );
    }
}

} // verus!
