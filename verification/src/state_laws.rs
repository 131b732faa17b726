//! What holds of the parameters and variables of a shell.
use crate::entries::{
    distinct_keys, key_index, law_removed_key_is_gone, lemma_key_index, lemma_key_index_is,
    lemma_put, value_of,
};
use crate::state::{
    allexport_on, append_base, appended, assign_plain, assigned, chain_end, element_of, flags_of,
    follow, init_array_env, is_internal_name, lemma_chain_end, named_value, nameref_of, next_index,
    value_keys, value_values, var_value, with_element, without_element, xorshift, ShellState,
};
use crate::text::{
    dec, is_digit, law_dec_parses, lemma_dec_digits, parse_signed, parse_unsigned, split_on,
    starts_with,
};
use crate::text_laws::{law_integers_read_back, law_joined_words_split_again};
use crate::vars::{
    exported_in, exported_upto, law_set_then_lookup, lookup, plain_var, EnvView, ValueView, VarView,
};
use crate::views::strs;
use vstd::prelude::*;

verus! {

/// The value of `$*` and of `$@` holds the positional parameters, in their order, with one blank
/// between each two: where none of them holds a blank, splitting it at the blanks gives them back.
pub proof fn law_all_parameters(st: ShellState, name: Seq<char>, elapsed: nat)
    requires
        name == "*"@ || name == "@"@,
        st.positional@.len() > 0,
        forall|i: int| 0 <= i < st.positional@.len() ==> !(#[trigger] st.positional@[i])@.contains(
            ' ',
        ),
    ensures
        var_value(st, name, elapsed) is Some,
        split_on(var_value(st, name, elapsed)->0, ' ') == strs(st.positional@),
{
    reveal_strlit("?");
    reveal_strlit("#");
    reveal_strlit("0");
    reveal_strlit("@");
    reveal_strlit("*");
    reveal_strlit(" ");
    assert("*"@[0] != "?"@[0] && "*"@[0] != "#"@[0] && "*"@[0] != "0"@[0]);
    assert("@"@[0] != "?"@[0] && "@"@[0] != "#"@[0] && "@"@[0] != "0"@[0]);
    assert(" "@ =~= seq![' ']);
    let words = strs(st.positional@);
    assert forall|i: int| 0 <= i < words.len() implies !(#[trigger] words[i]).contains(' ') by {
        assert(words[i] == st.positional@[i]@);
    }
    law_joined_words_split_again(words, ' ');
}

/// `$#` is the number of positional parameters, `$?` the last status, `$LINENO` the line, and
/// `$RANDOM` a number below 32768.
pub proof fn law_numeric_parameters(st: ShellState, elapsed: nat)
    requires
        st.positional@.len() <= usize::MAX,
    ensures
        parse_unsigned(var_value(st, "#"@, elapsed)->0, usize::MAX as nat) == Some(
            st.positional@.len(),
        ),
        parse_signed(var_value(st, "?"@, elapsed)->0, i32::MIN as int, i32::MAX as int) == Some(
            st.last_status as int,
        ),
        parse_unsigned(var_value(st, "LINENO"@, elapsed)->0, u32::MAX as nat) == Some(
            st.lineno as nat,
        ),
        exists|n: nat|
            n < 32768 && #[trigger] parse_unsigned(var_value(st, "RANDOM"@, elapsed)->0, 32767)
                == Some(n),
        var_value(st, "#"@, elapsed) is Some,
        var_value(st, "?"@, elapsed) is Some,
        var_value(st, "LINENO"@, elapsed) is Some,
        var_value(st, "RANDOM"@, elapsed) is Some,
{
    reveal_strlit("?");
    reveal_strlit("#");
    reveal_strlit("0");
    reveal_strlit("@");
    reveal_strlit("*");
    reveal_strlit("RANDOM");
    reveal_strlit("LINENO");
    assert("#"@[0] != "?"@[0]);
    assert("RANDOM"@.len() == 6 && "LINENO"@.len() == 6 && "LINENO"@[0] != "RANDOM"@[0]);
    law_dec_parses(st.positional@.len(), usize::MAX as nat);
    law_integers_read_back(st.last_status as int, i32::MIN as int, i32::MAX as int);
    law_dec_parses(st.lineno as nat, u32::MAX as nat);
    let n = (xorshift(st.random_seed) % 32768) as nat;
    law_dec_parses(n, 32767);
    assert(n < 32768 && parse_unsigned(var_value(st, "RANDOM"@, elapsed)->0, 32767) == Some(n));
}

/// `$1`, `$2` and so on are the positional parameters, counted from one; beyond the last one there
/// is none.
pub proof fn law_numbered_parameters(st: ShellState, n: nat, elapsed: nat)
    requires
        1 <= n <= usize::MAX,
    ensures
        var_value(st, dec(n), elapsed) == (if n <= st.positional@.len() {
            Some(st.positional@[n - 1]@)
        } else {
            None
        }),
{
    reveal_strlit("?");
    reveal_strlit("#");
    reveal_strlit("0");
    reveal_strlit("@");
    reveal_strlit("*");
    reveal_strlit("RANDOM");
    reveal_strlit("LINENO");
    reveal_strlit("SECONDS");
    reveal_strlit("FUNCNAME");
    reveal_strlit("BASH_SOURCE");
    let d = dec(n);
    lemma_dec_digits(n);
    law_dec_parses(n, usize::MAX as nat);
    assert(is_digit(d[0]));
    assert(!is_digit("?"@[0]) && !is_digit("#"@[0]) && !is_digit("@"@[0]) && !is_digit("*"@[0]));
    assert(!is_digit("RANDOM"@[0]) && !is_digit("LINENO"@[0]) && !is_digit("SECONDS"@[0]));
    assert(!is_digit("FUNCNAME"@[0]) && !is_digit("BASH_SOURCE"@[0]));
    if d == "0"@ {
        lemma_dec_digits(0);
        assert(dec(0) =~= seq!['0']);
        assert("0"@ =~= seq!['0']);
    }
    if n <= st.positional@.len() {
        assert(strs(st.positional@)[n - 1] == st.positional@[n - 1]@);
    }
}

/// Whether a name is that of a variable: it writes no number.
pub open spec fn names_a_variable(name: Seq<char>) -> bool {
    parse_unsigned(name, usize::MAX as nat) is None
}

/// What is assigned to a variable is read back, whatever the positional parameters are; the other
/// variables read as before.
pub proof fn law_assigned_value_is_read(
    env: EnvView,
    positional: Seq<Seq<char>>,
    name: Seq<char>,
    value: Seq<char>,
    other: Seq<char>,
)
    requires
        env.len() > 0,
        names_a_variable(name),
        !flags_of(lookup(env, name)).readonly,
        !flags_of(lookup(env, name)).nameref,
        lookup(env, name) matches Some(v) ==> !(v.value is Indexed),
        other != name,
    ensures
        named_value(assign_plain(env, name, value), positional, name) == Some(value),
        lookup(assign_plain(env, name, value), other) == lookup(env, other),
{
    let f = flags_of(lookup(env, name));
    let v = VarView {
        value: assigned(lookup(env, name), value),
        exported: f.exported || (!is_internal_name(name) && allexport_on(env)),
        readonly: false,
        integer: f.integer,
        nameref: f.nameref,
    };
    law_set_then_lookup(env, name, v);
}

/// A reference reads as the variable that it names, and an assignment through it ends there.
pub proof fn law_references_lead_to_their_target(
    env: EnvView,
    positional: Seq<Seq<char>>,
    name: Seq<char>,
    target: Seq<char>,
)
    requires
        names_a_variable(name),
        lookup(env, name) matches Some(v) && v.nameref && v.value == ValueView::Scalar(target),
        target.len() > 0,
        target != name,
    ensures
        named_value(env, positional, name) == (match lookup(env, target) {
            Some(v) => Some(v.value.scalar()),
            None => None,
        }),
        (lookup(env, target) matches Some(v) ==> !v.nameref) ==> chain_end(env, name) == target,
{
    if lookup(env, target) matches Some(v) ==> !v.nameref {
        assert(nameref_of(env, name) == Some(target));
        assert(follow(env, target, 0) == Some(target));
        assert(follow(env, name, 1) == Some(target));
        lemma_chain_end(env, name, 1);
    }
}

/// A variable keeps its flags when it is assigned to, and with `set -a` it is exported unless its
/// name is internal; without `set -a` an assignment exports nothing.
pub proof fn law_assignment_and_flags(env: EnvView, name: Seq<char>, value: Seq<char>)
    requires
        env.len() > 0,
        !flags_of(lookup(env, name)).readonly,
    ensures
        ({
            let f = flags_of(lookup(env, name));
            let g = lookup(assign_plain(env, name, value), name);
            &&& g is Some
            &&& g->0.integer == f.integer && g->0.nameref == f.nameref && !g->0.readonly
            &&& f.exported ==> g->0.exported
            &&& !allexport_on(env) ==> g->0.exported == f.exported
            &&& allexport_on(env) && !starts_with(name, "SHOPT_"@) && !starts_with(name, "_"@)
                ==> g->0.exported
        }),
{
    let f = flags_of(lookup(env, name));
    let v = VarView {
        value: assigned(lookup(env, name), value),
        exported: f.exported || (!is_internal_name(name) && allexport_on(env)),
        readonly: false,
        integer: f.integer,
        nameref: f.nameref,
    };
    law_set_then_lookup(env, name, v);
}

/// The elements of an array are found under its keys: the keys and the values come in the same
/// order, and as many.
pub proof fn law_keys_find_their_values(v: ValueView, i: int)
    requires
        0 <= i < value_keys(v).len(),
        v matches ValueView::Indexed(e) ==> distinct_keys(e),
        v matches ValueView::Assoc(e) ==> distinct_keys(e),
    ensures
        value_values(v).len() == value_keys(v).len(),
        element_of(v, value_keys(v)[i]) == Some(value_values(v)[i]),
{
    match v {
        ValueView::Scalar(_) => {},
        ValueView::Indexed(e) => {
            law_dec_parses(e[i].0 as nat, usize::MAX as nat);
            assert forall|j: int| 0 <= j < i implies (#[trigger] e[j]).0 != e[i].0 by {}
            lemma_key_index_is(e, e[i].0, i);
        },
        ValueView::Assoc(e) => {
            assert forall|j: int| 0 <= j < i implies (#[trigger] e[j]).0 != e[i].0 by {}
            lemma_key_index_is(e, e[i].0, i);
        },
    }
}

/// An element that is set reads back, one that is removed is gone, and the other elements stay.
pub proof fn law_elements_are_independent(
    v: ValueView,
    n: nat,
    other: nat,
    value: Seq<char>,
)
    requires
        n <= usize::MAX,
        other <= usize::MAX,
        other != n,
        v matches ValueView::Indexed(e) ==> distinct_keys(e),
        v matches ValueView::Assoc(e) ==> distinct_keys(e),
    ensures
        element_of(with_element(v, dec(n), value), dec(n)) == Some(value),
        !(v is Scalar) ==> element_of(with_element(v, dec(n), value), dec(other)) == element_of(
            v,
            dec(other),
        ),
        v is Scalar ==> element_of(with_element(v, dec(n), value), dec(other)) is None,
        !(v is Scalar) ==> element_of(without_element(v, dec(n)), dec(n)) is None,
        element_of(without_element(v, dec(n)), dec(other)) == element_of(v, dec(other)),
{
    law_dec_parses(n, usize::MAX as nat);
    law_dec_parses(other, usize::MAX as nat);
    assert(dec(n) != dec(other));
    match v {
        ValueView::Scalar(_) => {
            let none = Seq::<(usize, Seq<char>)>::empty();
            lemma_put(none, n as usize, value);
            lemma_key_index(none, other as usize);
            assert(value_of(none, other as usize) is None);
            reveal_strlit("0");
            lemma_dec_digits(0);
            assert(dec(0) =~= seq!['0']);
            assert("0"@ =~= seq!['0']);
        },
        ValueView::Indexed(e) => {
            lemma_put(e, n as usize, value);
            law_removed_key_is_gone(e, n as usize);
        },
        ValueView::Assoc(e) => {
            lemma_put(e, dec(n), value);
            law_removed_key_is_gone(e, dec(n));
        },
    }
}

proof fn lemma_next_index(e: Seq<(usize, Seq<char>)>)
    ensures
        0 <= next_index(e),
        forall|i: int| 0 <= i < e.len() ==> (#[trigger] e[i]).0 < next_index(e),
        e.len() > 0 ==> exists|i: int|
            0 <= i < e.len() && (#[trigger] e[i]).0 + 1 == next_index(e),
        e.len() == 0 ==> next_index(e) == 0,
    decreases e.len(),
{
    if e.len() > 0 {
        let d = e.drop_last();
        lemma_next_index(d);
        assert forall|i: int| 0 <= i < e.len() implies (#[trigger] e[i]).0 < next_index(e) by {
            if i < e.len() - 1 {
                assert(d[i] == e[i]);
            }
        }
        if e.last().0 + 1 > next_index(d) {
            assert(e[e.len() - 1].0 + 1 == next_index(e));
        } else {
            let i = choose|i: int| 0 <= i < d.len() && (#[trigger] d[i]).0 + 1 == next_index(d);
            assert(e[i] == d[i]);
        }
    }
}

proof fn lemma_appended(
    e: Seq<(usize, Seq<char>)>,
    next: int,
    values: Seq<Seq<char>>,
    n: int,
    k: usize,
)
    requires
        0 <= n <= values.len(),
        0 <= next,
        next + values.len() <= usize::MAX + 1,
    ensures
        value_of(appended(e, next, values, n), k) == (if next <= k < next + n {
            Some(values[k - next])
        } else {
            value_of(e, k)
        }),
    decreases n,
{
    if n > 0 {
        lemma_appended(e, next, values, n - 1, k);
        let before = appended(e, next, values, n - 1);
        lemma_put(before, (next + n - 1) as usize, values[n - 1]);
    }
}

/// Values that are appended to an array follow behind its greatest index, in their order, and what
/// it held before stays.
pub proof fn law_appended_values_follow(
    e: Seq<(usize, Seq<char>)>,
    values: Seq<Seq<char>>,
    k: usize,
)
    requires
        next_index(e) + values.len() <= usize::MAX + 1,
    ensures
        ({
            let after = appended(e, next_index(e), values, values.len() as int);
            let first = next_index(e);
            &&& first == 0 <==> e.len() == 0
            &&& forall|i: int| 0 <= i < e.len() ==> (#[trigger] e[i]).0 < first
            &&& e.len() > 0 ==> exists|i: int| 0 <= i < e.len() && (#[trigger] e[i]).0 + 1 == first
            &&& first <= k < first + values.len() ==> value_of(after, k) == Some(values[k - first])
            &&& !(first <= k < first + values.len()) ==> value_of(after, k) == value_of(e, k)
        }),
{
    lemma_next_index(e);
    lemma_appended(e, next_index(e), values, values.len() as int, k);
}

/// A scalar that is not empty is the first element of the array that it becomes.
pub proof fn law_scalar_becomes_the_first_element(v: VarView, s: Seq<char>)
    requires
        v.value == ValueView::Scalar(s),
        s.len() > 0,
    ensures
        value_of(append_base(Some(v)), 0usize) == Some(s),
        next_index(append_base(Some(v))) == 1,
        element_of(v.value, dec(0)) == Some(s),
        value_values(v.value) == seq![s],
{
    let e = append_base(Some(v));
    lemma_key_index_is(e, 0usize, 0);
    assert(e.drop_last() =~= Seq::empty());
    assert(next_index(e.drop_last()) == 0);
    reveal_strlit("0");
    assert(dec(0) =~= seq!['0']);
    assert("0"@ =~= seq!['0']);
}

/// A fresh array has no elements, keeps that the variable is exported, and nothing else of it.
pub proof fn law_fresh_array(env: EnvView, name: Seq<char>, empty: ValueView)
    requires
        env.len() > 0,
        !flags_of(lookup(env, name)).readonly,
    ensures
        lookup(init_array_env(env, name, empty), name) == Some(
            VarView {
                exported: flags_of(lookup(env, name)).exported,
                ..plain_var(empty)
            },
        ),
{
    let f = flags_of(lookup(env, name));
    law_set_then_lookup(
        env,
        name,
        VarView {
            value: empty,
            exported: f.exported,
            readonly: false,
            integer: false,
            nameref: false,
        },
    );
}

/// An array reads as its values with one blank between each two: where none of them holds a blank,
/// splitting it at the blanks gives them back.
pub proof fn law_array_reads_as_its_values(v: ValueView)
    requires
        !(v is Scalar),
        value_values(v).len() > 0,
        forall|i: int| 0 <= i < value_values(v).len() ==> !(#[trigger] value_values(v)[i]).contains(
            ' ',
        ),
    ensures
        split_on(v.scalar(), ' ') == value_values(v),
{
    law_joined_words_split_again(value_values(v), ' ');
}

/// Whether a scope exports a name.
pub open spec fn exports(scope: Seq<(Seq<char>, VarView)>, name: Seq<char>) -> bool {
    value_of(scope, name) matches Some(v) && v.exported
}

proof fn lemma_exported_in(
    scope: Seq<(Seq<char>, VarView)>,
    n: int,
    result: Seq<(Seq<char>, Seq<char>)>,
    name: Seq<char>,
)
    requires
        0 <= n <= scope.len(),
        distinct_keys(scope),
    ensures
        value_of(exported_in(scope, n, result), name) == (if exports(scope, name) && key_index(
            scope,
            name,
        ) < n {
            Some(value_of(scope, name)->0.value.scalar())
        } else {
            value_of(result, name)
        }),
    decreases n,
{
    lemma_key_index(scope, name);
    if n > 0 {
        lemma_exported_in(scope, n - 1, result, name);
        let before = exported_in(scope, n - 1, result);
        let e = scope[n - 1];
        assert forall|j: int| 0 <= j < n - 1 implies (#[trigger] scope[j]).0 != e.0 by {}
        lemma_key_index_is(scope, e.0, n - 1);
        lemma_put(before, e.0, e.1.value.scalar());
    }
}

proof fn lemma_exported_alike(a: EnvView, b: EnvView, n: int)
    requires
        0 <= n <= a.len(),
        n <= b.len(),
        forall|i: int| 0 <= i < n ==> a[i] == b[i],
    ensures
        exported_upto(a, n) == exported_upto(b, n),
    decreases n,
{
    if n > 0 {
        lemma_exported_alike(a, b, n - 1);
    }
}

/// The variables that commands are given are those that are exported, each as the innermost scope
/// that exports it has it.
pub proof fn law_exported_variables(
    env: EnvView,
    scope: Seq<(Seq<char>, VarView)>,
    name: Seq<char>,
)
    requires
        distinct_keys(scope),
    ensures
        value_of(exported_upto(env.push(scope), env.len() as int + 1), name) == (if exports(
            scope,
            name,
        ) {
            Some(value_of(scope, name)->0.value.scalar())
        } else {
            value_of(exported_upto(env, env.len() as int), name)
        }),
        exported_upto(Seq::empty(), 0) == Seq::<(Seq<char>, Seq<char>)>::empty(),
{
    let all = env.push(scope);
    let n = env.len() as int;
    lemma_exported_alike(all, env, n);
    lemma_key_index(scope, name);
    lemma_exported_in(scope, scope.len() as int, exported_upto(env, n), name);
}

/// The parameters that the shell gives itself: its name, and for how many seconds it runs; the function
/// and the script that run are those that were entered last.
pub proof fn law_parameters_of_the_shell(st: ShellState, elapsed: nat)
    ensures
        var_value(st, "0"@, elapsed) == Some("wasmsh"@),
        elapsed <= u64::MAX ==> (var_value(st, "SECONDS"@, elapsed) matches Some(s)
            && parse_unsigned(s, u64::MAX as nat) == Some(elapsed)),
        st.func_stack@.len() > 0 ==> var_value(st, "FUNCNAME"@, elapsed) == Some(
            st.func_stack@.last()@,
        ),
        st.source_stack@.len() > 0 ==> var_value(st, "BASH_SOURCE"@, elapsed) == Some(
            st.source_stack@.last()@,
        ),
        st.func_stack@.len() == 0 ==> var_value(st, "FUNCNAME"@, elapsed) == Some(
            Seq::<char>::empty(),
        ),
{
    reveal_strlit("?");
    reveal_strlit("#");
    reveal_strlit("0");
    reveal_strlit("@");
    reveal_strlit("*");
    reveal_strlit("RANDOM");
    reveal_strlit("LINENO");
    reveal_strlit("SECONDS");
    reveal_strlit("FUNCNAME");
    reveal_strlit("BASH_SOURCE");
    assert("0"@[0] != "?"@[0] && "0"@[0] != "#"@[0]);
    assert("?"@.len() == 1 && "#"@.len() == 1 && "0"@.len() == 1 && "@"@.len() == 1 && "*"@.len()
        == 1);
    assert("RANDOM"@.len() == 6 && "LINENO"@.len() == 6 && "SECONDS"@.len() == 7 && "FUNCNAME"@.len()
        == 8 && "BASH_SOURCE"@.len() == 11);
    if elapsed <= u64::MAX {
        law_dec_parses(elapsed, u64::MAX as nat);
    }
}

/// With `allexport` on every variable that is assigned is exported, except those that the shell keeps
/// for itself.
pub proof fn law_own_variables_are_not_exported(env: EnvView, name: Seq<char>, value: Seq<char>)
    requires
        env.len() > 0,
        !flags_of(lookup(env, name)).readonly,
        !flags_of(lookup(env, name)).exported,
        starts_with(name, "SHOPT_"@) || starts_with(name, "_"@),
    ensures
        lookup(assign_plain(env, name, value), name) matches Some(v) && !v.exported,
{
    let f = flags_of(lookup(env, name));
    law_set_then_lookup(
        env,
        name,
        VarView {
            value: assigned(lookup(env, name), value),
            exported: false,
            readonly: false,
            integer: f.integer,
            nameref: f.nameref,
        },
    );
}

/// What values are appended to: the elements of an array as they are, and nothing where the variable is
/// unset, empty or associative.
pub proof fn law_appending_starts_from(e: Seq<(usize, Seq<char>)>, v: VarView)
    ensures
        append_base(None).len() == 0,
        v.value == ValueView::Indexed(e) ==> append_base(Some(v)) == e,
        v.value is Assoc ==> append_base(Some(v)).len() == 0,
        v.value == ValueView::Scalar(Seq::empty()) ==> append_base(Some(v)).len() == 0,
{
}

} // verus!
