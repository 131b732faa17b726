//! What holds of conditional expressions.
use crate::dbl_bracket::{
    binary_test, cond_and, cond_and_from, cond_int, cond_not, cond_or, cond_or_from, cond_primary,
    file_test, int_test, is_binary_operator, is_file_flag, regex_operand, rematch_env, rematch_upto,
    right_operand, span_texts, unary_flag, Cond, CondContext,
};
use crate::entries::{distinct_keys, has_key, lemma_put, value_of};
use crate::order::{bytes_before, str_before};
use crate::pattern::glob::law_plain_pattern_matches_itself;
use crate::pattern::regex_spec::regex_spans;
use crate::state::{element_of, flags_of, named_value};
use crate::text::{
    dec, dec_int, law_dec_parses, lemma_dec_digits, lemma_utf8_injective, lowercased, parse_signed,
    trimmed,
};
use crate::text_laws::{law_integers_read_back, law_trimming};
use crate::vars::{
    env_update, law_set_then_lookup, lemma_scope_of, lemma_scope_of_is, lookup, scope_of, EnvView,
    ValueView, VarView,
};
use vstd::prelude::*;
use vstd::utf8::{decode_utf8, encode_utf8};

verus! {

/// The first byte in which two texts differ decides their order, and a text comes before every
/// longer one that starts with it.
pub proof fn law_order_of_texts(p: Seq<u8>, a: Seq<u8>, b: Seq<u8>)
    ensures
        a.len() > 0 && b.len() > 0 && a[0] != b[0] ==> (bytes_before(p + a, p + b) <==> a[0]
            < b[0]),
        bytes_before(p, p + a) <==> a.len() > 0,
        !bytes_before(p + a, p),
    decreases p.len(),
{
    if p.len() == 0 {
        assert(p + a =~= a);
        assert(p + b =~= b);
    } else {
        law_order_of_texts(p.drop_first(), a, b);
        assert((p + a).drop_first() =~= p.drop_first() + a);
        assert((p + b).drop_first() =~= p.drop_first() + b);
    }
}

pub(crate) proof fn lemma_decimal_is_trimmed(n: int)
    ensures
        trimmed(dec_int(n)) == dec_int(n),
{
    let s = dec_int(n);
    law_trimming(s);
    let m = if n < 0 {
        (-n) as nat
    } else {
        n as nat
    };
    lemma_dec_digits(m);
    let d = dec(m);
    let (i, j) = choose|i: int, j: int|
        0 <= i <= j <= s.len() && #[trigger] s.subrange(i, j) == trimmed(s) && (forall|k: int|
            (0 <= k < i || j <= k < s.len()) ==> crate::text::is_space(#[trigger] s[k]));
    assert(crate::text::is_digit(d[0]));
    assert(crate::text::is_digit(d[d.len() - 1]));
    assert(!crate::text::is_space(s[0]));
    assert(!crate::text::is_space(s[s.len() - 1]));
    assert(i == 0 && j == s.len());
    assert(s.subrange(0, s.len() as int) =~= s);
}

/// The integer tests compare the numbers that their operands stand for; what is no number stands for
/// zero.
pub proof fn law_integer_tests(a: i64, b: i64, word: Seq<char>)
    ensures
        ({
            let l = dec_int(a as int);
            let r = dec_int(b as int);
            &&& int_test(l, "-eq"@, r) <==> a == b
            &&& int_test(l, "-ne"@, r) <==> a != b
            &&& int_test(l, "-lt"@, r) <==> a < b
            &&& int_test(l, "-le"@, r) <==> a <= b
            &&& int_test(l, "-gt"@, r) <==> a > b
            &&& int_test(l, "-ge"@, r) <==> a >= b
            &&& parse_signed(trimmed(word), i64::MIN as int, i64::MAX as int) is None ==> (int_test(
                word,
                "-lt"@,
                r,
            ) <==> 0 < b)
        }),
{
    law_integers_read_back(a as int, i64::MIN as int, i64::MAX as int);
    law_integers_read_back(b as int, i64::MIN as int, i64::MAX as int);
    lemma_decimal_is_trimmed(a as int);
    lemma_decimal_is_trimmed(b as int);
    assert(cond_int(dec_int(a as int)) == a);
    assert(cond_int(dec_int(b as int)) == b);
    reveal_strlit("-eq");
    reveal_strlit("-ne");
    reveal_strlit("-lt");
    reveal_strlit("-le");
    reveal_strlit("-gt");
    reveal_strlit("-ge");
    assert("-eq"@ =~= seq!['-', 'e', 'q']);
    assert("-ne"@ =~= seq!['-', 'n', 'e']);
    assert("-lt"@ =~= seq!['-', 'l', 't']);
    assert("-le"@ =~= seq!['-', 'l', 'e']);
    assert("-gt"@ =~= seq!['-', 'g', 't']);
    assert("-ge"@ =~= seq!['-', 'g', 'e']);
    assert("-eq"@[1] != "-ne"@[1] && "-eq"@[1] != "-lt"@[1] && "-eq"@[1] != "-gt"@[1]);
    assert("-ne"@[1] != "-lt"@[1] && "-ne"@[1] != "-gt"@[1] && "-lt"@[1] != "-gt"@[1]);
    assert("-lt"@[2] != "-le"@[2] && "-gt"@[2] != "-ge"@[2]);
}

/// The tests of a file: nothing holds of one that is not there; one that is there exists, can be
/// read, written and run, is a directory or a plain file but not both, and holds something or not.
/// Only the standard input is a terminal, and no file is a link, a pipe or a socket.
pub proof fn law_file_tests(
    files: Seq<(Seq<char>, (bool, nat))>,
    path: Seq<char>,
    flag: char,
)
    ensures
        flag != 't' && value_of(files, path) is None ==> !file_test(files, flag, path),
        file_test(files, 't', path) <==> path == "0"@,
        !file_test(files, 'L', path) && !file_test(files, 'h', path) && !file_test(
            files,
            'p',
            path,
        ) && !file_test(files, 'S', path),
        value_of(files, path) matches Some((is_dir, size)) ==> {
            &&& file_test(files, 'e', path)
            &&& file_test(files, 'r', path) && file_test(files, 'w', path) && file_test(
                files,
                'x',
                path,
            )
            &&& file_test(files, 'O', path) && file_test(files, 'G', path)
            &&& file_test(files, 'd', path) <==> is_dir
            &&& file_test(files, 'f', path) <==> !is_dir
            &&& file_test(files, 's', path) <==> size > 0
            &&& file_test(files, 'N', path) <==> size > 0
        },
{
}

/// A token that is neither an operator nor a test.
pub open spec fn is_operand(s: Seq<char>) -> bool {
    s != "!"@ && s != "("@ && s != ")"@ && s != "&&"@ && s != "||"@ && !is_binary_operator(s)
        && unary_flag(s) is None
}

spec fn words_in(tokens: Seq<Seq<char>>, c: CondContext) -> CondContext {
    CondContext { tokens, ..c }
}

proof fn lemma_signs()
    ensures
        "!"@ == seq!['!'],
        "("@ == seq!['('],
        ")"@ == seq![')'],
        "&&"@ == seq!['&', '&'],
        "||"@ == seq!['|', '|'],
        !is_binary_operator("&&"@),
        !is_binary_operator("||"@),
        !is_binary_operator(")"@),
        unary_flag("&&"@) is None,
        unary_flag("||"@) is None,
{
    reveal_strlit("!");
    reveal_strlit("(");
    reveal_strlit(")");
    reveal_strlit("&&");
    reveal_strlit("||");
    reveal_strlit("==");
    reveal_strlit("!=");
    reveal_strlit("=~");
    reveal_strlit("=");
    reveal_strlit("<");
    reveal_strlit(">");
    reveal_strlit("-eq");
    reveal_strlit("-ne");
    reveal_strlit("-lt");
    reveal_strlit("-le");
    reveal_strlit("-gt");
    reveal_strlit("-ge");
    reveal_strlit("-ef");
    reveal_strlit("-nt");
    reveal_strlit("-ot");
    assert("!"@ =~= seq!['!']);
    assert("("@ =~= seq!['(']);
    assert(")"@ =~= seq![')']);
    assert("&&"@ =~= seq!['&', '&']);
    assert("||"@ =~= seq!['|', '|']);
    assert("&&"@[0] == '&' && "||"@[0] == '|' && ")"@[0] == ')');
    assert("=="@[0] == '=' && "!="@[0] == '!' && "=~"@[0] == '=' && "="@[0] == '=');
    assert("<"@[0] == '<' && ">"@[0] == '>');
    assert("-eq"@[0] == '-' && "-ne"@[0] == '-' && "-lt"@[0] == '-' && "-le"@[0] == '-');
    assert("-gt"@[0] == '-' && "-ge"@[0] == '-' && "-ef"@[0] == '-' && "-nt"@[0] == '-');
    assert("-ot"@[0] == '-');
}

/// A word holds where it is not empty, and `!` turns that round. `&&` asks for both sides, `||` for
/// one, and `&&` binds closer.
pub proof fn law_words_and_connectives(
    c: CondContext,
    env: EnvView,
    x: Seq<char>,
    y: Seq<char>,
    z: Seq<char>,
)
    requires
        is_operand(x),
        is_operand(y),
        is_operand(z),
    ensures
        cond_or(CondContext { tokens: seq![x], ..c }, 0, env).value <==> x.len() > 0,
        cond_or(CondContext { tokens: seq!["!"@, x], ..c }, 0, env).value <==> x.len() == 0,
        cond_or(CondContext { tokens: seq![x, "&&"@, y], ..c }, 0, env).value <==> (x.len() > 0
            && y.len() > 0),
        cond_or(CondContext { tokens: seq![x, "||"@, y], ..c }, 0, env).value <==> (x.len() > 0
            || y.len() > 0),
        cond_or(CondContext { tokens: seq![x, "||"@, y, "&&"@, z], ..c }, 0, env).value <==> (
        x.len() > 0 || (y.len() > 0 && z.len() > 0)),
        cond_or(CondContext { tokens: seq![x, "&&"@, y, "||"@, z], ..c }, 0, env).value <==> ((
        x.len() > 0 && y.len() > 0) || z.len() > 0),
{
    lemma_signs();
    reveal_with_fuel(cond_not, 3);
    reveal_with_fuel(cond_and_from, 3);
    reveal_with_fuel(cond_or_from, 3);
    let a = words_in(seq![x], c);
    assert(cond_primary(a, 0, env) == (Cond { value: x.len() > 0, pos: 1, env, ok: true }));
    let a = words_in(seq!["!"@, x], c);
    assert(a.tokens[0] == "!"@ && a.tokens[1] == x);
    assert(cond_primary(a, 1, env) == (Cond { value: x.len() > 0, pos: 2, env, ok: true }));
    let a = words_in(seq![x, "&&"@, y], c);
    assert(a.tokens[0] == x && a.tokens[1] == "&&"@ && a.tokens[2] == y);
    assert(cond_primary(a, 0, env) == (Cond { value: x.len() > 0, pos: 1, env, ok: true }));
    assert(cond_primary(a, 2, env) == (Cond { value: y.len() > 0, pos: 3, env, ok: true }));
    let a = words_in(seq![x, "||"@, y], c);
    assert(a.tokens[0] == x && a.tokens[1] == "||"@ && a.tokens[2] == y);
    assert(cond_primary(a, 0, env) == (Cond { value: x.len() > 0, pos: 1, env, ok: true }));
    assert(cond_primary(a, 2, env) == (Cond { value: y.len() > 0, pos: 3, env, ok: true }));
    assert(cond_and(a, 2, env) == (Cond { value: y.len() > 0, pos: 3, env, ok: true }));
    let a = words_in(seq![x, "||"@, y, "&&"@, z], c);
    assert(a.tokens[0] == x && a.tokens[1] == "||"@ && a.tokens[2] == y && a.tokens[3] == "&&"@
        && a.tokens[4] == z);
    assert(cond_primary(a, 0, env) == (Cond { value: x.len() > 0, pos: 1, env, ok: true }));
    assert(cond_primary(a, 2, env) == (Cond { value: y.len() > 0, pos: 3, env, ok: true }));
    assert(cond_primary(a, 4, env) == (Cond { value: z.len() > 0, pos: 5, env, ok: true }));
    assert(cond_not(a, 2, env) == cond_primary(a, 2, env));
    assert(cond_not(a, 4, env) == cond_primary(a, 4, env));
    assert(cond_and(a, 2, env) == (Cond {
        value: y.len() > 0 && z.len() > 0,
        pos: 5,
        env,
        ok: true,
    }));
    let a = words_in(seq![x, "&&"@, y, "||"@, z], c);
    assert(a.tokens[0] == x && a.tokens[1] == "&&"@ && a.tokens[2] == y && a.tokens[3] == "||"@
        && a.tokens[4] == z);
    assert(cond_primary(a, 0, env) == (Cond { value: x.len() > 0, pos: 1, env, ok: true }));
    assert(cond_primary(a, 2, env) == (Cond { value: y.len() > 0, pos: 3, env, ok: true }));
    assert(cond_primary(a, 4, env) == (Cond { value: z.len() > 0, pos: 5, env, ok: true }));
    assert(cond_not(a, 0, env) == cond_primary(a, 0, env));
    assert(cond_not(a, 2, env) == cond_primary(a, 2, env));
    assert(cond_not(a, 4, env) == cond_primary(a, 4, env));
    assert(cond_and(a, 0, env) == (Cond {
        value: x.len() > 0 && y.len() > 0,
        pos: 3,
        env,
        ok: true,
    }));
    assert(cond_and(a, 4, env) == (Cond { value: z.len() > 0, pos: 5, env, ok: true }));
}

/// Parentheses bind what stands in them: the parts of `( x || y ) && z` are taken in that order.
pub proof fn law_parentheses(
    c: CondContext,
    env: EnvView,
    x: Seq<char>,
    y: Seq<char>,
    z: Seq<char>,
)
    requires
        is_operand(x),
        is_operand(y),
        is_operand(z),
    ensures
        cond_or(
            CondContext { tokens: seq!["("@, x, "||"@, y, ")"@, "&&"@, z], ..c },
            0,
            env,
        ).value <==> ((x.len() > 0 || y.len() > 0) && z.len() > 0),
{
    lemma_signs();
    reveal_with_fuel(cond_not, 2);
    reveal_with_fuel(cond_and_from, 3);
    reveal_with_fuel(cond_or_from, 3);
    let a = words_in(seq!["("@, x, "||"@, y, ")"@, "&&"@, z], c);
    assert(a.tokens[0] == "("@ && a.tokens[1] == x && a.tokens[2] == "||"@ && a.tokens[3] == y
        && a.tokens[4] == ")"@ && a.tokens[5] == "&&"@ && a.tokens[6] == z);
    assert(cond_primary(a, 1, env) == (Cond { value: x.len() > 0, pos: 2, env, ok: true }));
    assert(cond_primary(a, 3, env) == (Cond { value: y.len() > 0, pos: 4, env, ok: true }));
    assert(cond_primary(a, 6, env) == (Cond { value: z.len() > 0, pos: 7, env, ok: true }));
    assert(cond_not(a, 1, env) == cond_primary(a, 1, env));
    assert(cond_not(a, 3, env) == cond_primary(a, 3, env));
    assert(cond_not(a, 6, env) == cond_primary(a, 6, env));
    assert(cond_and(a, 1, env) == cond_primary(a, 1, env));
    assert(cond_and(a, 3, env) == cond_primary(a, 3, env));
    let inner = Cond { value: x.len() > 0 || y.len() > 0, pos: 4, env, ok: true };
    assert(cond_or_from(a, inner) == inner);
    assert(cond_or(a, 1, env) == inner);
    let group = Cond { value: x.len() > 0 || y.len() > 0, pos: 5, env, ok: true };
    assert(cond_primary(a, 0, env) == group);
    assert("("@[0] != "!"@[0]);
    assert(cond_not(a, 0, env) == group);
    let all = Cond {
        value: (x.len() > 0 || y.len() > 0) && z.len() > 0,
        pos: 7,
        env,
        ok: true,
    };
    assert(cond_and_from(a, all) == all);
    assert(cond_and(a, 0, env) == all);
}

/// `-z` holds of the empty word and `-n` of every other one; a file test gives what is known of the
/// file.
pub proof fn law_unary_tests(c: CondContext, env: EnvView, flag: char, word: Seq<char>)
    requires
        flag == 'z' || flag == 'n' || is_file_flag(flag),
    ensures
        cond_or(CondContext { tokens: seq![seq!['-', flag], word], ..c }, 0, env).value <==> (
        if flag == 'z' {
            word.len() == 0
        } else if flag == 'n' {
            word.len() > 0
        } else {
            file_test(c.files, flag, word)
        }),
{
    lemma_signs();
    let t = seq!['-', flag];
    assert(t[0] == '-' && t[1] == flag);
    assert(t.len() == 2 && "!"@.len() == 1 && "("@.len() == 1);
    let a = words_in(seq![t, word], c);
    assert(a.tokens[0] == t && a.tokens[1] == word);
    assert(unary_flag(t) == Some(flag));
    let all = Cond {
        value: if flag == 'z' {
            word.len() == 0
        } else if flag == 'n' {
            word.len() > 0
        } else {
            file_test(c.files, flag, word)
        },
        pos: 2,
        env,
        ok: true,
    };
    assert(cond_primary(a, 0, env) == all);
    assert(cond_not(a, 0, env) == all);
    assert(cond_and(a, 0, env) == all);
}

/// `!=` answers the opposite of `==`, for which `=` is another name; `>` is `<` with its sides changed;
/// `-ef` holds of equal paths; and a file is newer than one that is not there.
pub proof fn law_binary_tests(c: CondContext, env: EnvView, l: Seq<char>, r: Seq<char>)
    ensures
        binary_test(c, env, l, "!="@, r).0 == !binary_test(c, env, l, "=="@, r).0,
        binary_test(c, env, l, "="@, r).0 == binary_test(c, env, l, "=="@, r).0,
        binary_test(c, env, l, "<"@, r).0 == str_before(l, r),
        binary_test(c, env, l, ">"@, r).0 == binary_test(c, env, r, "<"@, l).0,
        binary_test(c, env, l, "-ef"@, r).0 <==> l == r,
        binary_test(c, env, l, "-nt"@, r).0 <==> value_of(c.files, l) is Some && value_of(
            c.files,
            r,
        ) is None,
        binary_test(c, env, l, "-ot"@, r).0 == binary_test(c, env, r, "-nt"@, l).0,
        binary_test(c, env, l, "=~"@, r).0 <==> regex_spans(l, r) is Some,
{
    reveal_strlit("==");
    reveal_strlit("!=");
    reveal_strlit("=~");
    reveal_strlit("=");
    reveal_strlit("<");
    reveal_strlit(">");
    reveal_strlit("-ef");
    reveal_strlit("-nt");
    reveal_strlit("-ot");
    assert("=="@[0] == '=' && "=="@[1] == '=' && "!="@[0] == '!' && "=~"@[1] == '~');
    assert("<"@[0] == '<' && ">"@[0] == '>' && "="@[0] == '=');
    assert("="@.len() == 1 && "=~"@.len() == 2 && "=~"@[0] == '=');
    assert("-ef"@[1] == 'e' && "-nt"@[1] == 'n' && "-ot"@[1] == 'o');
}

proof fn lemma_update_then_lookup(env: EnvView, name: Seq<char>, v: VarView, other: Seq<char>)
    requires
        lookup(env, name) is Some,
    ensures
        env_update(env, name, v).len() == env.len(),
        lookup(env_update(env, name, v), name) == Some(v),
        other != name ==> lookup(env_update(env, name, v), other) == lookup(env, other),
{
    let i = scope_of(env, name);
    let after = env_update(env, name, v);
    lemma_scope_of(env, name);
    lemma_put(env[i], name, v);
    assert(after[i] == crate::entries::put(env[i], name, v));
    assert(has_key(after[i], name));
    assert forall|j: int| i < j < after.len() implies !has_key(#[trigger] after[j], name) by {
        assert(after[j] == env[j]);
    }
    lemma_scope_of_is(after, name, i);
    if other != name {
        lemma_scope_of(env, other);
        let k = scope_of(env, other);
        assert(value_of(after[i], other) == value_of(env[i], other));
        assert(has_key(after[i], other) == has_key(env[i], other));
        assert forall|j: int| k < j < after.len() implies !has_key(#[trigger] after[j], other) by {
            assert(!has_key(env[j], other));
        }
        lemma_scope_of_is(after, other, k);
    }
}

proof fn lemma_captures(env: EnvView, caps: Seq<Seq<char>>, n: int, other: Seq<char>)
    requires
        env.len() > 0,
        !flags_of(lookup(env, "BASH_REMATCH"@)).readonly,
        0 <= n <= caps.len() <= usize::MAX,
        other != "BASH_REMATCH"@,
    ensures
        rematch_upto(env, caps, n).len() == env.len(),
        lookup(rematch_upto(env, caps, n), other) == lookup(env, other),
        lookup(rematch_upto(env, caps, n), "BASH_REMATCH"@) matches Some(v) && !v.readonly && (
        v.value matches ValueView::Indexed(e) && distinct_keys(e) && (forall|k: usize|
            #[trigger] value_of(e, k) == (if k < n {
                Some(caps[k as int])
            } else {
                None
            }))),
    decreases n,
{
    let name = "BASH_REMATCH"@;
    if n <= 0 {
        let f = flags_of(lookup(env, name));
        law_set_then_lookup(
            env,
            name,
            VarView {
                value: ValueView::Indexed(Seq::empty()),
                exported: f.exported,
                readonly: false,
                integer: false,
                nameref: false,
            },
        );
    } else {
        lemma_captures(env, caps, n - 1, other);
        let before = rematch_upto(env, caps, n - 1);
        let x = lookup(before, name)->0;
        law_dec_parses((n - 1) as nat, usize::MAX as nat);
        lemma_put(x.value->Indexed_0, (n - 1) as usize, caps[n - 1]);
        let v = VarView {
            value: ValueView::Indexed(
                crate::entries::put(x.value->Indexed_0, (n - 1) as usize, caps[n - 1]),
            ),
            ..x
        };
        lemma_update_then_lookup(before, name, v, other);
        assert(rematch_upto(env, caps, n) == env_update(before, name, v));
    }
}

/// After a match `BASH_REMATCH` holds under zero the text that matched, under the number of a group
/// what the group stands for, and nothing else; without one it is empty. The other variables stay.
pub proof fn law_captures_are_kept(
    env: EnvView,
    l: Seq<char>,
    r: Seq<char>,
    k: nat,
    other: Seq<char>,
)
    requires
        env.len() > 0,
        !flags_of(lookup(env, "BASH_REMATCH"@)).readonly,
        regex_spans(l, r) matches Some(spans) ==> spans.len() <= usize::MAX,
        k <= usize::MAX,
        other != "BASH_REMATCH"@,
    ensures
        ({
            let after = rematch_env(env, l, r);
            &&& lookup(after, other) == lookup(env, other)
            &&& lookup(after, "BASH_REMATCH"@) matches Some(v) && element_of(v.value, dec(k)) == (
            match regex_spans(l, r) {
                Some(spans) => if k < spans.len() {
                    Some(decode_utf8(encode_utf8(l).subrange(spans[k as int].0, spans[k as int].1)))
                } else {
                    None
                },
                None => None,
            })
        }),
{
    law_dec_parses(k, usize::MAX as nat);
    match regex_spans(l, r) {
        Some(spans) => {
            let caps = span_texts(l, spans);
            lemma_captures(env, caps, spans.len() as int, other);
            let v = lookup(rematch_env(env, l, r), "BASH_REMATCH"@)->0;
            assert(element_of(v.value, dec(k)) == value_of(v.value->Indexed_0, k as usize));
        },
        None => {
            lemma_captures(env, Seq::empty(), 0, other);
            let v = lookup(rematch_env(env, l, r), "BASH_REMATCH"@)->0;
            assert(element_of(v.value, dec(k)) == value_of(v.value->Indexed_0, k as usize));
        },
    }
}

/// A plain word on the right is compared letter by letter, or where letter case is ignored in lower
/// case; `nocasematch` decides which.
pub proof fn law_words_are_compared(c: CondContext, env: EnvView, l: Seq<char>, r: Seq<char>)
    ensures
        named_value(env, c.positional, "SHOPT_nocasematch"@) != Some("1"@) && plain_text(r) ==> (
        binary_test(c, env, l, "=="@, r).0 <==> l == r),
        named_value(env, c.positional, "SHOPT_nocasematch"@) == Some("1"@) && plain_text(
            lowercased(r),
        ) ==> (binary_test(c, env, l, "=="@, r).0 <==> lowercased(l) == lowercased(r)),
{
    if plain_text(r) {
        law_plain_pattern_matches_itself(encode_utf8(r), encode_utf8(l));
        if encode_utf8(l) == encode_utf8(r) {
            lemma_utf8_injective(l, r);
        }
    }
    let a = lowercased(l);
    let b = lowercased(r);
    if plain_text(b) {
        law_plain_pattern_matches_itself(encode_utf8(b), encode_utf8(a));
        if encode_utf8(a) == encode_utf8(b) {
            lemma_utf8_injective(a, b);
        }
    }
}

/// Whether a text holds no sign of a pattern.
pub open spec fn plain_text(s: Seq<char>) -> bool {
    let b = encode_utf8(s);
    !b.contains(0x2a) && !b.contains(0x3f) && !b.contains(0x5b)
}

/// A regular expression goes up to the next `&&` or `||`, its tokens put together; every other operator
/// has one token on its right.
pub proof fn law_right_operands(
    before: Seq<Seq<char>>,
    words: Seq<Seq<char>>,
    rest: Seq<Seq<char>>,
    op: Seq<char>,
)
    requires
        words.len() > 0,
        forall|i: int|
            0 <= i < words.len() ==> #[trigger] words[i] != "&&"@ && words[i] != "||"@,
        rest.len() > 0 ==> rest[0] == "&&"@ || rest[0] == "||"@,
    ensures
        right_operand(before + words + rest, before.len() as int, "=~"@) == (
            words.flatten(),
            (before.len() + words.len()) as int,
        ),
        op != "=~"@ ==> right_operand(before + words + rest, before.len() as int, op) == (
            words[0],
            before.len() as int + 1,
        ),
{
    let all = before + words + rest;
    assert(all[before.len() as int] == words[0]);
    lemma_regex_operand(before, words, rest);
}

proof fn lemma_regex_operand(before: Seq<Seq<char>>, words: Seq<Seq<char>>, rest: Seq<Seq<char>>)
    requires
        forall|i: int|
            0 <= i < words.len() ==> #[trigger] words[i] != "&&"@ && words[i] != "||"@,
        rest.len() > 0 ==> rest[0] == "&&"@ || rest[0] == "||"@,
    ensures
        regex_operand(before + words + rest, before.len() as int) == (
            words.flatten(),
            (before.len() + words.len()) as int,
        ),
    decreases words.len(),
{
    let all = before + words + rest;
    let k = before.len() as int;
    if words.len() == 0 {
        if rest.len() > 0 {
            assert(all[k] == rest[0]);
        }
    } else {
        let b = before.push(words[0]);
        let w = words.drop_first();
        assert forall|i: int| 0 <= i < w.len() implies #[trigger] w[i] != "&&"@ && w[i]
            != "||"@ by {
            assert(w[i] == words[i + 1]);
        }
        lemma_regex_operand(b, w, rest);
        assert(b + w + rest =~= all);
        assert(all[k] == words[0]);
    }
}

} // verus!
