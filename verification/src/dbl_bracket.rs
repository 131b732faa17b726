//! Conditional expressions: `[[ .. ]]`.
use crate::entries::value_of;
use crate::order::{str_before, str_less};
use crate::pattern::glob::{glob_match_inner, glob_matches};
use crate::pattern::regex::{captured, regex_keeps_chars, regex_match_with_captures};
use crate::pattern::regex_spec::{regex_spans, spans_keep_chars};
use crate::state::{
    element_set_env, init_array_env, named_value, same_but_env, ShellState,
};
use crate::text::{
    chars_of, char_code, dec, lowercased, parse_i64, parse_signed, str_eq, to_lowercase, trim,
    trimmed, u64_to_dec,
};
use crate::vars::{EnvView, ValueView};
use crate::views::strs;
use vstd::prelude::*;
use vstd::utf8::{decode_utf8, encode_utf8, encode_utf8_decode_utf8};

verus! {

/// What is known of a file.
#[derive(Debug)]
pub struct FileStat {
    pub path: String,
    pub is_dir: bool,
    pub size: u64,
}

/// What is known of files, by path.
pub open spec fn stats_of(files: Seq<FileStat>) -> Seq<(Seq<char>, (bool, nat))> {
    files.map_values(|f: FileStat| (f.path@, (f.is_dir, f.size as nat)))
}

/// What an expression is evaluated in: its tokens, the files that exist and the positional
/// parameters.
pub struct CondContext {
    pub tokens: Seq<Seq<char>>,
    pub files: Seq<(Seq<char>, (bool, nat))>,
    pub positional: Seq<Seq<char>>,
}

/// What came of evaluating a part of an expression: its value, the position past it, the
/// variables, and whether every regular expression on the way left characters whole.
pub struct Cond {
    pub value: bool,
    pub pos: int,
    pub env: EnvView,
    pub ok: bool,
}

/// The letter of a unary test: a `-` and one ASCII character.
pub open spec fn unary_flag(s: Seq<char>) -> Option<char> {
    if s.len() == 2 && s[0] == '-' && (s[1] as int) < 0x80 {
        Some(s[1])
    } else {
        None
    }
}

/// Whether a letter stands for a test of a file.
pub open spec fn is_file_flag(f: char) -> bool {
    f == 'f' || f == 'd' || f == 'e' || f == 's' || f == 'r' || f == 'w' || f == 'x' || f == 'L'
        || f == 'h' || f == 'p' || f == 'S' || f == 't' || f == 'N' || f == 'O' || f == 'G'
}

/// Whether a token is a binary operator.
pub open spec fn is_binary_operator(s: Seq<char>) -> bool {
    s == "=="@ || s == "!="@ || s == "=~"@ || s == "="@ || s == "<"@ || s == ">"@ || s == "-eq"@
        || s == "-ne"@ || s == "-lt"@ || s == "-le"@ || s == "-gt"@ || s == "-ge"@ || s == "-ef"@
        || s == "-nt"@ || s == "-ot"@
}

/// The answer of a file test. Every file that exists can be read, written, run and is owned;
/// the standard input is a terminal.
pub open spec fn file_test(
    files: Seq<(Seq<char>, (bool, nat))>,
    flag: char,
    path: Seq<char>,
) -> bool {
    if flag == 't' {
        path == "0"@
    } else {
        match value_of(files, path) {
            Some((is_dir, size)) => if flag == 'f' {
                !is_dir
            } else if flag == 'd' {
                is_dir
            } else if flag == 's' || flag == 'N' {
                size > 0
            } else {
                flag == 'e' || flag == 'r' || flag == 'w' || flag == 'x' || flag == 'O' || flag
                    == 'G'
            },
            None => false,
        }
    }
}

/// Whether letter case is ignored in comparisons.
pub open spec fn nocase_on(env: EnvView, positional: Seq<Seq<char>>) -> bool {
    named_value(env, positional, "SHOPT_nocasematch"@) == Some("1"@)
}

/// Whether `lhs` matches the glob `rhs`.
pub open spec fn cond_glob(lhs: Seq<char>, rhs: Seq<char>, nocase: bool) -> bool {
    if nocase {
        glob_matches(encode_utf8(lowercased(rhs)), encode_utf8(lowercased(lhs)))
    } else {
        glob_matches(encode_utf8(rhs), encode_utf8(lhs))
    }
}

/// The integer that an operand stands for: zero where it is none.
pub open spec fn cond_int(s: Seq<char>) -> int {
    match parse_signed(trimmed(s), i64::MIN as int, i64::MAX as int) {
        Some(n) => n,
        None => 0,
    }
}

/// The answer of an integer comparison.
pub open spec fn int_test(lhs: Seq<char>, op: Seq<char>, rhs: Seq<char>) -> bool {
    let a = cond_int(lhs);
    let b = cond_int(rhs);
    if op == "-eq"@ {
        a == b
    } else if op == "-ne"@ {
        a != b
    } else if op == "-lt"@ {
        a < b
    } else if op == "-le"@ {
        a <= b
    } else if op == "-gt"@ {
        a > b
    } else if op == "-ge"@ {
        a >= b
    } else {
        false
    }
}

/// The parts of a text at byte spans.
pub open spec fn span_texts(text: Seq<char>, spans: Seq<(int, int)>) -> Seq<Seq<char>> {
    spans.map_values(|s: (int, int)| decode_utf8(encode_utf8(text).subrange(s.0, s.1)))
}

/// The variables after the first `n` captures went into `BASH_REMATCH`.
pub open spec fn rematch_upto(env: EnvView, caps: Seq<Seq<char>>, n: int) -> EnvView
    decreases n,
{
    if n <= 0 {
        init_array_env(env, "BASH_REMATCH"@, ValueView::Indexed(Seq::empty()))
    } else {
        element_set_env(
            rematch_upto(env, caps, n - 1),
            "BASH_REMATCH"@,
            dec((n - 1) as nat),
            caps[n - 1],
        )
    }
}

/// The variables after a regular expression was tried: `BASH_REMATCH` holds the captures, or
/// nothing where it did not match.
pub open spec fn rematch_env(env: EnvView, lhs: Seq<char>, rhs: Seq<char>) -> EnvView {
    match regex_spans(lhs, rhs) {
        Some(spans) => rematch_upto(env, span_texts(lhs, spans), spans.len() as int),
        None => rematch_upto(env, Seq::empty(), 0),
    }
}

/// The tokens from `i` on up to the next `&&` or `||`, as one string, and where that stands.
pub open spec fn regex_operand(tokens: Seq<Seq<char>>, i: int) -> (Seq<char>, int)
    decreases tokens.len() - i,
{
    if 0 <= i < tokens.len() && tokens[i] != "&&"@ && tokens[i] != "||"@ {
        let (rest, e) = regex_operand(tokens, i + 1);
        (tokens[i] + rest, e)
    } else {
        (Seq::empty(), i)
    }
}

/// The right operand of `op`, and the position past it.
pub open spec fn right_operand(tokens: Seq<Seq<char>>, i: int, op: Seq<char>) -> (Seq<char>, int) {
    if i >= tokens.len() {
        (Seq::empty(), i)
    } else if op == "=~"@ {
        regex_operand(tokens, i)
    } else {
        (tokens[i], i + 1)
    }
}

/// The answer of a binary test, the variables after it, and whether a regular expression left
/// characters whole.
pub open spec fn binary_test(
    c: CondContext,
    env: EnvView,
    lhs: Seq<char>,
    op: Seq<char>,
    rhs: Seq<char>,
) -> (bool, EnvView, bool) {
    if op == "=="@ || op == "="@ {
        (cond_glob(lhs, rhs, nocase_on(env, c.positional)), env, true)
    } else if op == "!="@ {
        (!cond_glob(lhs, rhs, nocase_on(env, c.positional)), env, true)
    } else if op == "=~"@ {
        (regex_spans(lhs, rhs) is Some, rematch_env(env, lhs, rhs), spans_keep_chars(lhs, rhs))
    } else if op == "<"@ {
        (str_before(lhs, rhs), env, true)
    } else if op == ">"@ {
        (str_before(rhs, lhs), env, true)
    } else if op == "-ef"@ {
        (lhs == rhs, env, true)
    } else if op == "-nt"@ {
        (file_test(c.files, 'e', lhs) && !file_test(c.files, 'e', rhs), env, true)
    } else if op == "-ot"@ {
        (!file_test(c.files, 'e', lhs) && file_test(c.files, 'e', rhs), env, true)
    } else {
        (int_test(lhs, op, rhs), env, true)
    }
}

/// Whether a unary test stands at `pos`: a known letter with an operand, which for a file test
/// is not the left operand of a binary one.
pub open spec fn unary_at(c: CondContext, pos: int) -> bool {
    pos + 1 < c.tokens.len() && match unary_flag(c.tokens[pos]) {
        Some(f) => f == 'z' || f == 'n' || (is_file_flag(f) && !(pos + 2 < c.tokens.len()
            && is_binary_operator(c.tokens[pos + 2]))),
        None => false,
    }
}

/// The answer of the unary test at `pos`.
pub open spec fn unary_test(c: CondContext, pos: int) -> bool {
    let f = unary_flag(c.tokens[pos])->0;
    let arg = c.tokens[pos + 1];
    if f == 'z' {
        arg.len() == 0
    } else if f == 'n' {
        arg.len() > 0
    } else {
        file_test(c.files, f, arg)
    }
}

/// Parts joined by `||`, all of them evaluated.
pub open spec fn cond_or(c: CondContext, pos: int, env: EnvView) -> Cond
    decreases c.tokens.len() - pos, 6nat,
{
    let r = cond_and(c, pos, env);
    if r.pos < pos || r.pos > c.tokens.len() {
        r
    } else {
        cond_or_from(c, r)
    }
}

/// What follows a part of an `||` expression.
pub open spec fn cond_or_from(c: CondContext, acc: Cond) -> Cond
    decreases c.tokens.len() - acc.pos, 5nat,
{
    if 0 <= acc.pos < c.tokens.len() && c.tokens[acc.pos] == "||"@ {
        let r = cond_and(c, acc.pos + 1, acc.env);
        let next = Cond {
            value: acc.value || r.value,
            pos: r.pos,
            env: r.env,
            ok: acc.ok && r.ok,
        };
        if r.pos <= acc.pos || r.pos > c.tokens.len() {
            next
        } else {
            cond_or_from(c, next)
        }
    } else {
        acc
    }
}

/// Parts joined by `&&`, all of them evaluated.
pub open spec fn cond_and(c: CondContext, pos: int, env: EnvView) -> Cond
    decreases c.tokens.len() - pos, 4nat,
{
    let r = cond_not(c, pos, env);
    if r.pos < pos || r.pos > c.tokens.len() {
        r
    } else {
        cond_and_from(c, r)
    }
}

/// What follows a part of an `&&` expression.
pub open spec fn cond_and_from(c: CondContext, acc: Cond) -> Cond
    decreases c.tokens.len() - acc.pos, 3nat,
{
    if 0 <= acc.pos < c.tokens.len() && c.tokens[acc.pos] == "&&"@ {
        let r = cond_not(c, acc.pos + 1, acc.env);
        let next = Cond {
            value: acc.value && r.value,
            pos: r.pos,
            env: r.env,
            ok: acc.ok && r.ok,
        };
        if r.pos <= acc.pos || r.pos > c.tokens.len() {
            next
        } else {
            cond_and_from(c, next)
        }
    } else {
        acc
    }
}

/// A part that may be negated.
pub open spec fn cond_not(c: CondContext, pos: int, env: EnvView) -> Cond
    decreases c.tokens.len() - pos, 2nat,
{
    if 0 <= pos < c.tokens.len() && c.tokens[pos] == "!"@ {
        let r = cond_not(c, pos + 1, env);
        Cond { value: !r.value, ..r }
    } else {
        cond_primary(c, pos, env)
    }
}

/// A group in parentheses, a unary test, a binary test, or a string, which is true unless it
/// is empty.
pub open spec fn cond_primary(c: CondContext, pos: int, env: EnvView) -> Cond
    decreases c.tokens.len() - pos, 1nat,
{
    let n = c.tokens.len();
    if pos < 0 || pos >= n {
        Cond { value: false, pos, env, ok: true }
    } else if c.tokens[pos] == "("@ {
        let r = cond_or(c, pos + 1, env);
        Cond {
            pos: if 0 <= r.pos < n && c.tokens[r.pos] == ")"@ {
                r.pos + 1
            } else {
                r.pos
            },
            ..r
        }
    } else if unary_at(c, pos) {
        Cond { value: unary_test(c, pos), pos: pos + 2, env, ok: true }
    } else if pos + 1 < n && is_binary_operator(c.tokens[pos + 1]) {
        let (rhs, e) = right_operand(c.tokens, pos + 2, c.tokens[pos + 1]);
        let (value, after, ok) = binary_test(c, env, c.tokens[pos], c.tokens[pos + 1], rhs);
        Cond { value, pos: e, env: after, ok }
    } else {
        Cond { value: c.tokens[pos].len() > 0, pos: pos + 1, env, ok: true }
    }
}

proof fn lemma_or_ok(c: CondContext, acc: Cond)
    ensures
        cond_or_from(c, acc).ok ==> acc.ok,
    decreases c.tokens.len() - acc.pos,
{
    if 0 <= acc.pos < c.tokens.len() && c.tokens[acc.pos] == "||"@ {
        let r = cond_and(c, acc.pos + 1, acc.env);
        if acc.pos < r.pos <= c.tokens.len() {
            lemma_or_ok(
                c,
                Cond {
                    value: acc.value || r.value,
                    pos: r.pos,
                    env: r.env,
                    ok: acc.ok && r.ok,
                },
            );
        }
    }
}

proof fn lemma_and_ok(c: CondContext, acc: Cond)
    ensures
        cond_and_from(c, acc).ok ==> acc.ok,
    decreases c.tokens.len() - acc.pos,
{
    if 0 <= acc.pos < c.tokens.len() && c.tokens[acc.pos] == "&&"@ {
        let r = cond_not(c, acc.pos + 1, acc.env);
        if acc.pos < r.pos <= c.tokens.len() {
            lemma_and_ok(
                c,
                Cond {
                    value: acc.value && r.value,
                    pos: r.pos,
                    env: r.env,
                    ok: acc.ok && r.ok,
                },
            );
        }
    }
}

/// The tokens of an expression with what is known of the files that it may ask for.
pub struct CondInput<'a> {
    pub tokens: &'a [String],
    pub files: &'a [FileStat],
}

/// The context of an evaluation in a shell.
pub open spec fn context_of(tokens: Seq<String>, files: Seq<FileStat>, st: ShellState) -> CondContext {
    CondContext {
        tokens: strs(tokens),
        files: stats_of(files),
        positional: strs(st.positional@),
    }
}

impl<'a> CondInput<'a> {
    spec fn context(&self, st: ShellState) -> CondContext {
        context_of(self.tokens@, self.files@, st)
    }

    fn token_is(&self, i: usize, s: &str) -> (r: bool)
        requires
            i <= self.tokens@.len(),
        ensures
            r == (i < self.tokens@.len() && strs(self.tokens@)[i as int] == s@),
    {
        i < self.tokens.len() && str_eq(self.tokens[i].as_str(), s)
    }

    fn eval_or(&self, pos: usize, state: &mut ShellState) -> (r: Option<(bool, usize)>)
        requires
            pos <= self.tokens@.len(),
        ensures
            ({
                let c = cond_or(self.context(*old(state)), pos as int, old(state).env@);
                match r {
                    Some(v) => c.ok && v.0 == c.value && v.1 == c.pos && final(state).env@ == c.env
                        && pos <= v.1 <= self.tokens@.len() && (pos < self.tokens@.len() ==> pos
                        < v.1),
                    None => !c.ok,
                }
            }),
            same_but_env(*final(state), *old(state)),
        decreases self.tokens@.len() - pos, 6nat,
    {
        let ghost c = self.context(*state);
        let ghost env0 = state.env@;
        let ghost all = cond_or(c, pos as int, env0);
        proof {
            lemma_or_ok(c, cond_and(c, pos as int, env0));
        }
        let (first, after): (bool, usize) = match self.eval_and(pos, state) {
            Some(v) => v,
            None => {
                return None;
            },
        };
        let mut result: bool = first;
        let mut at: usize = after;
        let ghost mut acc = cond_and(c, pos as int, env0);
        while self.token_is(at, "||")
            invariant
                pos <= at <= self.tokens@.len(),
                pos < self.tokens@.len() ==> pos < at,
                c == self.context(*old(state)),
                same_but_env(*state, *old(state)),
                acc.value == result,
                acc.pos == at,
                acc.env == state.env@,
                acc.ok,
                all == cond_or_from(c, acc),
                all == cond_or(self.context(*old(state)), pos as int, old(state).env@),
            decreases self.tokens@.len() - at,
        {
            let ghost r = cond_and(c, at + 1, state.env@);
            let ghost next = Cond {
                value: acc.value || r.value,
                pos: r.pos,
                env: r.env,
                ok: acc.ok && r.ok,
            };
            assert(at < self.tokens.len());
            assert(c == self.context(*state));
            proof {
                lemma_or_ok(c, next);
            }
            let (rhs, end): (bool, usize) = match self.eval_and(at + 1, state) {
                Some(v) => v,
                None => {
                    return None;
                },
            };
            result = result || rhs;
            at = end;
            proof {
                acc = next;
            }
        }
        Some((result, at))
    }

    fn eval_and(&self, pos: usize, state: &mut ShellState) -> (r: Option<(bool, usize)>)
        requires
            pos <= self.tokens@.len(),
        ensures
            ({
                let c = cond_and(self.context(*old(state)), pos as int, old(state).env@);
                match r {
                    Some(v) => c.ok && v.0 == c.value && v.1 == c.pos && final(state).env@ == c.env
                        && pos <= v.1 <= self.tokens@.len() && (pos < self.tokens@.len() ==> pos
                        < v.1),
                    None => !c.ok,
                }
            }),
            same_but_env(*final(state), *old(state)),
        decreases self.tokens@.len() - pos, 4nat,
    {
        let ghost c = self.context(*state);
        let ghost env0 = state.env@;
        let ghost all = cond_and(c, pos as int, env0);
        proof {
            lemma_and_ok(c, cond_not(c, pos as int, env0));
        }
        let (first, after): (bool, usize) = match self.eval_not(pos, state) {
            Some(v) => v,
            None => {
                return None;
            },
        };
        let mut result: bool = first;
        let mut at: usize = after;
        let ghost mut acc = cond_not(c, pos as int, env0);
        while self.token_is(at, "&&")
            invariant
                pos <= at <= self.tokens@.len(),
                pos < self.tokens@.len() ==> pos < at,
                c == self.context(*old(state)),
                same_but_env(*state, *old(state)),
                acc.value == result,
                acc.pos == at,
                acc.env == state.env@,
                acc.ok,
                all == cond_and_from(c, acc),
                all == cond_and(self.context(*old(state)), pos as int, old(state).env@),
            decreases self.tokens@.len() - at,
        {
            let ghost r = cond_not(c, at + 1, state.env@);
            let ghost next = Cond {
                value: acc.value && r.value,
                pos: r.pos,
                env: r.env,
                ok: acc.ok && r.ok,
            };
            assert(at < self.tokens.len());
            assert(c == self.context(*state));
            proof {
                lemma_and_ok(c, next);
            }
            let (rhs, end): (bool, usize) = match self.eval_not(at + 1, state) {
                Some(v) => v,
                None => {
                    return None;
                },
            };
            result = result && rhs;
            at = end;
            proof {
                acc = next;
            }
        }
        Some((result, at))
    }

    fn eval_not(&self, pos: usize, state: &mut ShellState) -> (r: Option<(bool, usize)>)
        requires
            pos <= self.tokens@.len(),
        ensures
            ({
                let c = cond_not(self.context(*old(state)), pos as int, old(state).env@);
                match r {
                    Some(v) => c.ok && v.0 == c.value && v.1 == c.pos && final(state).env@ == c.env
                        && pos <= v.1 <= self.tokens@.len() && (pos < self.tokens@.len() ==> pos
                        < v.1),
                    None => !c.ok,
                }
            }),
            same_but_env(*final(state), *old(state)),
        decreases self.tokens@.len() - pos, 2nat,
    {
        assert(self.tokens.len() == self.tokens@.len());
        if self.token_is(pos, "!") {
            return match self.eval_not(pos + 1, state) {
                Some((value, end)) => Some((!value, end)),
                None => None,
            };
        }
        self.eval_primary(pos, state)
    }

    fn eval_primary(&self, pos: usize, state: &mut ShellState) -> (r: Option<(bool, usize)>)
        requires
            pos <= self.tokens@.len(),
        ensures
            ({
                let c = cond_primary(self.context(*old(state)), pos as int, old(state).env@);
                match r {
                    Some(v) => c.ok && v.0 == c.value && v.1 == c.pos && final(state).env@ == c.env
                        && pos <= v.1 <= self.tokens@.len() && (pos < self.tokens@.len() ==> pos
                        < v.1),
                    None => !c.ok,
                }
            }),
            same_but_env(*final(state), *old(state)),
        decreases self.tokens@.len() - pos, 1nat,
    {
        let ghost c = self.context(*state);
        let n: usize = self.tokens.len();
        if pos >= n {
            return Some((false, pos));
        }
        if self.token_is(pos, "(") {
            let (value, end): (bool, usize) = match self.eval_or(pos + 1, state) {
                Some(v) => v,
                None => {
                    return None;
                },
            };
            if self.token_is(end, ")") {
                assert(end < n);
                return Some((value, end + 1));
            }
            return Some((value, end));
        }
        if n - pos > 1 {
            if let Some(value) = self.try_unary(pos, Ghost(c)) {
                return Some((value, pos + 2));
            }
            assert(!unary_at(c, pos as int));
            let op = self.tokens[pos + 1].as_str();
            assert(c.tokens[pos + 1] == op@);
            assert(c.tokens[pos as int] == self.tokens@[pos as int]@);
            if is_binary_op(op) {
                let (rhs, end) = self.collect_rhs(pos + 2, op);
                if str_eq(op, "=~") && !regex_keeps_chars(self.tokens[pos].as_str(), rhs.as_str()) {
                    proof {
                        reveal_strlit("=~");
                        reveal_strlit("==");
                        reveal_strlit("=");
                        reveal_strlit("!=");
                        assert("=~"@[1] != "=="@[1] && "=~"@[0] != "!="@[0]);
                        assert("=~"@.len() != "="@.len());
                    }
                    return None;
                }
                let value: bool = eval_binary_op(
                    self.tokens[pos].as_str(),
                    op,
                    rhs.as_str(),
                    self.files,
                    state,
                    Ghost(c),
                );
                return Some((value, end));
            }
        }
        assert(c.tokens[pos as int] == self.tokens@[pos as int]@);
        Some((!self.tokens[pos].as_str().is_empty(), pos + 1))
    }

    fn try_unary(&self, pos: usize, Ghost(c): Ghost<CondContext>) -> (r: Option<bool>)
        requires
            pos + 1 < self.tokens@.len(),
            c.tokens == strs(self.tokens@),
            c.files == stats_of(self.files@),
        ensures
            match r {
                Some(v) => unary_at(c, pos as int) && v == unary_test(c, pos as int),
                None => !unary_at(c, pos as int),
            },
    {
        assert(self.tokens.len() == self.tokens@.len());
        let op = self.tokens[pos].as_str();
        let arg = self.tokens[pos + 1].as_str();
        assert(c.tokens[pos as int] == op@);
        assert(c.tokens[pos + 1] == arg@);
        match dbl_bracket_parse_unary_flag(op) {
            None => None,
            Some(f) => {
                if f == 'z' {
                    Some(arg.is_empty())
                } else if f == 'n' {
                    Some(!arg.is_empty())
                } else if f == 'f' || f == 'd' || f == 'e' || f == 's' || f == 'r' || f == 'w' || f
                    == 'x' || f == 'L' || f == 'h' || f == 'p' || f == 'S' || f == 't' || f == 'N'
                    || f == 'O' || f == 'G' {
                    if self.tokens.len() - pos > 2 {
                        assert(c.tokens[pos + 2] == self.tokens@[pos + 2]@);
                        if is_binary_op(self.tokens[pos + 2].as_str()) {
                            return None;
                        }
                    }
                    Some(eval_file_test(f, arg, self.files))
                } else {
                    None
                }
            },
        }
    }

    fn collect_rhs(&self, start: usize, op: &str) -> (r: (String, usize))
        requires
            start <= self.tokens@.len(),
        ensures
            (r.0@, r.1 as int) == right_operand(strs(self.tokens@), start as int, op@),
            start <= r.1 <= self.tokens@.len(),
    {
        let ghost t = strs(self.tokens@);
        if start >= self.tokens.len() {
            let none = String::new();
            assert(none@ =~= Seq::empty());
            return (none, start);
        }
        if str_eq(op, "=~") {
            let mut rhs = String::new();
            let mut i: usize = start;
            assert(rhs@ + regex_operand(t, start as int).0 =~= regex_operand(t, start as int).0);
            while i < self.tokens.len() && !str_eq(self.tokens[i].as_str(), "&&") && !str_eq(
                self.tokens[i].as_str(),
                "||",
            )
                invariant
                    start <= i <= self.tokens@.len(),
                    t == strs(self.tokens@),
                    rhs@ + regex_operand(t, i as int).0 == regex_operand(t, start as int).0,
                    regex_operand(t, i as int).1 == regex_operand(t, start as int).1,
                decreases self.tokens@.len() - i,
            {
                assert(t[i as int] == self.tokens@[i as int]@);
                let ghost before = rhs@;
                rhs.append(self.tokens[i].as_str());
                assert(rhs@ + regex_operand(t, i + 1).0 =~= before + regex_operand(t, i as int).0);
                i = i + 1;
            }
            proof {
                if i < t.len() {
                    assert(t[i as int] == self.tokens@[i as int]@);
                }
                assert(regex_operand(t, i as int).0 =~= Seq::empty());
                assert(rhs@ + Seq::<char>::empty() =~= rhs@);
            }
            return (rhs, i);
        }
        assert(t[start as int] == self.tokens@[start as int]@);
        (self.tokens[start].clone(), start + 1)
    }
}

/// The letter of a unary test.
pub fn dbl_bracket_parse_unary_flag(op: &str) -> (r: Option<char>)
    ensures
        r == unary_flag(op@),
{
    let chars = chars_of(op);
    if chars.len() == 2 && chars[0] == '-' && char_code(chars[1]) < 0x80 {
        Some(chars[1])
    } else {
        None
    }
}

/// Whether a token is a binary operator.
pub fn is_binary_op(s: &str) -> (r: bool)
    ensures
        r == is_binary_operator(s@),
{
    str_eq(s, "==") || str_eq(s, "!=") || str_eq(s, "=~") || str_eq(s, "=") || str_eq(s, "<")
        || str_eq(s, ">") || str_eq(s, "-eq") || str_eq(s, "-ne") || str_eq(s, "-lt") || str_eq(
        s,
        "-le",
    ) || str_eq(s, "-gt") || str_eq(s, "-ge") || str_eq(s, "-ef") || str_eq(s, "-nt") || str_eq(
        s,
        "-ot",
    )
}

/// The answer of a file test.
pub fn eval_file_test(flag: char, path: &str, files: &[FileStat]) -> (r: bool)
    ensures
        r == file_test(stats_of(files@), flag, path@),
{
    let ghost all = stats_of(files@);
    if flag == 't' {
        return str_eq(path, "0");
    }
    let mut i: usize = 0;
    while i < files.len()
        invariant
            i <= files@.len(),
            all == stats_of(files@),
            flag != 't',
            forall|k: int| 0 <= k < i ==> (#[trigger] all[k]).0 != path@,
        decreases files@.len() - i,
    {
        let f = &files[i];
        assert(all[i as int] == (f.path@, (f.is_dir, f.size as nat)));
        if str_eq(f.path.as_str(), path) {
            proof {
                crate::entries::lemma_key_index_is(all, path@, i as int);
            }
            return if flag == 'f' {
                !f.is_dir
            } else if flag == 'd' {
                f.is_dir
            } else if flag == 's' || flag == 'N' {
                f.size > 0
            } else {
                flag == 'e' || flag == 'r' || flag == 'w' || flag == 'x' || flag == 'O' || flag
                    == 'G'
            };
        }
        i = i + 1;
    }
    proof {
        crate::entries::lemma_key_index_is(all, path@, all.len() as int);
    }
    false
}

fn read_int(s: &str) -> (r: i64)
    ensures
        r == cond_int(s@),
{
    match parse_i64(trim(s).as_str(), i64::MIN, i64::MAX) {
        Some(n) => n,
        None => 0,
    }
}

/// The answer of an integer comparison.
pub fn eval_int_compare(lhs: &str, op: &str, rhs: &str) -> (r: bool)
    ensures
        r == int_test(lhs@, op@, rhs@),
{
    let a: i64 = read_int(lhs);
    let b: i64 = read_int(rhs);
    if str_eq(op, "-eq") {
        a == b
    } else if str_eq(op, "-ne") {
        a != b
    } else if str_eq(op, "-lt") {
        a < b
    } else if str_eq(op, "-le") {
        a <= b
    } else if str_eq(op, "-gt") {
        a > b
    } else if str_eq(op, "-ge") {
        a >= b
    } else {
        false
    }
}

/// Whether `lhs` matches the glob `rhs`, without regard to case where the shell says so.
pub fn glob_compare(lhs: &str, rhs: &str, state: &ShellState) -> (r: bool)
    ensures
        r == cond_glob(lhs@, rhs@, nocase_on(state.env@, strs(state.positional@))),
{
    let nocase: bool = match state.get_named("SHOPT_nocasematch") {
        Some(v) => str_eq(v.as_str(), "1"),
        None => false,
    };
    if nocase {
        let l = to_lowercase(lhs);
        let r = to_lowercase(rhs);
        glob_match_inner(r.as_str().as_bytes(), l.as_str().as_bytes())
    } else {
        glob_match_inner(rhs.as_bytes(), lhs.as_bytes())
    }
}

/// Tries a regular expression and puts its captures into `BASH_REMATCH`.
pub fn eval_regex_match(lhs: &str, rhs: &str, state: &mut ShellState) -> (r: bool)
    requires
        spans_keep_chars(lhs@, rhs@),
    ensures
        r == (regex_spans(lhs@, rhs@) is Some),
        final(state).env@ == rematch_env(old(state).env@, lhs@, rhs@),
        same_but_env(*final(state), *old(state)),
{
    let ghost env0 = state.env@;
    state.init_indexed_array("BASH_REMATCH".to_owned());
    match regex_match_with_captures(lhs, rhs) {
        None => false,
        Some(caps) => {
            let ghost spans = regex_spans(lhs@, rhs@)->0;
            let ghost texts = span_texts(lhs@, spans);
            let mut i: usize = 0;
            while i < caps.len()
                invariant
                    i <= caps@.len(),
                    captured(lhs@, spans, caps@),
                    texts == span_texts(lhs@, spans),
                    state.env@ == rematch_upto(env0, texts, i as int),
                    same_but_env(*state, *old(state)),
                decreases caps@.len() - i,
            {
                proof {
                    let v = caps@[i as int];
                    encode_utf8_decode_utf8(v@);
                    assert(texts[i as int] == v@);
                }
                let index = u64_to_dec(i as u64);
                state.set_array_element(
                    "BASH_REMATCH".to_owned(),
                    index.as_str(),
                    caps[i].clone(),
                );
                i = i + 1;
            }
            true
        },
    }
}

/// The answer of a binary test.
fn eval_binary_op(
    lhs: &str,
    op: &str,
    rhs: &str,
    files: &[FileStat],
    state: &mut ShellState,
    Ghost(c): Ghost<CondContext>,
) -> (r: bool)
    requires
        c.files == stats_of(files@),
        c.positional == strs(old(state).positional@),
        binary_test(c, old(state).env@, lhs@, op@, rhs@).2,
    ensures
        r == binary_test(c, old(state).env@, lhs@, op@, rhs@).0,
        final(state).env@ == binary_test(c, old(state).env@, lhs@, op@, rhs@).1,
        same_but_env(*final(state), *old(state)),
{
    if str_eq(op, "==") || str_eq(op, "=") {
        glob_compare(lhs, rhs, state)
    } else if str_eq(op, "!=") {
        !glob_compare(lhs, rhs, state)
    } else if str_eq(op, "=~") {
        eval_regex_match(lhs, rhs, state)
    } else if str_eq(op, "<") {
        str_less(lhs, rhs)
    } else if str_eq(op, ">") {
        str_less(rhs, lhs)
    } else if str_eq(op, "-ef") {
        str_eq(lhs, rhs)
    } else if str_eq(op, "-nt") {
        eval_file_test('e', lhs, files) && !eval_file_test('e', rhs, files)
    } else if str_eq(op, "-ot") {
        !eval_file_test('e', lhs, files) && eval_file_test('e', rhs, files)
    } else {
        eval_int_compare(lhs, op, rhs)
    }
}

/// Evaluates the expression that starts at `pos`, and returns its value with the position past
/// it. Every file that a token may name has to be listed.
pub fn dbl_bracket_eval_or(
    tokens: &[String],
    pos: usize,
    files: &[FileStat],
    state: &mut ShellState,
) -> (r: (bool, usize))
    requires
        pos <= tokens@.len(),
        cond_or(context_of(tokens@, files@, *old(state)), pos as int, old(state).env@).ok,
    ensures
        ({
            let c = cond_or(
                context_of(tokens@, files@, *old(state)),
                pos as int,
                old(state).env@,
            );
            r.0 == c.value && r.1 == c.pos && final(state).env@ == c.env
        }),
        pos <= r.1 <= tokens@.len(),
        same_but_env(*final(state), *old(state)),
{
    let input = CondInput { tokens, files };
    match input.eval_or(pos, state) {
        Some(v) => v,
        None => (false, pos),
    }
}

/// Evaluates a whole expression, and returns its value, where no match of a regular expression in it
/// cuts a character.
pub fn dbl_bracket_value(tokens: &[String], files: &[FileStat], state: &mut ShellState) -> (r:
    Option<bool>)
    ensures
        ({
            let c = cond_or(context_of(tokens@, files@, *old(state)), 0, old(state).env@);
            match r {
                Some(v) => c.ok && v == c.value && final(state).env@ == c.env,
                None => !c.ok,
            }
        }),
        same_but_env(*final(state), *old(state)),
{
    let input = CondInput { tokens, files };
    match input.eval_or(0, state) {
        Some((value, _)) => Some(value),
        None => None,
    }
}

} // verus!
