//! Words as they are written: literal text, quotes, and what is expanded.
use crate::text::contains_char;
use crate::views::strs;
use vstd::prelude::*;

verus! {

/// A part of a word.
#[derive(Debug)]
pub enum WordPart {
    Literal(String),
    SingleQuoted(String),
    DoubleQuoted(Vec<WordPart>),
    Parameter(String),
    Arithmetic(String),
    CommandSubstitution(String),
    ProcessSubstIn(String),
    ProcessSubstOut(String),
    /// A part that has no other kind.
    Other,
}

/// A word.
#[derive(Debug)]
pub struct Word {
    pub parts: Vec<WordPart>,
}

/// Whether a text holds a character that brace or pathname expansion looks for.
pub open spec fn has_magic(s: Seq<char>) -> bool {
    s.contains('{') || s.contains('}') || s.contains('*') || s.contains('?') || s.contains('[')
}

/// Whether a text holds a character that brace or pathname expansion looks for.
pub fn text_has_brace_or_glob_literal(text: &str) -> (r: bool)
    ensures
        r == has_magic(text@),
{
    contains_char(text, '{') || contains_char(text, '}') || contains_char(text, '*')
        || contains_char(text, '?') || contains_char(text, '[')
}

/// Whether a part takes more than removing its quotes.
pub open spec fn part_needs_expansion(p: WordPart) -> bool
    decreases p,
{
    match p {
        WordPart::Literal(_) => false,
        WordPart::SingleQuoted(_) => false,
        WordPart::DoubleQuoted(inner) => exists|i: int|
            0 <= i < inner.len() && part_needs_expansion(#[trigger] inner[i]),
        _ => true,
    }
}

/// Whether one of the parts takes more than removing its quotes.
pub open spec fn parts_need_expansion(parts: Seq<WordPart>) -> bool {
    exists|i: int| 0 <= i < parts.len() && part_needs_expansion(#[trigger] parts[i])
}

/// Whether one of the parts takes more than removing its quotes.
pub fn word_parts_require_runtime_expansion(parts: &Vec<WordPart>) -> (r: bool)
    ensures
        r == parts_need_expansion(parts@),
    decreases parts,
{
    let mut i: usize = 0;
    while i < parts.len()
        invariant
            i <= parts@.len(),
            forall|j: int| 0 <= j < i ==> !part_needs_expansion(#[trigger] parts@[j]),
        decreases parts@.len() - i,
    {
        let hit: bool = match &parts[i] {
            WordPart::Literal(_) => false,
            WordPart::SingleQuoted(_) => false,
            WordPart::DoubleQuoted(inner) => {
                proof {
                    assert(decreases_to!(parts => parts[i as int]));
                    assert(decreases_to!(parts[i as int] => inner));
                }
                word_parts_require_runtime_expansion(inner)
            },
            _ => true,
        };
        assert(hit == part_needs_expansion(parts@[i as int]));
        if hit {
            return true;
        }
        i = i + 1;
    }
    false
}

/// Whether a part may be subject to brace or pathname expansion.
pub open spec fn part_has_magic(p: WordPart) -> bool
    decreases p,
{
    match p {
        WordPart::Literal(t) => has_magic(t@),
        WordPart::SingleQuoted(t) => has_magic(t@),
        WordPart::Parameter(t) => has_magic(t@),
        WordPart::DoubleQuoted(inner) => exists|i: int|
            0 <= i < inner.len() && part_has_magic(#[trigger] inner[i]),
        WordPart::Arithmetic(_) => false,
        _ => true,
    }
}

/// Whether one of the parts may be subject to brace or pathname expansion.
pub open spec fn parts_have_magic(parts: Seq<WordPart>) -> bool {
    exists|i: int| 0 <= i < parts.len() && part_has_magic(#[trigger] parts[i])
}

/// Whether a part may be subject to brace or pathname expansion.
pub fn word_part_has_brace_or_glob_literal(part: &WordPart) -> (r: bool)
    ensures
        r == part_has_magic(*part),
    decreases part,
{
    match part {
        WordPart::Literal(t) => text_has_brace_or_glob_literal(t.as_str()),
        WordPart::SingleQuoted(t) => text_has_brace_or_glob_literal(t.as_str()),
        WordPart::Parameter(t) => text_has_brace_or_glob_literal(t.as_str()),
        WordPart::DoubleQuoted(inner) => {
            let mut i: usize = 0;
            while i < inner.len()
                invariant
                    i <= inner@.len(),
                    part is DoubleQuoted,
                    part->DoubleQuoted_0 == *inner,
                    forall|j: int| 0 <= j < i ==> !part_has_magic(#[trigger] inner@[j]),
                decreases inner@.len() - i,
            {
                proof {
                    assert(decreases_to!(*part => part->DoubleQuoted_0));
                    assert(decreases_to!(inner => inner[i as int]));
                }
                if word_part_has_brace_or_glob_literal(&inner[i]) {
                    return true;
                }
                i = i + 1;
            }
            false
        },
        WordPart::Arithmetic(_) => false,
        _ => true,
    }
}

/// Whether a word may be subject to brace or pathname expansion.
pub fn word_has_brace_or_glob_literal(word: &Word) -> (r: bool)
    ensures
        r == parts_have_magic(word.parts@),
{
    let mut i: usize = 0;
    while i < word.parts.len()
        invariant
            i <= word.parts@.len(),
            forall|j: int| 0 <= j < i ==> !part_has_magic(#[trigger] word.parts@[j]),
        decreases word.parts@.len() - i,
    {
        if word_part_has_brace_or_glob_literal(&word.parts[i]) {
            return true;
        }
        i = i + 1;
    }
    false
}

/// Whether the fast path can expand a part.
pub open spec fn part_supported(p: WordPart) -> bool
    decreases p,
{
    match p {
        WordPart::Literal(_) => true,
        WordPart::SingleQuoted(_) => true,
        WordPart::Parameter(_) => true,
        WordPart::Arithmetic(_) => true,
        WordPart::DoubleQuoted(inner) => forall|i: int|
            0 <= i < inner.len() ==> part_supported(#[trigger] inner[i]),
        _ => false,
    }
}

/// Whether the fast path can expand all parts.
pub open spec fn parts_supported(parts: Seq<WordPart>) -> bool {
    forall|i: int| 0 <= i < parts.len() ==> part_supported(#[trigger] parts[i])
}

/// Whether the fast path can expand a part.
pub fn vm_supported_word_part(part: &WordPart) -> (r: bool)
    ensures
        r == part_supported(*part),
    decreases part,
{
    match part {
        WordPart::Literal(_) => true,
        WordPart::SingleQuoted(_) => true,
        WordPart::Parameter(_) => true,
        WordPart::Arithmetic(_) => true,
        WordPart::DoubleQuoted(inner) => {
            let mut i: usize = 0;
            while i < inner.len()
                invariant
                    i <= inner@.len(),
                    part is DoubleQuoted,
                    part->DoubleQuoted_0 == *inner,
                    forall|j: int| 0 <= j < i ==> part_supported(#[trigger] inner@[j]),
                decreases inner@.len() - i,
            {
                proof {
                    assert(decreases_to!(*part => part->DoubleQuoted_0));
                    assert(decreases_to!(inner => inner[i as int]));
                }
                if !vm_supported_word_part(&inner[i]) {
                    assert(!part_supported(inner@[i as int]));
                    return false;
                }
                i = i + 1;
            }
            true
        },
        _ => false,
    }
}

/// Whether the fast path can expand a word.
pub fn vm_supported_word(word: &Word) -> (r: bool)
    ensures
        r == parts_supported(word.parts@),
{
    let mut i: usize = 0;
    while i < word.parts.len()
        invariant
            i <= word.parts@.len(),
            forall|j: int| 0 <= j < i ==> part_supported(#[trigger] word.parts@[j]),
        decreases word.parts@.len() - i,
    {
        if !vm_supported_word_part(&word.parts[i]) {
            assert(!part_supported(word.parts@[i as int]));
            return false;
        }
        i = i + 1;
    }
    true
}

/// Whether a part takes an expansion that only the full shell does.
pub open spec fn part_needs_shell(p: WordPart) -> bool {
    match p {
        WordPart::Literal(t) => has_magic(t@),
        WordPart::SingleQuoted(_) => false,
        WordPart::DoubleQuoted(_) => false,
        WordPart::Parameter(_) => false,
        WordPart::Arithmetic(_) => false,
        _ => true,
    }
}

/// Whether one of the parts takes an expansion that only the full shell does.
pub open spec fn parts_need_shell(parts: Seq<WordPart>) -> bool {
    exists|i: int| 0 <= i < parts.len() && part_needs_shell(#[trigger] parts[i])
}

/// Whether a word takes an expansion that only the full shell does.
pub fn vm_word_requires_full_shell_execution(word: &Word) -> (r: bool)
    ensures
        r == parts_need_shell(word.parts@),
{
    let mut i: usize = 0;
    while i < word.parts.len()
        invariant
            i <= word.parts@.len(),
            forall|j: int| 0 <= j < i ==> !part_needs_shell(#[trigger] word.parts@[j]),
        decreases word.parts@.len() - i,
    {
        let hit: bool = match &word.parts[i] {
            WordPart::Literal(t) => text_has_brace_or_glob_literal(t.as_str()),
            WordPart::SingleQuoted(_) => false,
            WordPart::DoubleQuoted(_) => false,
            WordPart::Parameter(_) => false,
            WordPart::Arithmetic(_) => false,
            _ => true,
        };
        assert(hit == part_needs_shell(word.parts@[i as int]));
        if hit {
            return true;
        }
        i = i + 1;
    }
    false
}

/// The text of a part, where it is literal.
pub open spec fn part_text(p: WordPart) -> Option<Seq<char>>
    decreases p, 0nat,
{
    match p {
        WordPart::Literal(t) => Some(t@),
        WordPart::SingleQuoted(t) => Some(t@),
        WordPart::DoubleQuoted(inner) => parts_text(inner, inner.len() as nat),
        _ => None,
    }
}

/// The text of the first `n` parts, where all of them are literal.
pub open spec fn parts_text(parts: Vec<WordPart>, n: nat) -> Option<Seq<char>>
    decreases parts, n,
{
    if n == 0 || n > parts.len() {
        Some(Seq::empty())
    } else {
        match parts_text(parts, (n - 1) as nat) {
            Some(before) => match part_text(parts[n - 1]) {
                Some(t) => Some(before + t),
                None => None,
            },
            None => None,
        }
    }
}

proof fn lemma_parts_text_none(parts: Vec<WordPart>, n: nat, m: nat)
    requires
        n <= m <= parts.len(),
        parts_text(parts, n) is None,
    ensures
        parts_text(parts, m) is None,
    decreases m - n,
{
    if n < m {
        lemma_parts_text_none(parts, n, (m - 1) as nat);
    }
}

fn literal_parts_text(parts: &Vec<WordPart>) -> (r: Option<String>)
    ensures
        match r {
            Some(t) => parts_text(*parts, parts.len() as nat) == Some(t@),
            None => parts_text(*parts, parts.len() as nat) is None,
        },
    decreases parts,
{
    let mut text = String::new();
    let mut i: usize = 0;
    assert(text@ =~= Seq::empty());
    while i < parts.len()
        invariant
            i <= parts@.len(),
            parts_text(*parts, i as nat) == Some(text@),
        decreases parts@.len() - i,
    {
        let piece: Option<String> = match &parts[i] {
            WordPart::Literal(t) => Some(t.clone()),
            WordPart::SingleQuoted(t) => Some(t.clone()),
            WordPart::DoubleQuoted(inner) => {
                proof {
                    assert(decreases_to!(parts => parts[i as int]));
                    assert(decreases_to!(parts[i as int] => inner));
                }
                literal_parts_text(inner)
            },
            _ => None,
        };
        proof {
            reveal_with_fuel(part_text, 2);
            reveal_with_fuel(parts_text, 2);
        }
        match piece {
            Some(t) => {
                assert(part_text(parts[i as int]) == Some(t@));
                text = text.concat(t.as_str());
            },
            None => {
                assert(part_text(parts[i as int]) is None);
                assert(parts_text(*parts, (i + 1) as nat) is None);
                proof {
                    lemma_parts_text_none(*parts, (i + 1) as nat, parts@.len());
                }
                return None;
            },
        }
        i = i + 1;
    }
    Some(text)
}

/// The text of a word, where all of it is literal.
pub fn literal_word_text(word: &Word) -> (r: Option<String>)
    ensures
        match r {
            Some(t) => parts_text(word.parts, word.parts.len() as nat) == Some(t@),
            None => parts_text(word.parts, word.parts.len() as nat) is None,
        },
{
    literal_parts_text(&word.parts)
}

/// A word of which only literal text is left is expanded by removing its quotes: it has a text.
pub proof fn law_unexpanded_part_is_literal(p: WordPart)
    requires
        !part_needs_expansion(p),
    ensures
        part_text(p) is Some,
    decreases p, 0nat,
{
    match p {
        WordPart::DoubleQuoted(inner) => {
            law_unexpanded_parts_are_literal(inner, inner.len() as nat);
        },
        _ => {},
    }
}

/// Words that need no expansion have a text.
pub proof fn law_unexpanded_parts_are_literal(parts: Vec<WordPart>, n: nat)
    requires
        n <= parts.len(),
        !parts_need_expansion(parts@),
    ensures
        parts_text(parts, n) is Some,
    decreases parts, n,
{
    if n > 0 {
        law_unexpanded_parts_are_literal(parts, (n - 1) as nat);
        assert(!part_needs_expansion(parts@[n - 1]));
        assert(decreases_to!(parts => parts[n - 1]));
        law_unexpanded_part_is_literal(parts[n - 1]);
    }
}

/// What is to be substituted.
#[derive(Clone, Copy, Debug, PartialEq, Eq, Structural)]
pub enum SubstKind {
    Command,
    ProcessIn,
    ProcessOut,
}

/// A substitution that is to be made: its kind and its script.
#[derive(Debug)]
pub struct Subst {
    pub kind: SubstKind,
    pub script: String,
}

/// The substitution that a part is, if it is one.
pub open spec fn subst_of(p: WordPart) -> Option<(SubstKind, Seq<char>)> {
    match p {
        WordPart::CommandSubstitution(s) => Some((SubstKind::Command, s@)),
        WordPart::ProcessSubstIn(s) => Some((SubstKind::ProcessIn, s@)),
        WordPart::ProcessSubstOut(s) => Some((SubstKind::ProcessOut, s@)),
        _ => None,
    }
}

/// The substitutions among the first `n` parts, not looking into quotes.
pub open spec fn direct_substs(parts: Seq<WordPart>, n: int) -> Seq<(SubstKind, Seq<char>)>
    decreases n,
{
    if n <= 0 {
        Seq::empty()
    } else {
        match subst_of(parts[n - 1]) {
            Some(x) => direct_substs(parts, n - 1).push(x),
            None => direct_substs(parts, n - 1),
        }
    }
}

/// The substitutions of a part: itself, or those in its double quotes.
pub open spec fn part_substs(p: WordPart) -> Seq<(SubstKind, Seq<char>)> {
    match p {
        WordPart::DoubleQuoted(inner) => direct_substs(inner@, inner@.len() as int),
        _ => match subst_of(p) {
            Some(x) => seq![x],
            None => Seq::empty(),
        },
    }
}

/// The substitutions of the first `n` parts.
pub open spec fn parts_substs(parts: Seq<WordPart>, n: int) -> Seq<(SubstKind, Seq<char>)>
    decreases n,
{
    if n <= 0 {
        Seq::empty()
    } else {
        parts_substs(parts, n - 1) + part_substs(parts[n - 1])
    }
}

/// The substitutions of the first `n` words.
pub open spec fn words_substs(words: Seq<Word>, n: int) -> Seq<(SubstKind, Seq<char>)>
    decreases n,
{
    if n <= 0 {
        Seq::empty()
    } else {
        words_substs(words, n - 1) + parts_substs(
            words[n - 1].parts@,
            words[n - 1].parts@.len() as int,
        )
    }
}

/// The model of substitutions that are to be made.
pub open spec fn substs_of(v: Seq<Subst>) -> Seq<(SubstKind, Seq<char>)> {
    v.map_values(|s: Subst| (s.kind, s.script@))
}

fn as_subst(p: &WordPart) -> (r: Option<Subst>)
    ensures
        match r {
            Some(s) => subst_of(*p) == Some((s.kind, s.script@)),
            None => subst_of(*p) is None,
        },
{
    match p {
        WordPart::CommandSubstitution(s) => Some(
            Subst { kind: SubstKind::Command, script: s.clone() },
        ),
        WordPart::ProcessSubstIn(s) => Some(
            Subst { kind: SubstKind::ProcessIn, script: s.clone() },
        ),
        WordPart::ProcessSubstOut(s) => Some(
            Subst { kind: SubstKind::ProcessOut, script: s.clone() },
        ),
        _ => None,
    }
}

fn add_subst(out: &mut Vec<Subst>, s: Subst)
    ensures
        substs_of(final(out)@) == substs_of(old(out)@).push((s.kind, s.script@)),
{
    out.push(s);
    assert(substs_of(out@) =~= substs_of(old(out)@).push((s.kind, s.script@)));
}

fn add_direct(parts: &Vec<WordPart>, out: &mut Vec<Subst>)
    ensures
        substs_of(final(out)@) == substs_of(old(out)@) + direct_substs(
            parts@,
            parts@.len() as int,
        ),
{
    let ghost first = substs_of(out@);
    let mut i: usize = 0;
    assert(first + Seq::empty() =~= first);
    while i < parts.len()
        invariant
            i <= parts@.len(),
            substs_of(out@) == first + direct_substs(parts@, i as int),
        decreases parts@.len() - i,
    {
        let ghost before = direct_substs(parts@, i as int);
        if let Some(s) = as_subst(&parts[i]) {
            let ghost x = (s.kind, s.script@);
            add_subst(out, s);
            assert((first + before).push(x) =~= first + before.push(x));
        }
        i = i + 1;
    }
}

fn add_parts(parts: &Vec<WordPart>, out: &mut Vec<Subst>)
    ensures
        substs_of(final(out)@) == substs_of(old(out)@) + parts_substs(
            parts@,
            parts@.len() as int,
        ),
{
    let ghost first = substs_of(out@);
    let mut i: usize = 0;
    assert(first + Seq::empty() =~= first);
    while i < parts.len()
        invariant
            i <= parts@.len(),
            substs_of(out@) == first + parts_substs(parts@, i as int),
        decreases parts@.len() - i,
    {
        let ghost before = parts_substs(parts@, i as int);
        let ghost here = part_substs(parts@[i as int]);
        match &parts[i] {
            WordPart::DoubleQuoted(inner) => {
                add_direct(inner, out);
            },
            other => {
                if let Some(s) = as_subst(other) {
                    add_subst(out, s);
                }
            },
        }
        assert(substs_of(out@) =~= first + (before + here));
        i = i + 1;
    }
}

/// The substitutions that words ask for, in the order in which they are made.
pub fn pending_substs(words: &Vec<Word>) -> (r: Vec<Subst>)
    ensures
        substs_of(r@) == words_substs(words@, words@.len() as int),
{
    let mut out: Vec<Subst> = Vec::new();
    let mut i: usize = 0;
    assert(substs_of(out@) =~= Seq::empty());
    while i < words.len()
        invariant
            i <= words@.len(),
            substs_of(out@) == words_substs(words@, i as int),
        decreases words@.len() - i,
    {
        add_parts(&words[i].parts, &mut out);
        i = i + 1;
    }
    out
}

/// Whether two parts are the same.
pub open spec fn same_part(a: WordPart, b: WordPart) -> bool
    decreases a,
{
    match a {
        WordPart::Literal(s) => b matches WordPart::Literal(t) && t@ == s@,
        WordPart::SingleQuoted(s) => b matches WordPart::SingleQuoted(t) && t@ == s@,
        WordPart::DoubleQuoted(x) => b matches WordPart::DoubleQuoted(y) && y.len() == x.len() && (
        forall|i: int| 0 <= i < x.len() ==> same_part(#[trigger] x[i], y[i])),
        WordPart::Parameter(s) => b matches WordPart::Parameter(t) && t@ == s@,
        WordPart::Arithmetic(s) => b matches WordPart::Arithmetic(t) && t@ == s@,
        WordPart::CommandSubstitution(s) => b matches WordPart::CommandSubstitution(t) && t@ == s@,
        WordPart::ProcessSubstIn(s) => b matches WordPart::ProcessSubstIn(t) && t@ == s@,
        WordPart::ProcessSubstOut(s) => b matches WordPart::ProcessSubstOut(t) && t@ == s@,
        WordPart::Other => b is Other,
    }
}

fn copy_part(p: &WordPart) -> (r: WordPart)
    ensures
        same_part(*p, r),
    decreases p,
{
    match p {
        WordPart::Literal(s) => WordPart::Literal(s.clone()),
        WordPart::SingleQuoted(s) => WordPart::SingleQuoted(s.clone()),
        WordPart::DoubleQuoted(inner) => {
            let mut copy: Vec<WordPart> = Vec::new();
            let mut i: usize = 0;
            while i < inner.len()
                invariant
                    i <= inner@.len(),
                    copy@.len() == i,
                    p is DoubleQuoted,
                    p->DoubleQuoted_0 == *inner,
                    forall|j: int| 0 <= j < i ==> same_part(#[trigger] inner@[j], copy@[j]),
                decreases inner@.len() - i,
            {
                proof {
                    assert(decreases_to!(*p => p->DoubleQuoted_0));
                    assert(decreases_to!(inner => inner[i as int]));
                }
                copy.push(copy_part(&inner[i]));
                i = i + 1;
            }
            WordPart::DoubleQuoted(copy)
        },
        WordPart::Parameter(s) => WordPart::Parameter(s.clone()),
        WordPart::Arithmetic(s) => WordPart::Arithmetic(s.clone()),
        WordPart::CommandSubstitution(s) => WordPart::CommandSubstitution(s.clone()),
        WordPart::ProcessSubstIn(s) => WordPart::ProcessSubstIn(s.clone()),
        WordPart::ProcessSubstOut(s) => WordPart::ProcessSubstOut(s.clone()),
        WordPart::Other => WordPart::Other,
    }
}

/// Whether `b` is the part `a` after a substitution: literal text where it is one, else the same.
pub open spec fn replaced(a: WordPart, result: Seq<char>, b: WordPart) -> bool {
    if subst_of(a) is Some {
        b matches WordPart::Literal(t) && t@ == result
    } else {
        same_part(a, b)
    }
}

/// Whether `b` is the part `a` with the results from `k` on in place of its substitutions.
pub open spec fn part_resolved(a: WordPart, results: Seq<Seq<char>>, k: int, b: WordPart) -> bool {
    match a {
        WordPart::DoubleQuoted(x) => b matches WordPart::DoubleQuoted(y) && y@.len() == x@.len() && (
        forall|i: int|
            0 <= i < x@.len() ==> replaced(
                #[trigger] x@[i],
                results[k + direct_substs(x@, i).len()],
                y@[i],
            )),
        _ => replaced(a, results[k], b),
    }
}

/// Whether the parts `b` are the parts `a` with the results from `k` on in place of their
/// substitutions.
pub open spec fn parts_resolved(
    a: Seq<WordPart>,
    results: Seq<Seq<char>>,
    k: int,
    b: Seq<WordPart>,
) -> bool {
    b.len() == a.len() && forall|i: int|
        0 <= i < a.len() ==> part_resolved(
            #[trigger] a[i],
            results,
            k + parts_substs(a, i).len(),
            b[i],
        )
}

proof fn lemma_direct_grows(parts: Seq<WordPart>, i: int, n: int)
    requires
        0 <= i <= n <= parts.len(),
    ensures
        direct_substs(parts, i).len() <= direct_substs(parts, n).len(),
    decreases n - i,
{
    if i < n {
        lemma_direct_grows(parts, i, n - 1);
    }
}

proof fn lemma_parts_grow(parts: Seq<WordPart>, i: int, n: int)
    requires
        0 <= i <= n <= parts.len(),
    ensures
        parts_substs(parts, i).len() <= parts_substs(parts, n).len(),
    decreases n - i,
{
    if i < n {
        lemma_parts_grow(parts, i, n - 1);
    }
}

proof fn lemma_words_grow(words: Seq<Word>, i: int, n: int)
    requires
        0 <= i <= n <= words.len(),
    ensures
        words_substs(words, i).len() <= words_substs(words, n).len(),
    decreases n - i,
{
    if i < n {
        lemma_words_grow(words, i, n - 1);
    }
}

fn is_subst(p: &WordPart) -> (r: bool)
    ensures
        r == (subst_of(*p) is Some),
{
    match p {
        WordPart::CommandSubstitution(_) => true,
        WordPart::ProcessSubstIn(_) => true,
        WordPart::ProcessSubstOut(_) => true,
        _ => false,
    }
}

fn resolve_quoted(inner: &Vec<WordPart>, results: &Vec<String>, at: usize) -> (r: (
    Vec<WordPart>,
    usize,
))
    requires
        at + direct_substs(inner@, inner@.len() as int).len() <= results@.len(),
    ensures
        r.1 == at + direct_substs(inner@, inner@.len() as int).len(),
        r.0@.len() == inner@.len(),
        forall|i: int|
            0 <= i < inner@.len() ==> replaced(
                #[trigger] inner@[i],
                strs(results@)[at + direct_substs(inner@, i).len()],
                r.0@[i],
            ),
{
    let ghost all = strs(results@);
    let mut out: Vec<WordPart> = Vec::new();
    let mut k: usize = at;
    let mut i: usize = 0;
    while i < inner.len()
        invariant
            i <= inner@.len(),
            all == strs(results@),
            k == at + direct_substs(inner@, i as int).len(),
            at + direct_substs(inner@, inner@.len() as int).len() <= results@.len(),
            out@.len() == i,
            forall|j: int|
                0 <= j < i ==> replaced(
                    #[trigger] inner@[j],
                    all[at + direct_substs(inner@, j).len()],
                    out@[j],
                ),
        decreases inner@.len() - i,
    {
        proof {
            lemma_direct_grows(inner@, i + 1, inner@.len() as int);
        }
        if is_subst(&inner[i]) {
            assert(k < results.len());
            assert(all[k as int] == results@[k as int]@);
            out.push(WordPart::Literal(results[k].clone()));
            k = k + 1;
        } else {
            out.push(copy_part(&inner[i]));
        }
        i = i + 1;
    }
    (out, k)
}

fn resolve_parts(parts: &Vec<WordPart>, results: &Vec<String>, at: usize) -> (r: (
    Vec<WordPart>,
    usize,
))
    requires
        at + parts_substs(parts@, parts@.len() as int).len() <= results@.len(),
    ensures
        r.1 == at + parts_substs(parts@, parts@.len() as int).len(),
        parts_resolved(parts@, strs(results@), at as int, r.0@),
{
    let ghost all = strs(results@);
    let mut out: Vec<WordPart> = Vec::new();
    let mut k: usize = at;
    let mut i: usize = 0;
    while i < parts.len()
        invariant
            i <= parts@.len(),
            all == strs(results@),
            k == at + parts_substs(parts@, i as int).len(),
            at + parts_substs(parts@, parts@.len() as int).len() <= results@.len(),
            out@.len() == i,
            forall|j: int|
                0 <= j < i ==> part_resolved(
                    #[trigger] parts@[j],
                    all,
                    at + parts_substs(parts@, j).len(),
                    out@[j],
                ),
        decreases parts@.len() - i,
    {
        proof {
            lemma_parts_grow(parts@, i + 1, parts@.len() as int);
        }
        match &parts[i] {
            WordPart::DoubleQuoted(inner) => {
                let (quoted, next) = resolve_quoted(inner, results, k);
                out.push(WordPart::DoubleQuoted(quoted));
                k = next;
            },
            other => {
                if is_subst(other) {
                    assert(k < results.len());
                    assert(all[k as int] == results@[k as int]@);
                    out.push(WordPart::Literal(results[k].clone()));
                    k = k + 1;
                } else {
                    out.push(copy_part(other));
                }
            },
        }
        i = i + 1;
    }
    (out, k)
}

/// The words with the results of their substitutions in place of these, in order.
pub fn resolve_command_subst(words: &Vec<Word>, results: &Vec<String>) -> (r: Vec<Word>)
    requires
        results@.len() == words_substs(words@, words@.len() as int).len(),
    ensures
        r@.len() == words@.len(),
        forall|i: int|
            0 <= i < words@.len() ==> parts_resolved(
                (#[trigger] words@[i]).parts@,
                strs(results@),
                words_substs(words@, i).len() as int,
                r@[i].parts@,
            ),
{
    let ghost all = strs(results@);
    let mut out: Vec<Word> = Vec::new();
    let mut k: usize = 0;
    let mut i: usize = 0;
    while i < words.len()
        invariant
            i <= words@.len(),
            all == strs(results@),
            k == words_substs(words@, i as int).len(),
            results@.len() == words_substs(words@, words@.len() as int).len(),
            out@.len() == i,
            forall|j: int|
                0 <= j < i ==> parts_resolved(
                    (#[trigger] words@[j]).parts@,
                    all,
                    words_substs(words@, j).len() as int,
                    out@[j].parts@,
                ),
        decreases words@.len() - i,
    {
        proof {
            lemma_words_grow(words@, i + 1, words@.len() as int);
        }
        let (parts, next) = resolve_parts(&words[i].parts, results, k);
        out.push(Word { parts });
        k = next;
        i = i + 1;
    }
    out
}

} // verus!
