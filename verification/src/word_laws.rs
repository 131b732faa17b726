//! What holds of words.
use crate::words::{
    direct_substs, has_magic, part_has_magic, part_needs_expansion, part_needs_shell, part_resolved,
    part_substs, part_supported, part_text, parts_substs, parts_text,
    subst_of, words_substs, SubstKind, Word, WordPart,
};
use vstd::prelude::*;

verus! {

/// What a part of a word is good for: texts stand for themselves, in quotes or not, and everything else
/// has to be expanded; in quotes what stands between them decides.
pub proof fn law_parts_by_kind(t: String, inner: Vec<WordPart>, p: WordPart)
    ensures
        !part_needs_expansion(WordPart::Literal(t)) && !part_needs_expansion(
            WordPart::SingleQuoted(t),
        ),
        part_needs_expansion(WordPart::Parameter(t)) && part_needs_expansion(
            WordPart::Arithmetic(t),
        ) && part_needs_expansion(WordPart::CommandSubstitution(t)) && part_needs_expansion(
            WordPart::ProcessSubstIn(t),
        ) && part_needs_expansion(WordPart::ProcessSubstOut(t)),
        p matches WordPart::DoubleQuoted(x) ==> (part_needs_expansion(p) <==> exists|i: int|
            0 <= i < x@.len() && part_needs_expansion(#[trigger] x@[i])),
        part_supported(WordPart::Literal(t)) && part_supported(WordPart::SingleQuoted(t))
            && part_supported(WordPart::Parameter(t)) && part_supported(WordPart::Arithmetic(t)),
        !part_supported(WordPart::CommandSubstitution(t)) && !part_supported(
            WordPart::ProcessSubstIn(t),
        ) && !part_supported(WordPart::ProcessSubstOut(t)) && !part_supported(WordPart::Other),
        p matches WordPart::DoubleQuoted(x) ==> (part_supported(p) <==> forall|i: int|
            0 <= i < x@.len() ==> part_supported(#[trigger] x@[i])),
        !part_needs_shell(WordPart::SingleQuoted(t)) && !part_needs_shell(
            WordPart::DoubleQuoted(inner),
        ) && !part_needs_shell(WordPart::Parameter(t)) && !part_needs_shell(
            WordPart::Arithmetic(t),
        ),
        part_needs_shell(WordPart::CommandSubstitution(t)) && part_needs_shell(
            WordPart::ProcessSubstIn(t),
        ) && part_needs_shell(WordPart::ProcessSubstOut(t)),
        part_needs_shell(WordPart::Literal(t)) <==> has_magic(t@),
{
}

/// The signs of braces and patterns, and nothing else, make a text more than itself.
pub proof fn law_signs_of_patterns(s: Seq<char>)
    ensures
        has_magic(s) <==> exists|i: int|
            0 <= i < s.len() && (#[trigger] s[i] == '{' || s[i] == '}' || s[i] == '*' || s[i] == '?'
                || s[i] == '['),
{
    if exists|i: int|
        0 <= i < s.len() && (#[trigger] s[i] == '{' || s[i] == '}' || s[i] == '*' || s[i] == '?'
            || s[i] == '[') {
        let i = choose|i: int|
            0 <= i < s.len() && (#[trigger] s[i] == '{' || s[i] == '}' || s[i] == '*' || s[i]
                == '?' || s[i] == '[');
        assert(s.contains(s[i]));
    }
}

/// The text of a word is that of its parts, one after the other, quotes left out.
pub proof fn law_text_of_parts(t: String, parts: Vec<WordPart>, n: nat)
    requires
        0 < n <= parts.len(),
    ensures
        part_text(WordPart::Literal(t)) == Some(t@),
        part_text(WordPart::SingleQuoted(t)) == Some(t@),
        part_text(WordPart::DoubleQuoted(parts)) == parts_text(parts, parts.len() as nat),
        part_text(WordPart::Parameter(t)) is None,
        parts_text(parts, 0) == Some(Seq::<char>::empty()),
        parts_text(parts, (n - 1) as nat) matches Some(before) ==> (part_text(parts[n - 1]) matches
            Some(x) ==> parts_text(parts, n) == Some(before + x)),
{
}

/// The substitutions of a word stand in the order in which they are written, each with its script, in
/// quotes too.
pub proof fn law_substitutions_in_order(
    parts: Seq<WordPart>,
    n: int,
    script: String,
    inner: Vec<WordPart>,
)
    requires
        0 < n <= parts.len(),
    ensures
        subst_of(WordPart::CommandSubstitution(script)) == Some((SubstKind::Command, script@)),
        subst_of(WordPart::ProcessSubstIn(script)) == Some((SubstKind::ProcessIn, script@)),
        subst_of(WordPart::ProcessSubstOut(script)) == Some((SubstKind::ProcessOut, script@)),
        subst_of(WordPart::Literal(script)) is None && subst_of(WordPart::SingleQuoted(script))
            is None && subst_of(WordPart::Parameter(script)) is None && subst_of(
            WordPart::Arithmetic(script),
        ) is None,
        part_substs(WordPart::DoubleQuoted(inner)) == direct_substs(
            inner@,
            inner@.len() as int,
        ),
        parts_substs(parts, n) == parts_substs(parts, n - 1) + part_substs(parts[n - 1]),
        parts_substs(parts, 0).len() == 0,
        subst_of(parts[n - 1]) matches Some(x) ==> direct_substs(parts, n) == direct_substs(
            parts,
            n - 1,
        ).push(x),
        subst_of(parts[n - 1]) is None ==> direct_substs(parts, n) == direct_substs(parts, n - 1),
{
}

/// The substitutions of words are those of each, one word after the other.
pub proof fn law_substitutions_of_words(words: Seq<Word>, n: int)
    requires
        0 < n <= words.len(),
    ensures
        words_substs(words, 0).len() == 0,
        words_substs(words, n).len() == words_substs(words, n - 1).len() + parts_substs(
            words[n - 1].parts@,
            words[n - 1].parts@.len() as int,
        ).len(),
        words_substs(words, n).take(words_substs(words, n - 1).len() as int) == words_substs(
            words,
            n - 1,
        ),
{
    let before = words_substs(words, n - 1);
    assert(words_substs(words, n).take(before.len() as int) =~= before);
}

/// A substitution gives way to what it printed, a text that is not looked at again; every other part
/// stays, and what stands between quotes stays there.
pub proof fn law_results_take_the_place(
    a: WordPart,
    b: WordPart,
    results: Seq<Seq<char>>,
    k: int,
)
    requires
        part_resolved(a, results, k, b),
    ensures
        subst_of(a) is Some ==> (b matches WordPart::Literal(t) && t@ == results[k]),
        a matches WordPart::Literal(t) ==> (b matches WordPart::Literal(u) && u@ == t@),
        a matches WordPart::SingleQuoted(t) ==> (b matches WordPart::SingleQuoted(u) && u@ == t@),
        a matches WordPart::Parameter(t) ==> (b matches WordPart::Parameter(u) && u@ == t@),
        a matches WordPart::DoubleQuoted(x) ==> (b matches WordPart::DoubleQuoted(y) && y@.len()
            == x@.len()),
        subst_of(b) is None,
{
}

/// Whether an operator or a script makes a part that is more than its text, by its kind.
pub proof fn law_magic_by_kind(t: String, p: WordPart)
    ensures
        part_has_magic(WordPart::Literal(t)) <==> has_magic(t@),
        part_has_magic(WordPart::SingleQuoted(t)) <==> has_magic(t@),
        part_has_magic(WordPart::Parameter(t)) <==> has_magic(t@),
        !part_has_magic(WordPart::Arithmetic(t)),
        part_has_magic(WordPart::CommandSubstitution(t)),
        p matches WordPart::DoubleQuoted(x) ==> (part_has_magic(p) <==> exists|i: int|
            0 <= i < x@.len() && part_has_magic(#[trigger] x@[i])),
{
}

} // verus!
