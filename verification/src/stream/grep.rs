//! The stage `grep`.
use crate::pattern::posix::{posix_match, posix_pattern_returns, posix_returns, posix_search};
use crate::pattern::regex::literal_match_range;
use crate::pattern::regex_spec::find_from;
use crate::stream::lines::{emit_line, emit_str, line_bytes, lines_status, run_lines, LineStage};
use crate::text::{
    char_is_alphanumeric, chars_of, contains_char, dec, find_chars, find_in, is_alnum, lowercased,
    split_char, split_on, str_eq, to_lowercase, trim, trimmed, u64_to_dec,
};
use crate::views::strs;
use std::collections::VecDeque;
use vstd::prelude::*;
use vstd::utf8::{encode_utf8, is_char_boundary};

verus! {

/// What `grep` looks for and prints.
#[derive(Debug)]
pub struct StreamingGrepFlags {
    pub ignore_case: bool,
    pub invert: bool,
    pub count_only: bool,
    pub show_line_numbers: bool,
    pub files_only: bool,
    pub word_match: bool,
    pub only_matching: bool,
    pub quiet: bool,
    pub extended: bool,
    pub fixed: bool,
    pub after_context: usize,
    pub before_context: usize,
    pub max_count: Option<usize>,
    pub show_filename: Option<bool>,
}

/// How `grep` works.
#[derive(Debug)]
pub struct StreamingGrepStage {
    pub flags: StreamingGrepFlags,
    pub patterns: Vec<String>,
}

/// Whether a character is part of a word.
pub open spec fn is_word_char(c: char) -> bool {
    is_alnum(c) || c == '_'
}

/// Whether one of the pieces between characters that are part of no word is `word`, the last
/// of them continuing `cur`.
pub open spec fn has_word(s: Seq<char>, i: int, cur: Seq<char>, word: Seq<char>) -> bool
    decreases s.len() - i,
{
    if i < 0 || i >= s.len() {
        cur == word
    } else if is_word_char(s[i]) {
        has_word(s, i + 1, cur.push(s[i]), word)
    } else {
        cur == word || has_word(s, i + 1, Seq::empty(), word)
    }
}

/// Whether a line matches one pattern without alternatives: as a whole word, as a substring,
/// or as a regular expression. A malformed expression is looked for as a substring.
pub open spec fn grep_single(
    line: Seq<char>,
    pattern: Seq<char>,
    flags: StreamingGrepFlags,
) -> bool {
    if flags.word_match {
        has_word(line, 0, Seq::empty(), pattern)
    } else if flags.fixed {
        find_chars(line, pattern, 0) is Some
    } else {
        match posix_search(encode_utf8(pattern), encode_utf8(line)) {
            Some(found) => found,
            None => find_chars(line, pattern, 0) is Some,
        }
    }
}

/// A string as it is compared.
pub open spec fn folded(s: Seq<char>, flags: StreamingGrepFlags) -> Seq<char> {
    if flags.ignore_case {
        lowercased(s)
    } else {
        s
    }
}

/// The patterns that a pattern stands for: its alternatives between `|`, without white space
/// around them, where extended patterns are on.
pub open spec fn grep_alternatives(pattern: Seq<char>, flags: StreamingGrepFlags) -> Seq<
    Seq<char>,
> {
    let p = folded(pattern, flags);
    if flags.extended && p.contains('|') {
        split_on(p, '|').map_values(|a: Seq<char>| trimmed(a))
    } else {
        seq![p]
    }
}

/// Whether a line matches a pattern.
pub open spec fn grep_pattern(
    line: Seq<char>,
    pattern: Seq<char>,
    flags: StreamingGrepFlags,
) -> bool {
    let alts = grep_alternatives(pattern, flags);
    exists|i: int|
        0 <= i < alts.len() && grep_single(folded(line, flags), #[trigger] alts[i], flags)
}

/// Whether a line is selected: it matches one of the patterns, or none for `invert`.
pub open spec fn grep_selects(
    line: Seq<char>,
    patterns: Seq<Seq<char>>,
    flags: StreamingGrepFlags,
) -> bool {
    (exists|i: int| 0 <= i < patterns.len() && grep_pattern(line, #[trigger] patterns[i], flags))
        != flags.invert
}

/// Whether matching with a pattern always comes to an end.
pub open spec fn grep_pattern_returns(pattern: Seq<char>, flags: StreamingGrepFlags) -> bool {
    let alts = grep_alternatives(pattern, flags);
    flags.word_match || flags.fixed || forall|i: int|
        0 <= i < alts.len() ==> posix_returns(encode_utf8(#[trigger] alts[i]))
}

/// Whether matching with the patterns always comes to an end.
pub open spec fn grep_returns(patterns: Seq<Seq<char>>, flags: StreamingGrepFlags) -> bool {
    forall|i: int|
        0 <= i < patterns.len() ==> grep_pattern_returns(#[trigger] patterns[i], flags)
}

/// Whether a byte is an ASCII letter or digit.
pub open spec fn is_ascii_alnum(b: u8) -> bool {
    0x30 <= b <= 0x39 || 0x41 <= b <= 0x5a || 0x61 <= b <= 0x7a
}

/// The byte span at which a pattern is found in a line: the first occurrence, which for whole
/// words must have no ASCII letter or digit next to it.
pub open spec fn grep_found(
    line: Seq<char>,
    pattern: Seq<char>,
    flags: StreamingGrepFlags,
) -> Option<(int, int)> {
    let l = encode_utf8(folded(line, flags));
    let p = encode_utf8(folded(pattern, flags));
    match find_from(l, 0, p) {
        None => None,
        Some(i) => {
            let e = i + p.len();
            if flags.word_match && ((i > 0 && is_ascii_alnum(l[i - 1])) || (e < l.len()
                && is_ascii_alnum(l[e]))) {
                None
            } else {
                Some((i, e))
            }
        },
    }
}

/// Whether what is found of a pattern can be cut out of the line itself. Ignoring case may
/// change the length of a line, and a span of the changed line may then not be one of the line.
pub open spec fn grep_cuts(line: Seq<char>, pattern: Seq<char>, flags: StreamingGrepFlags) -> bool {
    !flags.ignore_case || match grep_found(line, pattern, flags) {
        Some((a, b)) => b <= encode_utf8(line).len() && is_char_boundary(encode_utf8(line), a)
            && is_char_boundary(encode_utf8(line), b),
        None => true,
    }
}

/// Whether all that is found in a line can be cut out of it, where that is asked for.
pub open spec fn grep_prints(
    line: Seq<char>,
    patterns: Seq<Seq<char>>,
    flags: StreamingGrepFlags,
) -> bool {
    flags.only_matching ==> forall|i: int|
        0 <= i < patterns.len() ==> grep_cuts(line, #[trigger] patterns[i], flags)
}

/// What is printed before a line.
pub open spec fn grep_prefix(num: nat, flags: StreamingGrepFlags) -> Seq<char> {
    (if flags.show_filename == Some(true) {
        "(standard input):"@
    } else {
        Seq::empty()
    }) + (if flags.show_line_numbers {
        dec(num) + ":"@
    } else {
        Seq::empty()
    })
}

/// What is printed of a line for the first `n` patterns where only matches are wanted.
pub open spec fn grep_matches_out(
    line: Seq<char>,
    num: nat,
    patterns: Seq<Seq<char>>,
    n: int,
    flags: StreamingGrepFlags,
) -> Seq<u8>
    decreases n,
{
    if n <= 0 {
        Seq::empty()
    } else {
        let before = grep_matches_out(line, num, patterns, n - 1, flags);
        match grep_found(line, patterns[n - 1], flags) {
            Some((a, b)) => before + encode_utf8(grep_prefix(num, flags)) + encode_utf8(
                line,
            ).subrange(a, b).push(0x0a),
            None => before,
        }
    }
}

/// What is printed of a line.
pub open spec fn grep_out(
    line: Seq<char>,
    num: nat,
    patterns: Seq<Seq<char>>,
    flags: StreamingGrepFlags,
) -> Seq<u8> {
    if flags.only_matching {
        grep_matches_out(line, num, patterns, patterns.len() as int, flags)
    } else {
        encode_utf8(grep_prefix(num, flags)) + line_bytes(line)
    }
}

fn line_has_word(line: &str, word: &str) -> (r: bool)
    ensures
        r == has_word(line@, 0, Seq::empty(), word@),
{
    let chars = chars_of(line);
    let mut cur = String::new();
    let mut i: usize = 0;
    assert(cur@ =~= Seq::empty());
    while i < chars.len()
        invariant
            i <= chars@.len(),
            chars@ == line@,
            has_word(line@, 0, Seq::empty(), word@) == has_word(line@, i as int, cur@, word@),
        decreases chars@.len() - i,
    {
        let c: char = chars[i];
        if char_is_alphanumeric(c) || c == '_' {
            cur.push(c);
        } else {
            if str_eq(cur.as_str(), word) {
                return true;
            }
            cur = String::new();
            assert(cur@ =~= Seq::empty());
        }
        i = i + 1;
    }
    str_eq(cur.as_str(), word)
}

fn line_contains(line: &str, part: &str) -> (r: bool)
    ensures
        r == (find_chars(line@, part@, 0) is Some),
{
    find_in(&chars_of(line), &chars_of(part), 0).is_some()
}

fn streaming_grep_match_single(line: &str, pattern: &str, flags: &StreamingGrepFlags) -> (r: bool)
    requires
        flags.word_match || flags.fixed || posix_returns(encode_utf8(pattern@)),
    ensures
        r == grep_single(line@, pattern@, *flags),
{
    if flags.word_match {
        return line_has_word(line, pattern);
    }
    if flags.fixed {
        return line_contains(line, pattern);
    }
    match posix_match(pattern, line) {
        Some(found) => found,
        None => line_contains(line, pattern),
    }
}

fn fold(s: &str, flags: &StreamingGrepFlags) -> (r: String)
    ensures
        r@ == folded(s@, *flags),
{
    if flags.ignore_case {
        to_lowercase(s)
    } else {
        s.to_owned()
    }
}

fn alternatives(pattern: &str, flags: &StreamingGrepFlags) -> (r: Vec<String>)
    ensures
        strs(r@) == grep_alternatives(pattern@, *flags),
{
    broadcast use crate::views::lemma_strs_push;

    let p = fold(pattern, flags);
    let mut r: Vec<String> = Vec::new();
    if flags.extended && contains_char(p.as_str(), '|') {
        let parts = split_char(p.as_str(), '|');
        let ghost want = grep_alternatives(pattern@, *flags);
        let mut i: usize = 0;
        assert(strs(r@) =~= want.take(0));
        while i < parts.len()
            invariant
                i <= parts@.len(),
                want == strs(parts@).map_values(|a: Seq<char>| trimmed(a)),
                strs(r@) == want.take(i as int),
            decreases parts@.len() - i,
        {
            r.push(trim(parts[i].as_str()));
            assert(want.take(i + 1) =~= want.take(i as int).push(want[i as int]));
            i = i + 1;
        }
        assert(want.take(i as int) =~= want);
    } else {
        r.push(p);
        assert(strs(r@) =~= grep_alternatives(pattern@, *flags));
    }
    r
}

fn streaming_grep_match_pattern(line: &str, pattern: &str, flags: &StreamingGrepFlags) -> (r: bool)
    requires
        grep_pattern_returns(pattern@, *flags),
    ensures
        r == grep_pattern(line@, pattern@, *flags),
{
    let l = fold(line, flags);
    let alts = alternatives(pattern, flags);
    let ghost all = grep_alternatives(pattern@, *flags);
    let mut i: usize = 0;
    while i < alts.len()
        invariant
            i <= alts@.len(),
            all == strs(alts@),
            all == grep_alternatives(pattern@, *flags),
            l@ == folded(line@, *flags),
            grep_pattern_returns(pattern@, *flags),
            forall|k: int| 0 <= k < i ==> !grep_single(l@, #[trigger] all[k], *flags),
        decreases alts@.len() - i,
    {
        assert(all[i as int] == alts@[i as int]@);
        if streaming_grep_match_single(l.as_str(), alts[i].as_str(), flags) {
            return true;
        }
        i = i + 1;
    }
    false
}

/// Whether `grep` selects a line.
pub fn streaming_grep_line_matches(
    line: &str,
    flags: &StreamingGrepFlags,
    patterns: &Vec<String>,
) -> (r: bool)
    requires
        grep_returns(strs(patterns@), *flags),
    ensures
        r == grep_selects(line@, strs(patterns@), *flags),
{
    let ghost all = strs(patterns@);
    let mut matched: bool = false;
    let mut i: usize = 0;
    while i < patterns.len() && !matched
        invariant
            i <= patterns@.len(),
            all == strs(patterns@),
            grep_returns(all, *flags),
            matched ==> exists|k: int|
                0 <= k < all.len() && grep_pattern(line@, #[trigger] all[k], *flags),
            !matched ==> forall|k: int|
                0 <= k < i ==> !grep_pattern(line@, #[trigger] all[k], *flags),
        decreases patterns@.len() - i,
    {
        assert(all[i as int] == patterns@[i as int]@);
        if streaming_grep_match_pattern(line, patterns[i].as_str(), flags) {
            assert(grep_pattern(line@, all[i as int], *flags));
            matched = true;
        }
        i = i + 1;
    }
    matched != flags.invert
}

/// Whether matching with the patterns always comes to an end.
pub fn grep_patterns_return(patterns: &Vec<String>, flags: &StreamingGrepFlags) -> (r: bool)
    ensures
        r == grep_returns(strs(patterns@), *flags),
{
    let ghost all = strs(patterns@);
    if flags.word_match || flags.fixed {
        return true;
    }
    let mut i: usize = 0;
    while i < patterns.len()
        invariant
            i <= patterns@.len(),
            all == strs(patterns@),
            !flags.word_match && !flags.fixed,
            forall|k: int| 0 <= k < i ==> grep_pattern_returns(#[trigger] all[k], *flags),
        decreases patterns@.len() - i,
    {
        assert(all[i as int] == patterns@[i as int]@);
        let alts = alternatives(patterns[i].as_str(), flags);
        let ghost a = strs(alts@);
        let mut k: usize = 0;
        while k < alts.len()
            invariant
                k <= alts@.len(),
                a == strs(alts@),
                all == strs(patterns@),
                i < all.len(),
                !flags.word_match && !flags.fixed,
                a == grep_alternatives(all[i as int], *flags),
                forall|j: int| 0 <= j < k ==> posix_returns(encode_utf8(#[trigger] a[j])),
            decreases alts@.len() - k,
        {
            assert(a[k as int] == alts@[k as int]@);
            if !posix_pattern_returns(alts[k].as_str()) {
                assert(!grep_pattern_returns(all[i as int], *flags));
                return false;
            }
            k = k + 1;
        }
        i = i + 1;
    }
    true
}

fn byte_is_alnum(b: u8) -> (r: bool)
    ensures
        r == is_ascii_alnum(b),
{
    (b >= 0x30 && b <= 0x39) || (b >= 0x41 && b <= 0x5a) || (b >= 0x61 && b <= 0x7a)
}

/// Finds the byte span of a pattern.
pub fn streaming_grep_find_match(line: &str, pattern: &str, flags: &StreamingGrepFlags) -> (r:
    Option<(usize, usize)>)
    ensures
        match r {
            Some((a, b)) => grep_found(line@, pattern@, *flags) == Some((a as int, b as int)) && a
                <= b <= encode_utf8(folded(line@, *flags)).len(),
            None => grep_found(line@, pattern@, *flags) is None,
        },
{
    let l = fold(line, flags);
    let p = fold(pattern, flags);
    let lb = l.as_str().as_bytes();
    let pb = p.as_str().as_bytes();
    match literal_match_range(lb, pb, false, false) {
        None => None,
        Some((start, end)) => {
            if flags.word_match {
                if start > 0 && byte_is_alnum(lb[start - 1]) {
                    return None;
                }
                if end < lb.len() && byte_is_alnum(lb[end]) {
                    return None;
                }
            }
            Some((start, end))
        },
    }
}

/// Whether what is found of the patterns can be cut out of the line.
fn line_prints(line: &str, patterns: &Vec<String>, flags: &StreamingGrepFlags) -> (r: bool)
    ensures
        r == grep_prints(line@, strs(patterns@), *flags),
{
    let ghost all = strs(patterns@);
    if !flags.only_matching || !flags.ignore_case {
        return true;
    }
    let n: usize = line.as_bytes().len();
    let mut i: usize = 0;
    while i < patterns.len()
        invariant
            i <= patterns@.len(),
            all == strs(patterns@),
            n == encode_utf8(line@).len(),
            flags.only_matching && flags.ignore_case,
            forall|k: int| 0 <= k < i ==> grep_cuts(line@, #[trigger] all[k], *flags),
        decreases patterns@.len() - i,
    {
        assert(all[i as int] == patterns@[i as int]@);
        if let Some((a, b)) = streaming_grep_find_match(line, patterns[i].as_str(), flags) {
            if b > n || !line.is_char_boundary(a) || !line.is_char_boundary(b) {
                assert(!grep_cuts(line@, all[i as int], *flags));
                return false;
            }
        }
        i = i + 1;
    }
    true
}

/// Prints a line.
pub fn emit_streaming_grep_one(
    output: &mut Vec<u8>,
    line: &str,
    line_num: usize,
    flags: &StreamingGrepFlags,
    patterns: &Vec<String>,
)
    requires
        grep_prints(line@, strs(patterns@), *flags),
    ensures
        final(output)@ == old(output)@ + grep_out(
            line@,
            line_num as nat,
            strs(patterns@),
            *flags,
        ),
{
    let ghost before = output@;
    let ghost all = strs(patterns@);
    let mut prefix = String::new();
    let named: bool = match flags.show_filename {
        Some(b) => b,
        None => false,
    };
    if named {
        prefix.append("(standard input):");
    }
    if flags.show_line_numbers {
        prefix.append(u64_to_dec(line_num as u64).as_str());
        prefix.append(":");
    }
    assert(prefix@ =~= grep_prefix(line_num as nat, *flags));
    if flags.only_matching {
        let bytes = line.as_bytes();
        let mut i: usize = 0;
        assert(output@ =~= before + grep_matches_out(line@, line_num as nat, all, 0, *flags));
        while i < patterns.len()
            invariant
                i <= patterns@.len(),
                all == strs(patterns@),
                bytes@ == encode_utf8(line@),
                flags.only_matching,
                grep_prints(line@, all, *flags),
                prefix@ == grep_prefix(line_num as nat, *flags),
                output@ == before + grep_matches_out(
                    line@,
                    line_num as nat,
                    all,
                    i as int,
                    *flags,
                ),
            decreases patterns@.len() - i,
        {
            let ghost now = output@;
            assert(all[i as int] == patterns@[i as int]@);
            assert(grep_cuts(line@, all[i as int], *flags));
            if let Some((a, b)) = streaming_grep_find_match(line, patterns[i].as_str(), flags) {
                emit_str(output, prefix.as_str());
                output.extend_from_slice(vstd::slice::slice_subrange(bytes, a, b));
                output.push(0x0a);
                assert(output@ =~= now + encode_utf8(prefix@) + bytes@.subrange(
                    a as int,
                    b as int,
                ).push(0x0a));
            }
            assert(output@ =~= before + grep_matches_out(
                line@,
                line_num as nat,
                all,
                i + 1,
                *flags,
            ));
            i = i + 1;
        }
    } else {
        emit_str(output, prefix.as_str());
        emit_line(output, line);
        assert(output@ =~= before + (encode_utf8(prefix@) + line_bytes(line@)));
    }
}

/// `grep`: the lines that match.
pub struct GrepStream {
    pub stage: StreamingGrepStage,
    pub match_count: u64,
    pub found: bool,
    pub remaining_after: usize,
    pub printed_separator: bool,
    pub before_buf: VecDeque<(usize, String)>,
    pub line_num: usize,
    pub finished: bool,
}

/// The state of `grep`.
pub struct GrepModel {
    pub flags: StreamingGrepFlags,
    pub patterns: Seq<Seq<char>>,
    pub match_count: nat,
    pub found: bool,
    pub remaining_after: nat,
    pub printed_separator: bool,
    /// The lines that may be printed before the next match, with their numbers.
    pub before: Seq<(nat, Seq<char>)>,
    pub line_num: nat,
    pub finished: bool,
}

/// `grep` before its first line.
pub open spec fn grep_start(flags: StreamingGrepFlags, patterns: Seq<Seq<char>>) -> GrepModel {
    GrepModel {
        flags,
        patterns,
        match_count: 0,
        found: false,
        remaining_after: 0,
        printed_separator: false,
        before: Seq::empty(),
        line_num: 0,
        finished: false,
    }
}

/// What is printed of the first `n` lines that were kept.
pub open spec fn before_out(m: GrepModel, n: int) -> Seq<u8>
    decreases n,
{
    if n <= 0 {
        Seq::empty()
    } else {
        before_out(m, n - 1) + grep_out(m.before[n - 1].1, m.before[n - 1].0, m.patterns, m.flags)
    }
}

/// What is printed when a line is selected: the lines kept before it, after a separator where
/// something was printed already, and the line.
pub open spec fn grep_match_out(m: GrepModel, line: Seq<char>) -> Seq<u8> {
    (if m.before.len() > 0 {
        (if m.printed_separator {
            seq![0x2du8, 0x2du8, 0x0au8]
        } else {
            Seq::empty()
        }) + before_out(m, m.before.len() as int)
    } else {
        Seq::empty()
    }) + grep_out(line, m.line_num + 1, m.patterns, m.flags)
}

/// Whether selected lines are printed.
pub open spec fn grep_shows(f: StreamingGrepFlags) -> bool {
    !f.quiet && !f.files_only && !f.count_only
}

/// The line of the count.
pub open spec fn grep_count_line(m: GrepModel) -> Seq<u8> {
    line_bytes(
        (if m.flags.show_filename == Some(true) {
            "(standard input):"@
        } else {
            Seq::empty()
        }) + dec(m.match_count),
    )
}

impl GrepStream {
    /// `grep` before its first line.
    pub fn new(stage: StreamingGrepStage) -> (r: GrepStream)
        ensures
            r.line_model() == grep_start(stage.flags, strs(stage.patterns@)),
            GrepStream::line_within(r.line_model(), 0),
    {
        let r = GrepStream {
            stage,
            match_count: 0,
            found: false,
            remaining_after: 0,
            printed_separator: false,
            before_buf: VecDeque::new(),
            line_num: 0,
            finished: false,
        };
        assert(r.line_model().before =~= Seq::empty());
        r
    }

    /// The exit status: zero once a line was selected.
    pub fn status(&self) -> (r: i32)
        ensures
            r == if self.found {
                0int
            } else {
                1
            },
    {
        if self.found {
            0
        } else {
            1
        }
    }

    fn flush_before_context(&mut self, out: &mut Vec<u8>)
        requires
            forall|i: int|
                0 <= i < old(self).before_buf@.len() ==> grep_prints(
                    (#[trigger] old(self).before_buf@[i]).1@,
                    strs(old(self).stage.patterns@),
                    old(self).stage.flags,
                ),
        ensures
            final(self).before_buf@.len() == 0,
            final(self).stage == old(self).stage,
            final(self).match_count == old(self).match_count,
            final(self).found == old(self).found,
            final(self).remaining_after == old(self).remaining_after,
            final(self).printed_separator == old(self).printed_separator,
            final(self).line_num == old(self).line_num,
            final(self).finished == old(self).finished,
            ({
                let m = old(self).line_model();
                final(out)@ == old(out)@ + (if m.before.len() > 0 {
                    (if m.printed_separator {
                        seq![0x2du8, 0x2du8, 0x0au8]
                    } else {
                        Seq::empty()
                    }) + before_out(m, m.before.len() as int)
                } else {
                    Seq::empty()
                })
            }),
    {
        let ghost m = self.line_model();
        let ghost start = out@;
        if self.before_buf.len() > 0 {
            let ghost sep = if m.printed_separator {
                seq![0x2du8, 0x2du8, 0x0au8]
            } else {
                Seq::<u8>::empty()
            };
            if self.printed_separator {
                out.push(0x2d);
                out.push(0x2d);
                out.push(0x0a);
            }
            assert(out@ =~= start + (sep + before_out(m, 0)));
            let mut i: usize = 0;
            while i < self.before_buf.len()
                invariant
                    i <= self.before_buf@.len(),
                    *self == *old(self),
                    m == self.line_model(),
                    forall|i: int|
                        0 <= i < self.before_buf@.len() ==> grep_prints(
                            (#[trigger] self.before_buf@[i]).1@,
                            strs(self.stage.patterns@),
                            self.stage.flags,
                        ),
                    out@ == start + (sep + before_out(m, i as int)),
                decreases self.before_buf@.len() - i,
            {
                let entry: &(usize, String) = &self.before_buf[i];
                assert(m.before[i as int] == (entry.0 as nat, entry.1@));
                emit_streaming_grep_one(
                    out,
                    entry.1.as_str(),
                    entry.0,
                    &self.stage.flags,
                    &self.stage.patterns,
                );
                assert(out@ =~= start + (sep + before_out(m, i + 1)));
                i = i + 1;
            }
        } else {
            assert(out@ =~= start + Seq::<u8>::empty());
        }
        self.before_buf.clear();
    }

    /// Whether the largest number of matches is reached.
    fn should_stop_for_max_count(&self) -> (r: bool)
        ensures
            r == (self.stage.flags.max_count matches Some(max) && self.match_count >= max),
    {
        match self.stage.flags.max_count {
            Some(max) => self.match_count >= max as u64,
            None => false,
        }
    }
}

impl LineStage for GrepStream {
    type L = GrepModel;

    open spec fn line_model(&self) -> GrepModel {
        GrepModel {
            flags: self.stage.flags,
            patterns: strs(self.stage.patterns@),
            match_count: self.match_count as nat,
            found: self.found,
            remaining_after: self.remaining_after as nat,
            printed_separator: self.printed_separator,
            before: self.before_buf@.map_values(|e: (usize, String)| (e.0 as nat, e.1@)),
            line_num: self.line_num as nat,
            finished: self.finished,
        }
    }

    open spec fn line_next(m: GrepModel, line: Seq<char>) -> GrepModel {
        let num = m.line_num + 1;
        if grep_selects(line, m.patterns, m.flags) {
            let count = m.match_count + 1;
            let counted = GrepModel {
                line_num: num,
                match_count: count,
                found: true,
                finished: m.flags.max_count matches Some(max) && count >= max,
                ..m
            };
            if grep_shows(m.flags) {
                GrepModel {
                    before: Seq::empty(),
                    remaining_after: m.flags.after_context as nat,
                    printed_separator: true,
                    ..counted
                }
            } else {
                counted
            }
        } else if m.remaining_after > 0 && !m.flags.count_only {
            GrepModel { line_num: num, remaining_after: (m.remaining_after - 1) as nat, ..m }
        } else if m.flags.before_context > 0 {
            let kept = m.before.push((num, line));
            GrepModel {
                line_num: num,
                before: if kept.len() > m.flags.before_context {
                    kept.drop_first()
                } else {
                    kept
                },
                ..m
            }
        } else {
            GrepModel { line_num: num, ..m }
        }
    }

    open spec fn line_out(m: GrepModel, line: Seq<char>) -> Seq<u8> {
        if grep_selects(line, m.patterns, m.flags) {
            if grep_shows(m.flags) {
                grep_match_out(m, line)
            } else {
                Seq::empty()
            }
        } else if m.remaining_after > 0 && !m.flags.count_only {
            grep_out(line, m.line_num + 1, m.patterns, m.flags)
        } else {
            Seq::empty()
        }
    }

    open spec fn line_tail(m: GrepModel) -> Seq<u8> {
        if m.flags.count_only && !m.flags.quiet && !(m.finished && m.flags.files_only) {
            grep_count_line(m)
        } else {
            Seq::empty()
        }
    }

    open spec fn line_done(m: GrepModel) -> bool {
        m.finished
    }

    open spec fn line_safe(m: GrepModel, line: Seq<char>) -> bool {
        &&& grep_returns(m.patterns, m.flags)
        &&& grep_selects(line, m.patterns, m.flags) && grep_shows(m.flags) ==> {
            &&& grep_prints(line, m.patterns, m.flags)
            &&& forall|i: int|
                0 <= i < m.before.len() ==> grep_prints(
                    (#[trigger] m.before[i]).1,
                    m.patterns,
                    m.flags,
                )
        }
        &&& !grep_selects(line, m.patterns, m.flags) && m.remaining_after > 0
            && !m.flags.count_only ==> grep_prints(line, m.patterns, m.flags)
    }

    open spec fn tail_safe(m: GrepModel) -> bool {
        true
    }

    open spec fn line_within(m: GrepModel, n: nat) -> bool {
        &&& m.line_num <= n
        &&& m.match_count <= n
        &&& m.before.len() <= n
    }

    proof fn lemma_line_within(m: GrepModel, n: nat, k: nat) {
    }

    fn take_line(&mut self, line: String, out: &mut Vec<u8>, Ghost(n): Ghost<nat>) {
        let ghost m = self.line_model();
        let ghost start = out@;
        self.line_num = self.line_num + 1;
        let selected: bool = streaming_grep_line_matches(
            line.as_str(),
            &self.stage.flags,
            &self.stage.patterns,
        );
        if selected {
            self.found = true;
            self.match_count = self.match_count + 1;
            if !self.stage.flags.quiet && !self.stage.flags.files_only
                && !self.stage.flags.count_only {
                proof {
                    assert forall|i: int| 0 <= i < self.before_buf@.len() implies grep_prints(
                        (#[trigger] self.before_buf@[i]).1@,
                        strs(self.stage.patterns@),
                        self.stage.flags,
                    ) by {
                        assert(m.before[i].1 == self.before_buf@[i].1@);
                    }
                    assert(before_same(m, self.line_model()));
                    lemma_before_same(m, self.line_model(), m.before.len() as int);
                }
                self.flush_before_context(out);
                emit_streaming_grep_one(
                    out,
                    line.as_str(),
                    self.line_num,
                    &self.stage.flags,
                    &self.stage.patterns,
                );
                self.remaining_after = self.stage.flags.after_context;
                self.printed_separator = true;
                assert(out@ =~= start + grep_match_out(m, line@));
                assert(self.line_model().before =~= Seq::empty());
            } else {
                assert(out@ =~= start + Seq::<u8>::empty());
            }
            if self.should_stop_for_max_count() {
                self.finished = true;
            }
        } else if self.remaining_after > 0 && !self.stage.flags.count_only {
            emit_streaming_grep_one(
                out,
                line.as_str(),
                self.line_num,
                &self.stage.flags,
                &self.stage.patterns,
            );
            self.remaining_after = self.remaining_after - 1;
        } else if self.stage.flags.before_context > 0 {
            let ghost old_buf = self.before_buf@;
            let entry: (usize, String) = (self.line_num, line);
            self.before_buf.push_back(entry);
            assert(self.line_model().before =~= m.before.push((self.line_num as nat, line@)));
            if self.before_buf.len() > self.stage.flags.before_context {
                self.before_buf.pop_front();
                assert(self.line_model().before =~= m.before.push(
                    (self.line_num as nat, line@),
                ).drop_first());
            }
            assert(out@ =~= start + Seq::<u8>::empty());
        } else {
            assert(out@ =~= start + Seq::<u8>::empty());
        }
    }

    fn take_last(&mut self, out: &mut Vec<u8>, Ghost(n): Ghost<nat>) {
        if self.stage.flags.count_only && !self.stage.flags.quiet && !(self.finished
            && self.stage.flags.files_only) {
            let named: bool = match self.stage.flags.show_filename {
                Some(b) => b,
                None => false,
            };
            let mut s = String::new();
            if named {
                s.append("(standard input):");
            }
            s.append(u64_to_dec(self.match_count).as_str());
            assert(s@ =~= (if named {
                "(standard input):"@
            } else {
                Seq::empty()
            }) + dec(self.match_count as nat));
            emit_line(out, s.as_str());
        } else {
            assert(out@ + Seq::<u8>::empty() =~= out@);
        }
        assert(Self::line_status(self.line_model()) == Self::line_status(
            old(self).line_model(),
        ));
    }

    open spec fn line_status(m: GrepModel) -> i32 {
        if m.found {
            0
        } else {
            1
        }
    }

    fn line_status_now(&self) -> (r: i32) {
        self.status()
    }

    fn is_line_done(&self) -> (r: bool) {
        self.finished
    }

    fn can_take_line(&self, line: &str) -> (r: bool) {
        let ghost m = self.line_model();
        if !grep_patterns_return(&self.stage.patterns, &self.stage.flags) {
            return false;
        }
        let selected: bool = streaming_grep_line_matches(
            line,
            &self.stage.flags,
            &self.stage.patterns,
        );
        let shown: bool = !self.stage.flags.quiet && !self.stage.flags.files_only
            && !self.stage.flags.count_only;
        if selected && shown {
            if !line_prints(line, &self.stage.patterns, &self.stage.flags) {
                return false;
            }
            let mut i: usize = 0;
            while i < self.before_buf.len()
                invariant
                    i <= self.before_buf@.len(),
                    m == self.line_model(),
                    grep_returns(m.patterns, m.flags),
                    grep_selects(line@, m.patterns, m.flags) && grep_shows(m.flags),
                    forall|k: int|
                        0 <= k < i ==> grep_prints((#[trigger] m.before[k]).1, m.patterns, m.flags),
                decreases self.before_buf@.len() - i,
            {
                let entry: &(usize, String) = &self.before_buf[i];
                assert(m.before[i as int].1 == entry.1@);
                if !line_prints(entry.1.as_str(), &self.stage.patterns, &self.stage.flags) {
                    assert(!grep_prints(m.before[i as int].1, m.patterns, m.flags));
                    return false;
                }
                i = i + 1;
            }
            true
        } else if !selected && self.remaining_after > 0 && !self.stage.flags.count_only {
            line_prints(line, &self.stage.patterns, &self.stage.flags)
        } else {
            true
        }
    }

    fn can_take_last(&self, line: Option<&str>) -> (r: bool) {
        true
    }
}

spec fn before_same(a: GrepModel, b: GrepModel) -> bool {
    a.before == b.before && a.patterns == b.patterns && a.flags == b.flags && a.printed_separator
        == b.printed_separator
}

proof fn lemma_before_same(a: GrepModel, b: GrepModel, n: int)
    requires
        before_same(a, b),
    ensures
        before_out(a, n) == before_out(b, n),
    decreases n,
{
    if n > 0 {
        lemma_before_same(a, b, n - 1);
    }
}

/// Inverting the selection selects exactly the lines that were not selected.
pub proof fn law_invert_selects_the_others(
    line: Seq<char>,
    patterns: Seq<Seq<char>>,
    a: StreamingGrepFlags,
    b: StreamingGrepFlags,
)
    requires
        b == (StreamingGrepFlags { invert: !a.invert, ..a }),
    ensures
        grep_selects(line, patterns, b) == !grep_selects(line, patterns, a),
{
    assert forall|i: int| 0 <= i < patterns.len() implies grep_pattern(
        line,
        #[trigger] patterns[i],
        a,
    ) == grep_pattern(line, patterns[i], b) by {
        let x = grep_alternatives(patterns[i], a);
        assert(x == grep_alternatives(patterns[i], b));
        assert forall|k: int| 0 <= k < x.len() implies grep_single(
            folded(line, a),
            #[trigger] x[k],
            a,
        ) == grep_single(folded(line, b), x[k], b) by {}
        if grep_pattern(line, patterns[i], a) {
            let k = choose|k: int|
                0 <= k < x.len() && grep_single(folded(line, a), #[trigger] x[k], a);
            assert(grep_single(folded(line, b), x[k], b));
        }
        if grep_pattern(line, patterns[i], b) {
            let k = choose|k: int|
                0 <= k < x.len() && grep_single(folded(line, b), #[trigger] x[k], b);
            assert(grep_single(folded(line, a), x[k], a));
        }
    }
    if exists|i: int| 0 <= i < patterns.len() && grep_pattern(line, #[trigger] patterns[i], a) {
        let i = choose|i: int|
            0 <= i < patterns.len() && grep_pattern(line, #[trigger] patterns[i], a);
        assert(grep_pattern(line, patterns[i], b));
    }
}

/// `grep` succeeds exactly when it selects a line.
pub proof fn law_grep_succeeds_on_a_selected_line(m: GrepModel, lines: Seq<Seq<char>>)
    requires
        !m.found,
        !m.finished,
    ensures
        (lines_status::<GrepStream>(m, lines) == 0) == (exists|i: int|
            0 <= i < lines.len() && grep_selects(#[trigger] lines[i], m.patterns, m.flags)),
    decreases lines.len(),
{
    if lines.len() > 0 {
        let next = <GrepStream as LineStage>::line_next(m, lines[0]);
        let rest = lines.skip(1);
        if grep_selects(lines[0], m.patterns, m.flags) {
            lemma_found_stays(next, rest);
        } else {
            law_grep_succeeds_on_a_selected_line(next, rest);
            if exists|i: int|
                0 <= i < lines.len() && grep_selects(#[trigger] lines[i], m.patterns, m.flags) {
                let i = choose|i: int|
                    0 <= i < lines.len() && grep_selects(#[trigger] lines[i], m.patterns, m.flags);
                assert(rest[i - 1] == lines[i]);
                assert(grep_selects(rest[i - 1], m.patterns, m.flags));
            }
            if exists|i: int|
                0 <= i < rest.len() && grep_selects(#[trigger] rest[i], m.patterns, m.flags) {
                let i = choose|i: int|
                    0 <= i < rest.len() && grep_selects(#[trigger] rest[i], m.patterns, m.flags);
                assert(lines[i + 1] == rest[i]);
                assert(grep_selects(lines[i + 1], m.patterns, m.flags));
            }
        }
    }
}

proof fn lemma_found_stays(m: GrepModel, lines: Seq<Seq<char>>)
    requires
        m.found,
    ensures
        lines_status::<GrepStream>(m, lines) == 0,
    decreases lines.len(),
{
    if lines.len() > 0 && !m.finished {
        lemma_found_stays(<GrepStream as LineStage>::line_next(m, lines[0]), lines.skip(1));
    }
}

/// Whether `grep` just prints the lines that it selects.
pub open spec fn prints_lines(f: StreamingGrepFlags) -> bool {
    &&& grep_shows(f)
    &&& !f.only_matching
    &&& !f.show_line_numbers
    &&& f.after_context == 0
    &&& f.before_context == 0
    &&& f.max_count is None
    &&& f.show_filename != Some(true)
}

/// The selected lines, each with its newline.
pub open spec fn selected_lines(
    lines: Seq<Seq<char>>,
    patterns: Seq<Seq<char>>,
    flags: StreamingGrepFlags,
) -> Seq<u8>
    decreases lines.len(),
{
    if lines.len() == 0 {
        Seq::empty()
    } else {
        (if grep_selects(lines[0], patterns, flags) {
            line_bytes(lines[0])
        } else {
            Seq::empty()
        }) + selected_lines(lines.skip(1), patterns, flags)
    }
}

/// `grep` without options of its output writes exactly the selected lines, in order; with `-F` those
/// are the lines in which a pattern occurs.
pub proof fn law_grep_writes_the_selected_lines(m: GrepModel, lines: Seq<Seq<char>>)
    requires
        prints_lines(m.flags),
        !m.finished,
        m.before.len() == 0,
        m.remaining_after == 0,
    ensures
        run_lines::<GrepStream>(m, lines) == selected_lines(lines, m.patterns, m.flags),
    decreases lines.len(),
{
    if lines.len() > 0 {
        let line = lines[0];
        let next = <GrepStream as LineStage>::line_next(m, line);
        law_grep_writes_the_selected_lines(next, lines.skip(1));
        if grep_selects(line, m.patterns, m.flags) {
            let none = Seq::<char>::empty();
            assert(grep_prefix(m.line_num + 1, m.flags) =~= none);
            vstd::utf8::is_ascii_chars_encode_utf8(none);
            assert(encode_utf8(none) =~= Seq::<u8>::empty());
            assert(<GrepStream as LineStage>::line_out(m, line) =~= line_bytes(line));
        }
    }
}

} // verus!
