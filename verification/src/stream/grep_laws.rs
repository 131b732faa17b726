//! Which lines `grep` selects, and how it writes them.
use crate::stream::grep::{
    before_out, grep_alternatives, grep_found, grep_matches_out, grep_out, grep_pattern,
    grep_prefix, grep_selects, grep_shows, grep_single, grep_start, has_word, is_word_char, folded,
    GrepModel, GrepStream, StreamingGrepFlags,
};
use crate::stream::lines::{line_bytes, run_lines, LineStage};
use crate::stream::sed::all_lines;
use crate::stream::sed_laws::within;
use crate::text::{dec, trimmed};
use crate::text_laws::{law_joined_words_split_again, law_search_finds_the_first, occurs_at};
use vstd::prelude::*;
use vstd::utf8::encode_utf8;

verus! {

/// Whether a pattern is looked for as it is: as a substring, with regard to case.
pub open spec fn looks_for_text(f: StreamingGrepFlags) -> bool {
    f.fixed && !f.word_match && !f.ignore_case && !f.extended
}

/// `grep -F` selects the lines in which one of the patterns occurs, and with `-v` the others.
pub proof fn law_fixed_patterns(
    line: Seq<char>,
    patterns: Seq<Seq<char>>,
    flags: StreamingGrepFlags,
)
    requires
        looks_for_text(flags),
    ensures
        grep_selects(line, patterns, flags) == ((exists|k: int, i: int|
            0 <= k < patterns.len() && #[trigger] occurs_at(line, patterns[k], i)) != flags.invert),
{
    assert forall|k: int| 0 <= k < patterns.len() implies grep_pattern(
        line,
        #[trigger] patterns[k],
        flags,
    ) == exists|i: int| #[trigger] occurs_at(line, patterns[k], i) by {
        let p = patterns[k];
        let alts = grep_alternatives(p, flags);
        assert(alts == seq![p]);
        assert(alts[0] == p);
        law_search_finds_the_first(line, p, 0);
    }
    if exists|k: int, i: int|
        0 <= k < patterns.len() && #[trigger] occurs_at(line, patterns[k], i) {
        let (k, i) = choose|k: int, i: int|
            0 <= k < patterns.len() && #[trigger] occurs_at(line, patterns[k], i);
        assert(grep_pattern(line, patterns[k], flags));
    }
    if exists|k: int| 0 <= k < patterns.len() && grep_pattern(line, #[trigger] patterns[k], flags) {
        let k = choose|k: int|
            0 <= k < patterns.len() && grep_pattern(line, #[trigger] patterns[k], flags);
        let i = choose|i: int| #[trigger] occurs_at(line, patterns[k], i);
        assert(occurs_at(line, patterns[k], i));
    }
}

/// Whether a word stands by itself at a position: no part of a word is next to it.
pub open spec fn stands_alone(s: Seq<char>, w: Seq<char>, i: int) -> bool {
    &&& occurs_at(s, w, i)
    &&& i > 0 ==> !is_word_char(s[i - 1])
    &&& i + w.len() < s.len() ==> !is_word_char(s[(i + w.len()) as int])
}

proof fn lemma_has_word(s: Seq<char>, i: int, cur: Seq<char>, w: Seq<char>)
    requires
        0 <= i <= s.len(),
        cur.len() <= i,
        s.subrange(i - cur.len(), i) == cur,
        forall|k: int| 0 <= k < cur.len() ==> is_word_char(#[trigger] cur[k]),
        i - cur.len() > 0 ==> !is_word_char(s[i - cur.len() - 1]),
        w.len() > 0,
        forall|k: int| 0 <= k < w.len() ==> is_word_char(#[trigger] w[k]),
    ensures
        has_word(s, i, cur, w) <==> exists|j: int| j >= i - cur.len() && #[trigger] stands_alone(s, w, j),
    decreases s.len() - i,
{
    let a = i - cur.len();
    if i >= s.len() {
        if cur == w {
            assert(stands_alone(s, w, a));
        }
        if exists|j: int| j >= a && #[trigger] stands_alone(s, w, j) {
            let j = choose|j: int| j >= a && #[trigger] stands_alone(s, w, j);
            if j > a {
                assert(s[j - 1] == cur[j - 1 - a]);
            }
            assert(j == a);
            if w.len() < cur.len() {
                assert(s[(a + w.len()) as int] == cur[w.len() as int]);
            }
            assert(w =~= cur);
        }
    } else if is_word_char(s[i]) {
        let next = cur.push(s[i]);
        assert(s.subrange(i + 1 - next.len(), i + 1) =~= next);
        assert forall|k: int| 0 <= k < next.len() implies is_word_char(#[trigger] next[k]) by {
            if k < cur.len() {
                assert(next[k] == cur[k]);
            }
        }
        lemma_has_word(s, i + 1, next, w);
    } else {
        let none = Seq::<char>::empty();
        assert(s.subrange(i + 1, i + 1) =~= none);
        lemma_has_word(s, i + 1, none, w);
        if cur == w {
            assert(stands_alone(s, w, a));
        }
        if exists|j: int| j >= i + 1 && #[trigger] stands_alone(s, w, j) {
            let j = choose|j: int| j >= i + 1 && #[trigger] stands_alone(s, w, j);
            assert(j >= a);
        }
        if exists|j: int| j >= a && #[trigger] stands_alone(s, w, j) {
            let j = choose|j: int| j >= a && #[trigger] stands_alone(s, w, j);
            if j <= i {
                if j == i {
                    assert(s.subrange(j, j + w.len())[0] == s[i]);
                    assert(is_word_char(w[0]));
                }
                if j > a {
                    assert(s[j - 1] == cur[j - 1 - a]);
                }
                assert(j == a);
                if w.len() < cur.len() {
                    assert(s[(a + w.len()) as int] == cur[w.len() as int]);
                }
                if w.len() > cur.len() {
                    assert(s.subrange(j, j + w.len())[i - j] == s[i]);
                    assert(is_word_char(w[i - j]));
                }
                assert(w =~= cur);
            }
        }
    }
}

/// `grep -w` selects the lines in which a pattern that is a word stands by itself.
pub proof fn law_whole_words(line: Seq<char>, word: Seq<char>, flags: StreamingGrepFlags)
    requires
        flags.word_match && !flags.ignore_case && !flags.extended,
        word.len() > 0,
        forall|k: int| 0 <= k < word.len() ==> is_word_char(#[trigger] word[k]),
    ensures
        grep_selects(line, seq![word], flags) == ((exists|i: int| #[trigger]
            stands_alone(line, word, i)) != flags.invert),
{
    let none = Seq::<char>::empty();
    assert(line.subrange(0, 0) =~= none);
    lemma_has_word(line, 0, none, word);
    let alts = grep_alternatives(word, flags);
    assert(alts == seq![word]);
    assert(alts[0] == word);
    let all = seq![word];
    assert(all[0] == word);
    if exists|i: int| #[trigger] stands_alone(line, word, i) {
        let i = choose|i: int| #[trigger] stands_alone(line, word, i);
        assert(i >= 0);
        assert(grep_pattern(line, all[0], flags));
    }
    if exists|k: int| 0 <= k < all.len() && grep_pattern(line, #[trigger] all[k], flags) {
        let k = choose|k: int| 0 <= k < all.len() && grep_pattern(line, #[trigger] all[k], flags);
        assert(all[k] == word);
    }
}

/// With `-E` a line matches `a|b` where it matches one of the two, without the white space around
/// them.
pub proof fn law_alternatives(
    line: Seq<char>,
    a: Seq<char>,
    b: Seq<char>,
    flags: StreamingGrepFlags,
)
    requires
        flags.extended,
        !flags.ignore_case,
        !a.contains('|') && !b.contains('|'),
        !trimmed(a).contains('|') && !trimmed(b).contains('|'),
    ensures
        grep_pattern(line, a + seq!['|'] + b, flags) <==> grep_pattern(line, trimmed(a), flags)
            || grep_pattern(line, trimmed(b), flags),
{
    let p = a + seq!['|'] + b;
    let parts = seq![a, b];
    assert(parts.drop_last() =~= seq![a]);
    assert(crate::text::joined(seq![a], seq!['|']) == a);
    assert(crate::text::joined(parts, seq!['|']) == p);
    assert forall|i: int| 0 <= i < parts.len() implies !(#[trigger] parts[i]).contains('|') by {}
    law_joined_words_split_again(parts, '|');
    assert(p[a.len() as int] == '|');
    assert(p.contains('|'));
    let alts = grep_alternatives(p, flags);
    assert(alts =~= seq![trimmed(a), trimmed(b)]);
    assert(alts[0] == trimmed(a) && alts[1] == trimmed(b));
    let x = grep_alternatives(trimmed(a), flags);
    let y = grep_alternatives(trimmed(b), flags);
    assert(x == seq![trimmed(a)] && x[0] == trimmed(a));
    assert(y == seq![trimmed(b)] && y[0] == trimmed(b));
    if grep_single(line, trimmed(a), flags) {
        assert(grep_single(folded(line, flags), alts[0], flags));
        assert(grep_single(folded(line, flags), x[0], flags));
    }
    if grep_single(line, trimmed(b), flags) {
        assert(grep_single(folded(line, flags), alts[1], flags));
        assert(grep_single(folded(line, flags), y[0], flags));
    }
}

/// How many of the lines are selected.
pub open spec fn selected_count(
    lines: Seq<Seq<char>>,
    patterns: Seq<Seq<char>>,
    flags: StreamingGrepFlags,
) -> nat
    decreases lines.len(),
{
    if lines.len() == 0 {
        0
    } else {
        selected_count(lines.skip(1), patterns, flags) + if grep_selects(
            lines[0],
            patterns,
            flags,
        ) {
            1nat
        } else {
            0
        }
    }
}

proof fn lemma_count(m: GrepModel, lines: Seq<Seq<char>>)
    requires
        m.flags.count_only,
        !m.flags.quiet && !m.flags.files_only,
        m.flags.max_count is None,
        m.flags.show_filename != Some(true),
        !m.finished,
    ensures
        run_lines::<GrepStream>(m, lines) == line_bytes(
            dec(m.match_count + selected_count(lines, m.patterns, m.flags)),
        ),
    decreases lines.len(),
{
    let none = Seq::<u8>::empty();
    if lines.len() > 0 {
        let next = <GrepStream as LineStage>::line_next(m, lines[0]);
        lemma_count(next, lines.skip(1));
        let r = run_lines::<GrepStream>(next, lines.skip(1));
        assert(none + r =~= r);
    } else {
        let d = dec(m.match_count);
        assert(Seq::<char>::empty() + d =~= d);
    }
}

/// `grep -c` writes the number of selected lines and nothing else.
pub proof fn law_counting(
    flags: StreamingGrepFlags,
    patterns: Seq<Seq<char>>,
    lines: Seq<Seq<char>>,
)
    requires
        flags.count_only,
        !flags.quiet && !flags.files_only,
        flags.max_count is None,
        flags.show_filename != Some(true),
    ensures
        run_lines::<GrepStream>(grep_start(flags, patterns), lines) == line_bytes(
            dec(selected_count(lines, patterns, flags)),
        ),
{
    lemma_count(grep_start(flags, patterns), lines);
}

/// `grep -q` writes nothing.
pub proof fn law_quiet(m: GrepModel, lines: Seq<Seq<char>>)
    requires
        m.flags.quiet,
        m.remaining_after == 0,
    ensures
        run_lines::<GrepStream>(m, lines) == Seq::<u8>::empty(),
    decreases lines.len(),
{
    if lines.len() > 0 && !m.finished {
        let next = <GrepStream as LineStage>::line_next(m, lines[0]);
        law_quiet(next, lines.skip(1));
        assert(Seq::<u8>::empty() + Seq::<u8>::empty() =~= Seq::<u8>::empty());
    }
}

/// Whether `grep` prints the lines that it selects, with their numbers or without, and at most so
/// many, and no others.
pub open spec fn plain_output(f: StreamingGrepFlags) -> bool {
    &&& grep_shows(f)
    &&& !f.only_matching
    &&& f.after_context == 0
    &&& f.before_context == 0
    &&& f.show_filename != Some(true)
}

/// The selected lines with their numbers in front where these are shown, at most `left` of them.
pub open spec fn numbered(
    lines: Seq<Seq<char>>,
    num: nat,
    left: Option<int>,
    patterns: Seq<Seq<char>>,
    flags: StreamingGrepFlags,
) -> Seq<u8>
    decreases lines.len(),
{
    if lines.len() == 0 || (left matches Some(k) && k <= 0) {
        Seq::empty()
    } else if grep_selects(lines[0], patterns, flags) {
        line_bytes(
            if flags.show_line_numbers {
                dec(num) + seq![':'] + lines[0]
            } else {
                lines[0]
            },
        ) + numbered(
            lines.skip(1),
            num + 1,
            match left {
                Some(k) => Some(k - 1),
                None => None,
            },
            patterns,
            flags,
        )
    } else {
        numbered(lines.skip(1), num + 1, left, patterns, flags)
    }
}

proof fn lemma_numbered(m: GrepModel, lines: Seq<Seq<char>>)
    requires
        plain_output(m.flags),
        m.before.len() == 0,
        m.remaining_after == 0,
        m.finished ==> m.flags.max_count is Some && m.match_count >= m.flags.max_count->0,
        !m.finished ==> (m.flags.max_count matches Some(k) ==> m.match_count < k),
    ensures
        run_lines::<GrepStream>(m, lines) == numbered(
            lines,
            m.line_num + 1,
            match m.flags.max_count {
                Some(k) => Some(k - m.match_count),
                None => None,
            },
            m.patterns,
            m.flags,
        ),
    decreases lines.len(),
{
    let none = Seq::<u8>::empty();
    if lines.len() > 0 && !m.finished {
        let line = lines[0];
        let next = <GrepStream as LineStage>::line_next(m, line);
        lemma_numbered(next, lines.skip(1));
        let more = run_lines::<GrepStream>(next, lines.skip(1));
        let nothing = Seq::<char>::empty();
        reveal_strlit(":");
        assert(":"@ =~= seq![':']);
        if grep_selects(line, m.patterns, m.flags) {
            let p = grep_prefix(m.line_num + 1, m.flags);
            crate::text::lemma_utf8_concat(p, line);
            if m.flags.show_line_numbers {
                assert(p =~= dec(m.line_num + 1) + seq![':']);
            } else {
                assert(p =~= nothing);
                assert(nothing + line =~= line);
            }
            assert(encode_utf8(p) + line_bytes(line) =~= line_bytes(p + line));
            assert(none + line_bytes(p + line) =~= line_bytes(p + line));
        } else {
            assert(none + more =~= more);
        }
    }
}

/// `grep` writes the selected lines in their order, `-n` with their numbers in front, and `-m k` not
/// more than `k` of them.
pub proof fn law_numbers_and_limits(
    flags: StreamingGrepFlags,
    patterns: Seq<Seq<char>>,
    lines: Seq<Seq<char>>,
)
    requires
        plain_output(flags),
        flags.max_count != Some(0usize),
    ensures
        run_lines::<GrepStream>(grep_start(flags, patterns), lines) == numbered(
            lines,
            1,
            match flags.max_count {
                Some(k) => Some(k as int),
                None => None,
            },
            patterns,
            flags,
        ),
{
    lemma_numbered(grep_start(flags, patterns), lines);
}

/// `grep -o` writes of each pattern the text that it found, which is the pattern itself, where it
/// occurs.
pub proof fn law_only_what_was_found(
    line: Seq<char>,
    num: nat,
    pattern: Seq<char>,
    flags: StreamingGrepFlags,
)
    requires
        looks_for_text(flags),
        flags.only_matching,
        !flags.show_line_numbers,
        flags.show_filename != Some(true),
    ensures
        grep_out(line, num, seq![pattern], flags) == (match grep_found(line, pattern, flags) {
            Some(_) => line_bytes(pattern),
            None => Seq::empty(),
        }),
        grep_found(line, pattern, flags) is Some <==> exists|i: int|
            0 <= i && #[trigger] crate::pattern::regex_laws::stands_at(
                encode_utf8(line),
                i,
                encode_utf8(pattern),
            ),
{
    let l = encode_utf8(line);
    let p = encode_utf8(pattern);
    let all = seq![pattern];
    let none = Seq::<u8>::empty();
    let nothing = Seq::<char>::empty();
    crate::pattern::regex_laws::lemma_find(l, 0, p);
    assert(all[0] == pattern);
    assert(grep_matches_out(line, num, all, 0, flags) == none);
    assert(grep_prefix(num, flags) =~= nothing);
    assert(encode_utf8(nothing) =~= none);
    if let Some((a, b)) = grep_found(line, pattern, flags) {
        assert(l.subrange(a, b) == p);
        assert(none + none + p.push(0x0a) =~= line_bytes(pattern));
    }
}

proof fn lemma_after(m: GrepModel, post: Seq<Seq<char>>)
    requires
        grep_shows(m.flags) && !m.flags.only_matching && !m.flags.show_line_numbers,
        m.flags.show_filename != Some(true),
        !m.finished,
        forall|i: int|
            0 <= i < post.len() ==> !grep_selects(#[trigger] post[i], m.patterns, m.flags),
    ensures
        run_lines::<GrepStream>(m, post) == all_lines(
            post.take(within(m.remaining_after as int, post.len())),
        ),
    decreases post.len(),
{
    let none = Seq::<u8>::empty();
    let k = within(m.remaining_after as int, post.len());
    if post.len() == 0 {
        assert(post.take(k) =~= post);
    } else {
        let line = post[0];
        let rest = post.skip(1);
        assert(!grep_selects(post[0], m.patterns, m.flags));
        let next = <GrepStream as LineStage>::line_next(m, line);
        assert forall|i: int| 0 <= i < rest.len() implies !grep_selects(
            #[trigger] rest[i],
            next.patterns,
            next.flags,
        ) by {
            assert(rest[i] == post[i + 1]);
        }
        lemma_after(next, rest);
        let nothing = Seq::<char>::empty();
        assert(grep_prefix(m.line_num + 1, m.flags) =~= nothing);
        assert(encode_utf8(nothing) =~= none);
        assert(none + line_bytes(line) =~= line_bytes(line));
        if m.remaining_after > 0 {
            assert(post.take(k)[0] == line);
            assert(post.take(k).skip(1) =~= rest.take(k - 1));
        } else {
            assert(post.take(0) =~= Seq::<Seq<char>>::empty());
            assert(rest.take(0) =~= Seq::<Seq<char>>::empty());
            assert(none + none =~= none);
        }
    }
}

proof fn lemma_before_lines(m: GrepModel, n: int)
    requires
        0 <= n <= m.before.len(),
        !m.flags.only_matching && !m.flags.show_line_numbers,
        m.flags.show_filename != Some(true),
    ensures
        before_out(m, n) == all_lines(Seq::new(n as nat, |i: int| m.before[i].1)),
    decreases n,
{
    let kept = Seq::new(n as nat, |i: int| m.before[i].1);
    if n > 0 {
        lemma_before_lines(m, n - 1);
        let fewer = Seq::new((n - 1) as nat, |i: int| m.before[i].1);
        let line = m.before[n - 1].1;
        lemma_lines_push(fewer, line);
        assert(fewer.push(line) =~= kept);
        let nothing = Seq::<char>::empty();
        assert(grep_prefix(m.before[n - 1].0, m.flags) =~= nothing);
        assert(encode_utf8(nothing) =~= Seq::<u8>::empty());
        assert(Seq::<u8>::empty() + line_bytes(line) =~= line_bytes(line));
    } else {
        assert(kept =~= Seq::<Seq<char>>::empty());
    }
}

proof fn lemma_lines_push(lines: Seq<Seq<char>>, line: Seq<char>)
    ensures
        all_lines(lines.push(line)) == all_lines(lines) + line_bytes(line),
    decreases lines.len(),
{
    let none = Seq::<u8>::empty();
    let all = lines.push(line);
    if lines.len() == 0 {
        assert(all.skip(1) =~= lines);
        assert(none + line_bytes(line) =~= line_bytes(line) + none);
    } else {
        assert(all.skip(1) =~= lines.skip(1).push(line));
        lemma_lines_push(lines.skip(1), line);
        assert(line_bytes(lines[0]) + (all_lines(lines.skip(1)) + line_bytes(line)) =~= line_bytes(
            lines[0],
        ) + all_lines(lines.skip(1)) + line_bytes(line));
    }
}

/// The lines that were kept, the oldest first, are the last of those that were read.
spec fn keeps_last(m: GrepModel, read: Seq<Seq<char>>) -> bool {
    let k = within(m.flags.before_context as int, read.len());
    &&& m.before.len() == k
    &&& forall|i: int| 0 <= i < k ==> (#[trigger] m.before[i]).1 == read[read.len() - k + i]
}

proof fn lemma_around(
    m: GrepModel,
    read: Seq<Seq<char>>,
    pre: Seq<Seq<char>>,
    hit: Seq<char>,
    post: Seq<Seq<char>>,
)
    requires
        grep_shows(m.flags) && !m.flags.only_matching && !m.flags.show_line_numbers,
        m.flags.show_filename != Some(true),
        m.flags.max_count is None,
        !m.finished,
        !m.printed_separator,
        m.remaining_after == 0,
        keeps_last(m, read),
        grep_selects(hit, m.patterns, m.flags),
        forall|i: int| 0 <= i < pre.len() ==> !grep_selects(#[trigger] pre[i], m.patterns, m.flags),
        forall|i: int|
            0 <= i < post.len() ==> !grep_selects(#[trigger] post[i], m.patterns, m.flags),
    ensures
        ({
            let all = read + pre;
            let b = within(m.flags.before_context as int, all.len());
            let a = within(m.flags.after_context as int, post.len());
            run_lines::<GrepStream>(m, pre + seq![hit] + post) == all_lines(
                all.skip(all.len() - b),
            ) + line_bytes(hit) + all_lines(post.take(a))
        }),
    decreases pre.len(),
{
    let none = Seq::<u8>::empty();
    let lines = pre + seq![hit] + post;
    let all = read + pre;
    if pre.len() == 0 {
        assert(lines[0] == hit);
        assert(lines.skip(1) =~= post);
        assert(all =~= read);
        let next = <GrepStream as LineStage>::line_next(m, hit);
        lemma_after(next, post);
        let k = m.before.len() as int;
        lemma_before_lines(m, k);
        let kept = Seq::new(k as nat, |i: int| m.before[i].1);
        assert(kept =~= read.skip(read.len() - k));
        let nothing = Seq::<char>::empty();
        assert(grep_prefix(m.line_num + 1, m.flags) =~= nothing);
        assert(encode_utf8(nothing) =~= none);
        assert(none + line_bytes(hit) =~= line_bytes(hit));
        assert(none + all_lines(kept) =~= all_lines(kept));
        if k == 0 {
            assert(kept =~= Seq::<Seq<char>>::empty());
            assert(none + line_bytes(hit) =~= line_bytes(hit));
        }
    } else {
        let line = pre[0];
        let rest = pre.skip(1);
        assert(!grep_selects(pre[0], m.patterns, m.flags));
        assert(lines[0] == line);
        assert(lines.skip(1) =~= rest + seq![hit] + post);
        let next = <GrepStream as LineStage>::line_next(m, line);
        let more = read.push(line);
        assert(more + rest =~= all);
        assert forall|i: int| 0 <= i < rest.len() implies !grep_selects(
            #[trigger] rest[i],
            next.patterns,
            next.flags,
        ) by {
            assert(rest[i] == pre[i + 1]);
        }
        assert(keeps_last(next, more));
        lemma_around(next, more, rest, hit, post);
        let r = run_lines::<GrepStream>(next, rest + seq![hit] + post);
        assert(none + r =~= r);
    }
}

/// `grep -B b -A a` writes with a line that it selects the `b` lines before it and the `a` lines
/// after it, or as many as there are.
pub proof fn law_context_lines(
    flags: StreamingGrepFlags,
    patterns: Seq<Seq<char>>,
    pre: Seq<Seq<char>>,
    hit: Seq<char>,
    post: Seq<Seq<char>>,
)
    requires
        grep_shows(flags) && !flags.only_matching && !flags.show_line_numbers,
        flags.show_filename != Some(true),
        flags.max_count is None,
        grep_selects(hit, patterns, flags),
        forall|i: int| 0 <= i < pre.len() ==> !grep_selects(#[trigger] pre[i], patterns, flags),
        forall|i: int| 0 <= i < post.len() ==> !grep_selects(#[trigger] post[i], patterns, flags),
    ensures
        ({
            let b = within(flags.before_context as int, pre.len());
            let a = within(flags.after_context as int, post.len());
            run_lines::<GrepStream>(grep_start(flags, patterns), pre + seq![hit] + post)
                == all_lines(pre.skip(pre.len() - b)) + line_bytes(hit) + all_lines(post.take(a))
        }),
{
    let none = Seq::<Seq<char>>::empty();
    assert(none + pre =~= pre);
    lemma_around(grep_start(flags, patterns), none, pre, hit, post);
}

} // verus!
