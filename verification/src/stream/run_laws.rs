//! What `uniq`, `tr`, `wc`, `head` and `tail` make of their input.
use crate::ascii::NEWLINE;
use crate::stream::ends::{first_lines, last_items};
use crate::stream::lines::{byte_lines, line_bytes, run_lines, LineStage};
use crate::stream::machine::{run, state_after, ByteStage};
use crate::stream::sed::{char_index, translit_char};
use crate::stream::tr::{
    ascii_without, tr_char, tr_chars, tr_sources, tr_translated, StreamingTrStage,
};
use crate::stream::tr_set::{char_range, expand_set, posix_class, unescaped};
use crate::stream::uniq::{
    from_space, skip_fields, uniq_flush, uniq_key, uniq_out, StreamingUniqFlags, UniqModel,
    UniqStream,
};
use crate::stream::wc::{
    is_word_gap, max, newline_count, wc_start, wc_summary, word_count, StreamingWcFlags, WcModel,
    WcStream,
};
use crate::text::{dec, is_space, padded, trim_start};
use vstd::prelude::*;

verus! {

/// The same line so many times.
pub open spec fn times(line: Seq<char>, n: nat) -> Seq<Seq<char>> {
    Seq::new(n, |i: int| line)
}

proof fn lemma_run_of_lines(m: UniqModel, line: Seq<char>, n: nat, rest: Seq<Seq<char>>)
    requires
        m.prev == Some((line, uniq_key(m.flags, line))),
        rest.len() > 0 ==> uniq_key(m.flags, rest[0]) != uniq_key(m.flags, line),
    ensures
        run_lines::<UniqStream>(m, times(line, n) + rest) == uniq_out(m.flags, line, m.count + n)
            + run_lines::<UniqStream>(
            UniqModel { flags: m.flags, prev: None, count: 0 },
            rest,
        ),
    decreases n,
{
    let none = Seq::<u8>::empty();
    let start = UniqModel { flags: m.flags, prev: None, count: 0 };
    if n == 0 {
        assert(times(line, 0) + rest =~= rest);
        let f = uniq_flush(m);
        if rest.len() > 0 {
            let r = run_lines::<UniqStream>(
                <UniqStream as LineStage>::line_next(m, rest[0]),
                rest.skip(1),
            );
            assert(<UniqStream as LineStage>::line_next(m, rest[0])
                == <UniqStream as LineStage>::line_next(start, rest[0]));
            assert(none + r =~= r);
        } else {
            assert(f + none =~= f);
        }
    } else {
        let all = times(line, n) + rest;
        assert(all[0] == line);
        assert(all.skip(1) =~= times(line, (n - 1) as nat) + rest);
        let next = <UniqStream as LineStage>::line_next(m, line);
        lemma_run_of_lines(next, line, (n - 1) as nat, rest);
        let r = run_lines::<UniqStream>(next, all.skip(1));
        assert(none + r =~= r);
    }
}

/// A run of equal lines, with another line or nothing behind it, is written as one line: with `-c`
/// its length comes first, in a column of seven characters and a blank behind it; `-d` leaves out
/// runs of one line, and `-u` the longer ones. What follows the run is worked on as if it came
/// first.
pub proof fn law_runs_of_lines(
    flags: StreamingUniqFlags,
    line: Seq<char>,
    n: nat,
    rest: Seq<Seq<char>>,
)
    requires
        n > 0,
        rest.len() > 0 ==> uniq_key(flags, rest[0]) != uniq_key(flags, line),
    ensures
        ({
            let start = UniqModel { flags, prev: None, count: 0 };
            run_lines::<UniqStream>(start, times(line, n) + rest) == (if (flags.duplicates_only && n
                == 1) || (flags.unique_only && n != 1) {
                Seq::empty()
            } else if flags.count {
                line_bytes(padded(dec(n), 7) + seq![' '] + line)
            } else {
                line_bytes(line)
            }) + run_lines::<UniqStream>(start, rest)
        }),
{
    let none = Seq::<u8>::empty();
    let start = UniqModel { flags, prev: None, count: 0 };
    let all = times(line, n) + rest;
    assert(all[0] == line);
    assert(all.skip(1) =~= times(line, (n - 1) as nat) + rest);
    let next = <UniqStream as LineStage>::line_next(start, line);
    lemma_run_of_lines(next, line, (n - 1) as nat, rest);
    let r = run_lines::<UniqStream>(next, all.skip(1));
    assert(none + r =~= r);
    reveal_strlit(" ");
    assert(" "@ =~= seq![' ']);
}

/// Lines are compared whole, unless `-s` leaves out so many characters in front or `-w` compares only
/// so many.
pub proof fn law_what_is_compared(flags: StreamingUniqFlags, line: Seq<char>)
    requires
        !flags.ignore_case,
        flags.skip_fields == 0,
    ensures
        flags.skip_chars == 0 && flags.compare_chars is None ==> uniq_key(flags, line) == line,
        flags.compare_chars is None && flags.skip_chars <= line.len() ==> uniq_key(flags, line)
            == line.skip(flags.skip_chars as int),
        flags.skip_chars == 0 ==> (flags.compare_chars matches Some(n) ==> n <= line.len()
            ==> uniq_key(flags, line) == line.take(n as int)),
{
    assert(line.skip(0) =~= line);
    assert(line.take(line.len() as int) =~= line);
    if flags.skip_chars == line.len() {
        assert(line.skip(line.len() as int) =~= Seq::<char>::empty());
    }
}

/// Whether all characters are white space, or none of them is.
pub open spec fn all_space(s: Seq<char>, want: bool) -> bool {
    forall|i: int| 0 <= i < s.len() ==> is_space(#[trigger] s[i]) == want
}

proof fn lemma_skip_space(a: Seq<char>, b: Seq<char>)
    requires
        all_space(a, true),
        b.len() > 0 ==> !is_space(b[0]),
    ensures
        trim_start(a + b) == b,
    decreases a.len(),
{
    if a.len() == 0 {
        assert(a + b =~= b);
    } else {
        let t = a.skip(1);
        assert(is_space(a[0]));
        assert forall|i: int| 0 <= i < t.len() implies is_space(#[trigger] t[i]) by {
            assert(is_space(a[i + 1]));
        }
        assert((a + b).skip(1) =~= t + b);
        lemma_skip_space(t, b);
    }
}

proof fn lemma_skip_word(w: Seq<char>, b: Seq<char>)
    requires
        all_space(w, false),
        b.len() > 0 ==> is_space(b[0]),
    ensures
        from_space(w + b) == b,
    decreases w.len(),
{
    if w.len() == 0 {
        assert(w + b =~= b);
    } else {
        let t = w.skip(1);
        assert(!is_space(w[0]));
        assert forall|i: int| 0 <= i < t.len() implies !is_space(#[trigger] t[i]) by {
            assert(!is_space(w[i + 1]));
        }
        assert((w + b).skip(1) =~= t + b);
        lemma_skip_word(t, b);
    }
}

/// `-f` leaves out fields: each is white space and the word behind it.
pub proof fn law_fields_are_skipped(gap: Seq<char>, word: Seq<char>, rest: Seq<char>, n: nat)
    requires
        all_space(gap, true),
        word.len() > 0,
        all_space(word, false),
        rest.len() > 0 ==> is_space(rest[0]),
    ensures
        skip_fields(gap + word + rest, n + 1) == skip_fields(rest, n),
        skip_fields(rest, 0) == rest,
{
    let s = gap + word + rest;
    assert(s =~= gap + (word + rest));
    assert(!is_space(word[0]));
    assert((word + rest)[0] == word[0]);
    lemma_skip_space(gap, word + rest);
    lemma_skip_word(word, rest);
}

proof fn lemma_char_range(a: int, b: int, i: int)
    requires
        0 <= a,
        b < 0xd800,
        0 <= i <= b - a,
    ensures
        char_range(a, b).len() == b - a + 1,
        char_range(a, b)[i] == (a + i) as char,
    decreases b - a,
{
    if i > 0 {
        lemma_char_range(a + 1, b, i - 1);
    } else if a < b {
        lemma_char_range(a + 1, b, 0);
    } else {
        assert(char_range(a + 1, b) =~= Seq::<char>::empty());
    }
}

/// A range in a set of `tr` lists the characters from its lower to its upper end, both included, in
/// order.
pub proof fn law_set_ranges(lo: char, hi: char, i: int)
    requires
        lo < hi,
        (hi as int) < 0xd800,
        0 <= i <= hi as int - lo as int,
    ensures
        expand_set(seq![lo, '-', hi], 0).len() == hi as int - lo as int + 1,
        expand_set(seq![lo, '-', hi], 0)[i] as int == lo as int + i,
{
    let s = seq![lo, '-', hi];
    assert(s[0] == lo && s[1] == '-' && s[2] == hi);
    let none = Seq::<char>::empty();
    assert(expand_set(s, 3) == none);
    let r = char_range(lo as int, hi as int);
    assert(r + none =~= r);
    assert(expand_set(s, 0) == r);
    lemma_char_range(lo as int, hi as int, i);
}

proof fn lemma_plain_set(s: Seq<char>, i: int)
    requires
        0 <= i <= s.len(),
        !s.contains('-') && !s.contains('\\') && !s.contains('['),
    ensures
        expand_set(s, i) == s.skip(i),
    decreases s.len() - i,
{
    if i < s.len() {
        lemma_plain_set(s, i + 1);
        assert(s.contains(s[i]));
        if i + 1 < s.len() {
            assert(s.contains(s[i + 1]));
        }
        assert(seq![s[i]] + s.skip(i + 1) =~= s.skip(i));
    } else {
        assert(s.skip(i) =~= Seq::<char>::empty());
    }
}

/// A set without `-`, backslash and `[` lists its characters; `\n`, `\t` and `\r` in a set are a line
/// end, a tab and a carriage return.
pub proof fn law_plain_sets(s: Seq<char>)
    requires
        !s.contains('-') && !s.contains('\\') && !s.contains('['),
    ensures
        expand_set(s, 0) == s,
        expand_set(seq!['\\', 'n'], 0) == seq!['\n'],
        expand_set(seq!['\\', 't'], 0) == seq!['\t'],
        expand_set(seq!['\\', 'r'], 0) == seq!['\r'],
        expand_set(seq!['\\', '\\'], 0) == seq!['\\'],
{
    lemma_plain_set(s, 0);
    assert(s.skip(0) =~= s);
    lemma_escape('n');
    lemma_escape('t');
    lemma_escape('r');
    lemma_escape('\\');
}

proof fn lemma_escape(c: char)
    requires
        c != '-',
    ensures
        expand_set(seq!['\\', c], 0) == seq![unescaped(c)],
{
    let s = seq!['\\', c];
    assert(s[0] == '\\' && s[1] == c);
    assert(expand_set(s, 2) == Seq::<char>::empty());
    assert(seq![unescaped(c)] + Seq::<char>::empty() =~= seq![unescaped(c)]);
}

proof fn lemma_char_index(s: Seq<char>, c: char)
    ensures
        0 <= char_index(s, c) <= s.len(),
        char_index(s, c) < s.len() ==> s[char_index(s, c)] == c,
        char_index(s, c) == s.len() <==> !s.contains(c),
        forall|i: int| 0 <= i < char_index(s, c) ==> s[i] != c,
    decreases s.len(),
{
    if s.len() > 0 && s[0] != c {
        let t = s.skip(1);
        lemma_char_index(t, c);
        assert forall|i: int| 0 <= i < char_index(s, c) implies s[i] != c by {
            if i > 0 {
                assert(t[i - 1] == s[i]);
            }
        }
        if s.contains(c) {
            let k = choose|k: int| 0 <= k < s.len() && s[k] == c;
            assert(t[k - 1] == c);
        }
        if t.contains(c) {
            let k = choose|k: int| 0 <= k < t.len() && t[k] == c;
            assert(s[k + 1] == c);
        }
    }
}

/// `tr` and the `y` of `sed` turn a character into the one that stands at its first place in the
/// other list, the last one for places beyond it; characters that are not listed stay.
pub proof fn law_translation(stage: StreamingTrStage, c: char, i: int)
    requires
        !stage.complement,
        stage.to_chars@.len() > 0,
    ensures
        !stage.from_chars@.contains(c) ==> tr_translated(stage, c) == c,
        (0 <= i < stage.from_chars@.len() && stage.from_chars@[i] == c && forall|k: int|
            0 <= k < i ==> stage.from_chars@[k] != c) ==> tr_translated(stage, c) == (if i
            < stage.to_chars@.len() {
            stage.to_chars@[i]
        } else {
            stage.to_chars@.last()
        }),
        crate::stream::sed::translit_char(c, stage.from_chars@, stage.to_chars@) == tr_translated(
            stage,
            c,
        ),
{
    let from = stage.from_chars@;
    lemma_char_index(from, c);
    let k = char_index(from, c);
    if 0 <= i < from.len() && from[i] == c && (forall|k: int| 0 <= k < i ==> from[k] != c) {
        assert(from.contains(from[i]));
        if k < i {
            assert(from[k] != c);
        }
        assert(k == i);
    }
}

proof fn lemma_ascii_without(from: Seq<char>, n: int, c: char)
    requires
        0 <= n <= 128,
    ensures
        ascii_without(from, n).contains(c) <==> (c as int) < n && !from.contains(c),
    decreases n,
{
    if n > 0 {
        lemma_ascii_without(from, n - 1, c);
        let before = ascii_without(from, n - 1);
        let d = (n - 1) as char;
        assert(d as int == n - 1);
        let all = before.push(d);
        assert(all.contains(c) <==> before.contains(c) || c == d) by {
            if before.contains(c) {
                let k = choose|k: int| 0 <= k < before.len() && before[k] == c;
                assert(all[k] == c);
            }
            if c == d {
                assert(all[before.len() as int] == c);
            }
            if all.contains(c) {
                let k = choose|k: int| 0 <= k < all.len() && all[k] == c;
                if k < before.len() {
                    assert(before[k] == c);
                }
            }
        }
    }
}

/// The complement of a set is the ASCII characters that are not in it.
pub proof fn law_complement(stage: StreamingTrStage, c: char)
    requires
        stage.complement,
    ensures
        tr_sources(stage).contains(c) <==> (c as int) < 128 && !stage.from_chars@.contains(c),
{
    lemma_ascii_without(stage.from_chars@, 128, c);
}

/// `tr` translates character by character: as many characters come out, each as it is translated.
pub proof fn law_translated_text(
    stage: StreamingTrStage,
    prev: Option<char>,
    chars: Seq<char>,
    i: int,
)
    requires
        !stage.delete,
        !stage.squeeze,
        0 <= i < chars.len(),
    ensures
        tr_chars(stage, prev, chars).0.len() == chars.len(),
        tr_chars(stage, prev, chars).0[i] == tr_translated(stage, chars[i]),
    decreases chars.len(),
{
    let d = chars.drop_last();
    if i < d.len() {
        law_translated_text(stage, prev, d, i);
    } else if d.len() > 0 {
        law_translated_text(stage, prev, d, 0);
    } else {
        assert(tr_chars(stage, prev, d).0.len() == 0);
    }
}

/// `tr -d` keeps the characters that are not in the set, in their order, and with `-c` those that are
/// in it.
pub proof fn law_deleting(stage: StreamingTrStage, prev: Option<char>, chars: Seq<char>)
    requires
        stage.delete,
        !stage.squeeze,
    ensures
        tr_chars(stage, prev, chars).0 == chars.filter(
            |c: char| stage.from_chars@.contains(c) == stage.complement,
        ),
    decreases chars.len(),
{
    let keep = |c: char| stage.from_chars@.contains(c) == stage.complement;
    reveal(Seq::filter);
    if chars.len() > 0 {
        law_deleting(stage, prev, chars.drop_last());
    } else {
        assert(chars.filter(keep) =~= Seq::<char>::empty());
    }
}

/// `tr -s` with one set writes of each run of a character that is in the set only one, and leaves
/// all else as it is.
pub proof fn law_squeezing(stage: StreamingTrStage, prev: Option<char>, c: char)
    requires
        !stage.delete,
        stage.squeeze,
        stage.to_chars@.len() == 0,
    ensures
        tr_char(stage, prev, c) == (if stage.from_chars@.contains(c) && prev == Some(c) {
            None
        } else {
            Some(c)
        }),
{
}

/// The greatest length of a line.
pub open spec fn longest(lines: Seq<Seq<u8>>) -> nat
    decreases lines.len(),
{
    if lines.len() == 0 {
        0
    } else if lines[0].len() >= longest(lines.skip(1)) {
        lines[0].len()
    } else {
        longest(lines.skip(1))
    }
}

proof fn lemma_longest(m: WcModel, cur: Seq<u8>, s: Seq<u8>)
    requires
        m.current_line_length == cur.len(),
    ensures
        ({
            let after = state_after::<WcStream>(m, s);
            max(after.max_line_length, after.current_line_length) == max(
                m.max_line_length,
                longest(byte_lines(cur, s)),
            )
        }),
        state_after::<WcStream>(m, s).flags == m.flags,
    decreases s.len(),
{
    let lines = byte_lines(cur, s);
    if s.len() == 0 {
        if cur.len() > 0 {
            assert(lines.skip(1) =~= Seq::<Seq<u8>>::empty());
            assert(longest(lines.skip(1)) == 0);
        } else {
            assert(lines =~= Seq::<Seq<u8>>::empty());
        }
    } else {
        let next = WcStream::next(m, s[0]);
        if s[0] == NEWLINE {
            let none = Seq::<u8>::empty();
            lemma_longest(next, none, s.skip(1));
            assert(lines[0] == cur);
            assert(lines.skip(1) =~= byte_lines(none, s.skip(1)));
        } else {
            lemma_longest(next, cur.push(s[0]), s.skip(1));
        }
    }
}

proof fn lemma_tail_only(m: WcModel, s: Seq<u8>)
    ensures
        run::<WcStream>(m, s) == WcStream::tail(state_after::<WcStream>(m, s)),
    decreases s.len(),
{
    if s.len() > 0 {
        lemma_tail_only(WcStream::next(m, s[0]), s.skip(1));
        let r = run::<WcStream>(WcStream::next(m, s[0]), s.skip(1));
        assert(Seq::<u8>::empty() + r =~= r);
    }
}

/// `wc -L` writes the length of the longest line.
pub proof fn law_longest_line(flags: StreamingWcFlags, s: Seq<u8>)
    requires
        !flags.lines && !flags.words && !flags.bytes && flags.max_line_length,
    ensures
        run::<WcStream>(wc_start(flags), s) == line_bytes(
            padded(dec(longest(byte_lines(Seq::empty(), s))), 7),
        ),
{
    let m = state_after::<WcStream>(wc_start(flags), s);
    lemma_tail_only(wc_start(flags), s);
    lemma_longest(wc_start(flags), Seq::empty(), s);
    let p = padded(dec(longest(byte_lines(Seq::empty(), s))), 7);
    assert(wc_summary(m) =~= p);
}

/// Words are what stands between blanks, tabs, line ends, form feeds and carriage returns: a word
/// more stands behind a gap, and none more where the word goes on.
pub proof fn law_words_are_between_gaps(s: Seq<u8>, gap: u8, w: Seq<u8>)
    requires
        gap == 0x20 || gap == 0x09 || gap == 0x0a || gap == 0x0c || gap == 0x0d,
        w.len() > 0,
        forall|i: int| 0 <= i < w.len() ==> 0x21 <= #[trigger] w[i] <= 0x7e,
    ensures
        word_count(s + seq![gap]) == word_count(s),
        word_count(s + seq![gap] + w) == word_count(s) + 1,
        word_count(w) == 1,
    decreases w.len(),
{
    let g = s + seq![gap];
    assert(g.drop_last() =~= s);
    assert(is_word_gap(gap));
    assert(g.last() == gap);
    assert(word_count(g) == word_count(s));
    let v = w.drop_last();
    let all = g + w;
    assert(all.drop_last() =~= g + v);
    assert(!is_word_gap(w.last()));
    assert(all.last() == w.last());
    assert(all =~= s + seq![gap] + w);
    assert(word_count(Seq::<u8>::empty()) == 0);
    if v.len() == 0 {
        assert(g + v =~= g);
        assert(all.drop_last() =~= g);
        assert(all[all.len() - 2] == gap);
        assert(v =~= Seq::<u8>::empty());
    } else {
        assert forall|i: int| 0 <= i < v.len() implies 0x21 <= #[trigger] v[i] <= 0x7e by {
            assert(v[i] == w[i]);
        }
        law_words_are_between_gaps(s, gap, v);
        assert(s + seq![gap] + v =~= g + v);
        assert(all[all.len() - 2] == v.last());
        assert(w[w.len() - 2] == v.last());
        assert(!is_word_gap(v.last()));
        assert(word_count(all) == word_count(g + v));
    }
}

/// Lines are counted by their newlines.
pub proof fn law_newlines_are_counted(s: Seq<u8>, b: u8)
    ensures
        newline_count(s + seq![b]) == newline_count(s) + (if b == 0x0a {
            1nat
        } else {
            0
        }),
        newline_count(Seq::empty()) == 0,
{
    assert((s + seq![b]).drop_last() =~= s);
}

/// The first lines of an input are its beginning up to the newline that ends the last of them: whole
/// where it has no more newlines than that, and else with just that many, the last byte being one.
pub proof fn law_first_lines(s: Seq<u8>, n: nat)
    ensures
        ({
            let f = first_lines(s, n);
            &&& f.len() <= s.len()
            &&& f == s.take(f.len() as int)
            &&& newlines_from(f, 0) <= n
            &&& f.len() < s.len() && n > 0 ==> newlines_from(f, 0) == n && f.len() > 0 && f.last()
                == 0x0a
            &&& n == 0 ==> f.len() == 0
        }),
    decreases s.len(),
{
    let f = first_lines(s, n);
    if s.len() == 0 || n == 0 {
        assert(f =~= s.take(0));
        assert(newlines_from(f, 0) == 0);
    } else {
        let m = if s[0] == 0x0a {
            (n - 1) as nat
        } else {
            n
        };
        let r = first_lines(s.skip(1), m);
        law_first_lines(s.skip(1), m);
        assert(f == seq![s[0]] + r);
        assert(f =~= s.take(f.len() as int));
        assert(f.skip(1) =~= r);
        lemma_newlines_shift(f, r, 0);
        assert(newlines_from(f, 0) == newlines_from(r, 0) + (if s[0] == 0x0a {
            1nat
        } else {
            0
        }));
        if m == 0 {
            assert(r.len() == 0);
            assert(f.last() == s[0]);
            assert(newlines_from(r, 0) == 0);
        }
        if r.len() > 0 {
            assert(f.last() == r.last());
        }
    }
}

/// How many newlines stand in an input from a position on.
pub open spec fn newlines_from(s: Seq<u8>, i: int) -> nat
    decreases s.len() - i,
{
    if 0 <= i < s.len() {
        newlines_from(s, i + 1) + (if s[i] == 0x0a {
            1nat
        } else {
            0
        })
    } else {
        0
    }
}

proof fn lemma_newlines_shift(f: Seq<u8>, r: Seq<u8>, i: int)
    requires
        f.len() == r.len() + 1,
        f.skip(1) == r,
        0 <= i <= r.len(),
    ensures
        newlines_from(f, i + 1) == newlines_from(r, i),
    decreases r.len() - i,
{
    if i < r.len() {
        assert(f.skip(1)[i] == f[i + 1]);
        lemma_newlines_shift(f, r, i + 1);
    }
}

/// The last items of a row are its end.
pub proof fn law_last_items(s: Seq<u8>, n: nat)
    ensures
        last_items(s, n).len() == (if n < s.len() {
            n
        } else {
            s.len()
        }),
        forall|i: int|
            0 <= i < last_items(s, n).len() ==> #[trigger] last_items(s, n)[i] == s[s.len()
                - last_items(s, n).len() + i],
{
}

/// The counts stand in one order, lines, words, bytes, longest line, each seven wide, and only those
/// that are asked for; a last line without a newline counts as one.
pub proof fn law_counts_in_order(m: WcModel)
    requires
        m.current_line_length == 0,
    ensures
        ({
            let none = StreamingWcFlags {
                lines: false,
                words: false,
                bytes: false,
                max_line_length: false,
            };
            let l = StreamingWcFlags { lines: true, ..none };
            let w = StreamingWcFlags { words: true, ..none };
            let b = StreamingWcFlags { bytes: true, ..none };
            let x = StreamingWcFlags { max_line_length: true, ..none };
            let all = StreamingWcFlags {
                lines: true,
                words: true,
                bytes: true,
                max_line_length: true,
            };
            &&& wc_summary(WcModel { flags: l, ..m }) == padded(dec(m.lines), 7)
            &&& wc_summary(WcModel { flags: w, ..m }) == padded(dec(m.words), 7)
            &&& wc_summary(WcModel { flags: b, ..m }) == padded(dec(m.bytes), 7)
            &&& wc_summary(WcModel { flags: x, ..m }) == padded(dec(m.max_line_length), 7)
            &&& wc_summary(WcModel { flags: all, ..m }) == padded(dec(m.lines), 7) + padded(
                dec(m.words),
                7,
            ) + padded(dec(m.bytes), 7) + padded(dec(m.max_line_length), 7)
            &&& wc_summary(WcModel { flags: l, current_line_length: 1, ..m }) == padded(
                dec(m.lines + 1),
                7,
            )
        }),
{
    let e = Seq::<char>::empty();
    let l = padded(dec(m.lines), 7);
    let w = padded(dec(m.words), 7);
    let b = padded(dec(m.bytes), 7);
    let x = padded(dec(m.max_line_length), 7);
    let o = padded(dec(m.lines + 1), 7);
    assert(l + e + e + e =~= l);
    assert(o + e + e + e =~= o);
    assert(e + w + e + e =~= w);
    assert(e + e + b + e =~= b);
    assert(e + e + e + x =~= x);
}

proof fn lemma_in_range(a: int, b: int, c: char)
    requires
        0 <= a,
        b < 0xd800,
    ensures
        char_range(a, b).contains(c) <==> a <= c as int <= b,
    decreases b - a + 1,
{
    if a <= b {
        lemma_in_range(a + 1, b, c);
        let r = char_range(a + 1, b);
        let all = char_range(a, b);
        assert(all == seq![a as char] + r);
        assert(all[0] == a as char);
        if r.contains(c) {
            let i = choose|i: int| 0 <= i < r.len() && r[i] == c;
            assert(all[i + 1] == c);
        }
        if all.contains(c) {
            let i = choose|i: int| 0 <= i < all.len() && all[i] == c;
            if i > 0 {
                assert(r[i - 1] == c);
            }
        }
    }
}

proof fn lemma_either(a: Seq<char>, b: Seq<char>, c: char)
    ensures
        (a + b).contains(c) <==> a.contains(c) || b.contains(c),
{
    let s = a + b;
    if a.contains(c) {
        let i = choose|i: int| 0 <= i < a.len() && a[i] == c;
        assert(s[i] == c);
    }
    if b.contains(c) {
        let i = choose|i: int| 0 <= i < b.len() && b[i] == c;
        assert(s[a.len() + i] == c);
    }
    if s.contains(c) {
        let i = choose|i: int| 0 <= i < s.len() && s[i] == c;
        if i < a.len() {
            assert(a[i] == c);
        } else {
            assert(b[i - a.len()] == c);
        }
    }
}

/// What the classes of characters hold: letters, digits, signs and blanks of the plain alphabet.
pub proof fn law_classes_of_characters(c: char)
    ensures
        ({
            let upper = 'A' <= c <= 'Z';
            let lower = 'a' <= c <= 'z';
            let digit = '0' <= c <= '9';
            &&& posix_class("upper"@).contains(c) <==> upper
            &&& posix_class("lower"@).contains(c) <==> lower
            &&& posix_class("digit"@).contains(c) <==> digit
            &&& posix_class("alpha"@).contains(c) <==> upper || lower
            &&& posix_class("alnum"@).contains(c) <==> upper || lower || digit
            &&& posix_class("space"@).contains(c) <==> c == ' ' || 0x09 <= c as int <= 0x0d
            &&& posix_class("blank"@).contains(c) <==> c == ' ' || c == '\t'
            &&& posix_class("punct"@).contains(c) <==> 0x21 <= c as int <= 0x7e && !upper && !lower
                && !digit
        }),
{
    reveal_strlit("upper");
    reveal_strlit("lower");
    reveal_strlit("digit");
    reveal_strlit("alpha");
    reveal_strlit("alnum");
    reveal_strlit("space");
    reveal_strlit("blank");
    reveal_strlit("punct");
    assert("upper"@[0] == 'u' && "lower"@[0] == 'l' && "digit"@[0] == 'd' && "alpha"@[0] == 'a');
    assert("alnum"@[0] == 'a' && "alnum"@[2] == 'n' && "alpha"@[2] == 'p' && "space"@[0] == 's');
    assert("blank"@[0] == 'b' && "punct"@[0] == 'p');
    lemma_in_range(0x41, 0x5a, c);
    lemma_in_range(0x61, 0x7a, c);
    lemma_in_range(0x30, 0x39, c);
    let u = char_range(0x41, 0x5a);
    let l = char_range(0x61, 0x7a);
    let d = char_range(0x30, 0x39);
    lemma_either(u, l, c);
    lemma_either(d, u, c);
    lemma_either(d + u, l, c);
    lemma_in_range(0x21, 0x2f, c);
    lemma_in_range(0x3a, 0x40, c);
    lemma_in_range(0x5b, 0x60, c);
    lemma_in_range(0x7b, 0x7e, c);
    let w = char_range(0x21, 0x2f);
    let x = char_range(0x3a, 0x40);
    let y = char_range(0x5b, 0x60);
    let z = char_range(0x7b, 0x7e);
    lemma_either(w, x, c);
    lemma_either(w + x, y, c);
    lemma_either(w + x + y, z, c);
    let s = seq![' ', '\t', '\n', '\r', '\x0b', '\x0c'];
    assert(s[0] == ' ' && s[1] == '\t' && s[2] == '\n' && s[3] == '\r' && s[4] == '\x0b' && s[5]
        == '\x0c');
    let b = seq![' ', '\t'];
    assert(b[0] == ' ' && b[1] == '\t');
}

/// The escapes of a set stand for a newline, a tab and a return; any other character for itself.
pub proof fn law_escapes_of_a_set(c: char)
    ensures
        unescaped('n') == '\n',
        unescaped('t') == '\t',
        unescaped('r') == '\r',
        c != 'n' && c != 't' && c != 'r' ==> unescaped(c) == c,
{
}

/// `y` in a script of `sed` turns each character of the first row into that of the second at the same
/// place, or into the last one where the second row is shorter; other characters stay.
pub proof fn law_characters_are_exchanged(from: Seq<char>, to: Seq<char>, c: char, k: int)
    requires
        to.len() > 0,
        0 <= k < from.len(),
        forall|i: int| 0 <= i < k ==> #[trigger] from[i] != from[k],
    ensures
        k < to.len() ==> translit_char(from[k], from, to) == to[k],
        k >= to.len() ==> translit_char(from[k], from, to) == to.last(),
        !from.contains(c) ==> translit_char(c, from, to) == c,
{
    let j = char_index(from, from[k]);
    lemma_char_index(from, from[k]);
    lemma_char_index(from, c);
    assert(from.contains(from[k]));
    assert(j == k) by {
        if j < k {
            assert(from[j] != from[k]);
        }
    }
}

/// With `-d` and `-s` the first set is taken out and runs of the second are drawn together; everything
/// else stays.
pub proof fn law_deleting_and_squeezing(stage: StreamingTrStage, prev: Option<char>, c: char)
    requires
        stage.delete,
        stage.squeeze,
        !stage.complement,
    ensures
        stage.from_chars@.contains(c) ==> tr_char(stage, prev, c) is None,
        !stage.from_chars@.contains(c) && stage.to_chars@.contains(c) ==> tr_char(stage, Some(c), c)
            is None,
        !stage.from_chars@.contains(c) && !stage.to_chars@.contains(c) ==> tr_char(stage, prev, c)
            == Some(c),
        !stage.from_chars@.contains(c) && prev != Some(c) ==> tr_char(stage, prev, c) == Some(c),
{
}

} // verus!
