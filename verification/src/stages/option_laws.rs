//! What the options of the filters ask for.
use crate::stages::args::{index_of_char, number_of, number_pair};
use crate::stages::bat::bat_range;
use crate::stages::cut::{cut_args, cut_default, cut_list, cut_parts, cut_range, CutArgs, CutMode};
use crate::stages::ends::{head_args, head_stage, tail_args, tail_stage};
use crate::stages::grep::{grep_letter, grep_args, grep_letters, grep_stage};
use crate::stages::plain::{tee_args, tee_letters, wc_args, wc_letters, wc_stage, TeeArgs};
use crate::stages::tr::{tr_args, tr_letters, tr_stage, TrFlags};
use crate::stages::uniq::{uniq_args, uniq_default, uniq_letters};
use crate::stream::cut::StreamingCutRange;
use crate::stream::ends::{StreamingHeadMode, StreamingTailMode};
use crate::stream::grep::StreamingGrepFlags;
use crate::stream::tr_set::expand_set;
use crate::stream::uniq::StreamingUniqFlags;
use crate::stream::wc::StreamingWcFlags;
use crate::text::{dec, is_digit, joined, law_dec_parses, lemma_dec_digits, starts_with};
use crate::text_laws::law_joined_words_split_again;
use vstd::prelude::*;

verus! {

/// A `-` and a letter.
pub open spec fn option(c: char) -> Seq<char> {
    seq!['-', c]
}

/// Whether an argument is no option.
pub open spec fn is_operand(s: Seq<char>) -> bool {
    s.len() > 0 ==> s[0] != '-'
}

proof fn lemma_number(n: nat)
    requires
        n <= usize::MAX,
    ensures
        number_of(dec(n)) == Some(n as usize),
        is_operand(dec(n)),
        dec(n).len() > 0,
        dec(n)[0] != '+',
{
    law_dec_parses(n, usize::MAX as nat);
    lemma_dec_digits(n);
    assert(is_digit(dec(n)[0]));
}

proof fn lemma_ends_literals()
    ensures
        "-c"@ == option('c') && "-n"@ == option('n') && "-f"@ == option('f'),
        "--"@ == option('-'),
{
    reveal_strlit("-c");
    reveal_strlit("-n");
    reveal_strlit("-f");
    reveal_strlit("--");
    assert("-c"@ =~= option('c') && "-n"@ =~= option('n') && "-f"@ =~= option('f'));
    assert("--"@ =~= option('-'));
}

proof fn lemma_head_value(c: char, k: nat)
    requires
        k <= usize::MAX,
        c == 'n' || c == 'c',
    ensures
        head_stage(seq![option(c), dec(k)]) == Some(
            if c == 'n' {
                StreamingHeadMode::Lines(k as usize)
            } else {
                StreamingHeadMode::Bytes(k as usize)
            },
        ),
{
    reveal_with_fuel(head_args, 2);
    lemma_ends_literals();
    lemma_number(k);
    let args = seq![option(c), dec(k)];
    assert(args[0] == option(c) && args[1] == dec(k));
    assert(option(c)[1] == c && option('n')[1] == 'n' && option('c')[1] == 'c');
}

proof fn lemma_head_count(k: nat)
    requires
        k <= usize::MAX,
    ensures
        head_stage(seq![seq!['-'] + dec(k)]) == Some(StreamingHeadMode::Lines(k as usize)),
{
    reveal_with_fuel(head_args, 2);
    lemma_ends_literals();
    lemma_number(k);
    lemma_dec_digits(k);
    assert(is_digit(dec(k)[0]));
    let d = seq!['-'] + dec(k);
    assert(d[0] == '-' && d[1] == dec(k)[0]);
    assert(d.skip(1) =~= dec(k));
    assert(option('n')[1] == 'n' && option('c')[1] == 'c' && option('f')[1] == 'f');
    assert(option('-')[1] == '-');
    let args = seq![d];
    assert(args[0] == d);
}

/// `head` keeps ten lines, with `-n k` or `-k` so many lines and with `-c k` so many bytes, and one
/// that names a file is no filter.
pub proof fn law_head_options(k: nat, file: Seq<char>)
    requires
        k <= usize::MAX,
        is_operand(file),
    ensures
        head_stage(Seq::empty()) == Some(StreamingHeadMode::Lines(10)),
        head_stage(seq![option('n'), dec(k)]) == Some(StreamingHeadMode::Lines(k as usize)),
        head_stage(seq![option('c'), dec(k)]) == Some(StreamingHeadMode::Bytes(k as usize)),
        head_stage(seq![seq!['-'] + dec(k)]) == Some(StreamingHeadMode::Lines(k as usize)),
        head_stage(seq![file]) is None,
{
    reveal_with_fuel(head_args, 2);
    lemma_head_value('n', k);
    lemma_head_value('c', k);
    lemma_head_count(k);
    lemma_no_dash(file);
    lemma_ends_literals();
}

proof fn lemma_tail_value(c: char, k: nat)
    requires
        k <= usize::MAX,
        c == 'n' || c == 'c',
    ensures
        tail_stage(seq![option(c), dec(k)]) == Some(
            if c == 'n' {
                StreamingTailMode::Lines(k as usize)
            } else {
                StreamingTailMode::Bytes(k as usize)
            },
        ),
{
    reveal_with_fuel(tail_args, 2);
    lemma_ends_literals();
    lemma_number(k);
    reveal_strlit("+");
    if starts_with(dec(k), "+"@) {
        assert(dec(k).take(1)[0] == dec(k)[0]);
    }
    let args = seq![option(c), dec(k)];
    assert(args[0] == option(c) && args[1] == dec(k));
    assert(option(c)[1] == c && option('n')[1] == 'n' && option('c')[1] == 'c');
}

proof fn lemma_tail_count(k: nat)
    requires
        k <= usize::MAX,
    ensures
        tail_stage(seq![seq!['-'] + dec(k)]) == Some(StreamingTailMode::Lines(k as usize)),
{
    reveal_with_fuel(tail_args, 2);
    lemma_ends_literals();
    lemma_number(k);
    lemma_dec_digits(k);
    assert(is_digit(dec(k)[0]));
    let d = seq!['-'] + dec(k);
    assert(d[0] == '-' && d[1] == dec(k)[0]);
    assert(d.skip(1) =~= dec(k));
    assert(option('n')[1] == 'n' && option('c')[1] == 'c' && option('f')[1] == 'f');
    assert(option('-')[1] == '-');
    let args = seq![d];
    assert(args[0] == d);
}

/// `tail` keeps ten lines, with `-n k` or `-k` so many lines and with `-c k` so many bytes, and one
/// that names a file is no filter.
pub proof fn law_tail_options(k: nat, file: Seq<char>)
    requires
        k <= usize::MAX,
        is_operand(file),
    ensures
        tail_stage(Seq::empty()) == Some(StreamingTailMode::Lines(10)),
        tail_stage(seq![option('n'), dec(k)]) == Some(StreamingTailMode::Lines(k as usize)),
        tail_stage(seq![option('c'), dec(k)]) == Some(StreamingTailMode::Bytes(k as usize)),
        tail_stage(seq![seq!['-'] + dec(k)]) == Some(StreamingTailMode::Lines(k as usize)),
        tail_stage(seq![file]) is None,
{
    reveal_with_fuel(tail_args, 2);
    lemma_tail_value('n', k);
    lemma_tail_value('c', k);
    lemma_tail_count(k);
    lemma_no_dash(file);
    lemma_ends_literals();
}

/// The flags of `grep` that a letter sets.
pub open spec fn grep_flagged(c: char) -> StreamingGrepFlags {
    StreamingGrepFlags {
        ignore_case: c == 'i',
        invert: c == 'v',
        count_only: c == 'c',
        show_line_numbers: c == 'n',
        files_only: c == 'l',
        word_match: c == 'w',
        only_matching: c == 'o',
        quiet: c == 'q',
        extended: c == 'E',
        fixed: c == 'F',
        after_context: 0,
        before_context: 0,
        max_count: None,
        show_filename: None,
    }
}

/// Each letter of `grep` sets its own flag and no other; without a letter no flag is set.
pub proof fn law_grep_letters(c: char, pattern: Seq<char>)
    requires
        c == 'i' || c == 'v' || c == 'c' || c == 'n' || c == 'l' || c == 'w' || c == 'o' || c == 'q'
            || c == 'E' || c == 'F',
        is_operand(pattern),
    ensures
        grep_stage(seq![option(c), pattern]) == Some((grep_flagged(c), seq![pattern])),
        grep_stage(seq![pattern]) == Some((grep_flagged(' '), seq![pattern])),
{
    reveal_with_fuel(grep_args, 4);
    reveal_with_fuel(grep_letters, 3);
    lemma_grep_literals();
    let a = seq![option(c), pattern];
    let b = seq![pattern];
    let none = Seq::<Seq<char>>::empty();
    assert(a[0] == option(c) && a[1] == pattern);
    assert(option(c)[0] == '-' && option(c)[1] == c && option(c).len() == 2);
    assert(option(c).skip(1) =~= seq![c]);
    assert(none.push(pattern)[0] == pattern);
    assert(none.push(pattern) =~= seq![pattern]);
    lemma_short(option(c));
    lemma_no_dash(pattern);
}

proof fn lemma_grep_literals()
    ensures
        "-f"@ == option('f') && "-e"@ == option('e') && "-A"@ == option('A'),
        "-B"@ == option('B') && "-C"@ == option('C') && "-m"@ == option('m'),
        "-r"@ == option('r') && "-R"@ == option('R') && "--"@ == option('-'),
{
    reveal_strlit("-f");
    reveal_strlit("-e");
    reveal_strlit("-A");
    reveal_strlit("-B");
    reveal_strlit("-C");
    reveal_strlit("-m");
    reveal_strlit("-r");
    reveal_strlit("-R");
    reveal_strlit("--");
    assert("-f"@ =~= option('f') && "-e"@ =~= option('e') && "-A"@ =~= option('A'));
    assert("-B"@ =~= option('B') && "-C"@ =~= option('C') && "-m"@ =~= option('m'));
    assert("-r"@ =~= option('r') && "-R"@ =~= option('R') && "--"@ =~= option('-'));
}

/// An argument of two characters is none of the long options.
proof fn lemma_short(s: Seq<char>)
    requires
        s.len() <= 2,
    ensures
        !starts_with(s, "--include="@) && !starts_with(s, "--exclude="@) && s != "--color"@,
        !starts_with(s, "--color="@) && s != "--recursive"@,
{
    reveal_strlit("--include=");
    reveal_strlit("--exclude=");
    reveal_strlit("--color");
    reveal_strlit("--color=");
    reveal_strlit("--recursive");
}

/// An operand is none of the options.
proof fn lemma_no_dash(s: Seq<char>)
    requires
        is_operand(s),
    ensures
        !starts_with(s, "--include="@) && !starts_with(s, "--exclude="@) && s != "--color"@,
        !starts_with(s, "--color="@) && s != "--recursive"@,
        forall|c: char| s != #[trigger] option(c),
{
    reveal_strlit("--include=");
    reveal_strlit("--exclude=");
    reveal_strlit("--color");
    reveal_strlit("--color=");
    reveal_strlit("--recursive");
    if s.len() > 0 {
        assert("--color"@[0] == '-' && "--recursive"@[0] == '-');
        if starts_with(s, "--include="@) {
            assert(s.take("--include="@.len() as int)[0] == s[0]);
        }
        if starts_with(s, "--exclude="@) {
            assert(s.take("--exclude="@.len() as int)[0] == s[0]);
        }
        if starts_with(s, "--color="@) {
            assert(s.take("--color="@.len() as int)[0] == s[0]);
        }
        assert forall|c: char| s != #[trigger] option(c) by {
            assert(option(c)[0] == '-');
        }
    } else {
        assert forall|c: char| s != #[trigger] option(c) by {
            assert(option(c).len() == 2);
        }
    }
}

/// `grep -e` gives a pattern, `-A` and `-B` and `-C` say how many lines come with a selected one, and
/// `-m` how many lines are selected at most.
pub proof fn law_grep_values(n: nat, pattern: Seq<char>)
    requires
        n <= usize::MAX,
        is_operand(pattern),
    ensures
        grep_stage(seq![option('e'), pattern]) == Some((grep_flagged(' '), seq![pattern])),
        grep_stage(seq![option('A'), dec(n), pattern]) == Some(
            (
                StreamingGrepFlags { after_context: n as usize, ..grep_flagged(' ') },
                seq![pattern],
            ),
        ),
        grep_stage(seq![option('B'), dec(n), pattern]) == Some(
            (
                StreamingGrepFlags { before_context: n as usize, ..grep_flagged(' ') },
                seq![pattern],
            ),
        ),
        grep_stage(seq![option('C'), dec(n), pattern]) == Some(
            (
                StreamingGrepFlags {
                    after_context: n as usize,
                    before_context: n as usize,
                    ..grep_flagged(' ')
                },
                seq![pattern],
            ),
        ),
        grep_stage(seq![option('m'), dec(n), pattern]) == Some(
            (
                StreamingGrepFlags { max_count: Some(n as usize), ..grep_flagged(' ') },
                seq![pattern],
            ),
        ),
{
    lemma_grep_value('e', n, pattern);
    lemma_grep_value('A', n, pattern);
    lemma_grep_value('B', n, pattern);
    lemma_grep_value('C', n, pattern);
    lemma_grep_value('m', n, pattern);
}

proof fn lemma_grep_value(c: char, n: nat, pattern: Seq<char>)
    requires
        n <= usize::MAX,
        is_operand(pattern),
        c == 'e' || c == 'A' || c == 'B' || c == 'C' || c == 'm',
    ensures
        c == 'e' ==> grep_stage(seq![option(c), pattern]) == Some(
            (grep_flagged(' '), seq![pattern]),
        ),
        c != 'e' ==> grep_stage(seq![option(c), dec(n), pattern]) == Some(
            (
                StreamingGrepFlags {
                    after_context: if c == 'A' || c == 'C' {
                        n as usize
                    } else {
                        0
                    },
                    before_context: if c == 'B' || c == 'C' {
                        n as usize
                    } else {
                        0
                    },
                    max_count: if c == 'm' {
                        Some(n as usize)
                    } else {
                        None
                    },
                    ..grep_flagged(' ')
                },
                seq![pattern],
            ),
        ),
{
    reveal_with_fuel(grep_args, 4);
    lemma_grep_literals();
    lemma_number(n);
    let none = Seq::<Seq<char>>::empty();
    assert(none.push(pattern) =~= seq![pattern]);
    assert(none.push(pattern)[0] == pattern);
    assert(option(c)[0] == '-' && option(c)[1] == c && option(c).len() == 2);
    assert(option('f')[1] == 'f' && option('e')[1] == 'e' && option('A')[1] == 'A');
    assert(option('B')[1] == 'B' && option('C')[1] == 'C' && option('m')[1] == 'm');
    assert(option('r')[1] == 'r' && option('R')[1] == 'R' && option('-')[1] == '-');
    lemma_short(option(c));
    lemma_no_dash(pattern);
    let a = seq![option(c), dec(n), pattern];
    assert(a[0] == option(c) && a[1] == dec(n) && a[2] == pattern);
    let b = seq![option(c), pattern];
    assert(b[0] == option(c) && b[1] == pattern);
}

/// Each letter of `uniq` sets its own flag and no other, and `-f`, `-s` and `-w` their numbers.
pub proof fn law_uniq_options(c: char, n: nat)
    requires
        n <= usize::MAX,
    ensures
        c == 'c' || c == 'd' || c == 'u' || c == 'i' ==> uniq_args(
            seq![option(c)],
            0,
            uniq_default(),
        ) == Some(
            StreamingUniqFlags {
                count: c == 'c',
                duplicates_only: c == 'd',
                unique_only: c == 'u',
                ignore_case: c == 'i',
                skip_fields: 0,
                skip_chars: 0,
                compare_chars: None,
            },
        ),
        c == 'f' || c == 's' || c == 'w' ==> uniq_args(
            seq![option(c), dec(n)],
            0,
            uniq_default(),
        ) == Some(
            StreamingUniqFlags {
                count: false,
                duplicates_only: false,
                unique_only: false,
                ignore_case: false,
                skip_fields: if c == 'f' {
                    n as usize
                } else {
                    0
                },
                skip_chars: if c == 's' {
                    n as usize
                } else {
                    0
                },
                compare_chars: if c == 'w' {
                    Some(n as usize)
                } else {
                    None
                },
            },
        ),
{
    reveal_with_fuel(uniq_args, 4);
    reveal_with_fuel(uniq_letters, 3);
    lemma_number(n);
    reveal_strlit("-f");
    reveal_strlit("-s");
    reveal_strlit("-w");
    reveal_strlit("--");
    assert("-f"@ =~= option('f') && "-s"@ =~= option('s') && "-w"@ =~= option('w'));
    assert("--"@ =~= option('-'));
    assert(option(c)[0] == '-' && option(c)[1] == c && option(c).len() == 2);
    assert(option('f')[1] == 'f' && option('s')[1] == 's' && option('w')[1] == 'w');
    assert(option('-')[1] == '-');
    assert(option(c).skip(1) =~= seq![c]);
    assert(seq![option(c), dec(n)][1] == dec(n));
}

/// `wc` counts lines, words and bytes, or with letters just what they say.
pub proof fn law_wc_options(c: char)
    ensures
        wc_stage(Seq::empty()) == Some(
            StreamingWcFlags { lines: true, words: true, bytes: true, max_line_length: false },
        ),
        c == 'l' || c == 'w' || c == 'c' || c == 'L' ==> wc_stage(seq![option(c)]) == Some(
            StreamingWcFlags {
                lines: c == 'l',
                words: c == 'w',
                bytes: c == 'c',
                max_line_length: c == 'L',
            },
        ),
{
    reveal_with_fuel(wc_args, 3);
    reveal_with_fuel(wc_letters, 3);
    reveal_strlit("--");
    assert("--"@ =~= option('-'));
    assert(option('-')[1] == '-');
    assert(option(c)[0] == '-' && option(c)[1] == c && option(c).len() == 2);
    assert(option(c).skip(1) =~= seq![c]);
}

/// `tr` with two sets translates the one into the other, `-d` deletes a set, `-s` squeezes it, and
/// `-c` takes its complement.
pub proof fn law_tr_options(c: char, a: Seq<char>, b: Seq<char>)
    requires
        is_operand(a),
        is_operand(b),
    ensures
        tr_stage(seq![a, b]) == Some(
            (
                TrFlags { delete: false, squeeze: false, complement: false },
                expand_set(a, 0),
                expand_set(b, 0),
            ),
        ),
        c == 'd' || c == 's' ==> tr_stage(seq![option(c), a]) == Some(
            (
                TrFlags { delete: c == 'd', squeeze: c == 's', complement: false },
                expand_set(a, 0),
                Seq::<char>::empty(),
            ),
        ),
        c == 'c' ==> tr_stage(seq![option(c), a, b]) == Some(
            (
                TrFlags { delete: false, squeeze: false, complement: true },
                expand_set(a, 0),
                expand_set(b, 0),
            ),
        ),
        tr_stage(seq![a]) is None,
{
    reveal_with_fuel(tr_args, 5);
    reveal_with_fuel(tr_letters, 3);
    assert(option(c)[0] == '-' && option(c)[1] == c && option(c).len() == 2);
    assert(option(c).skip(1) =~= seq![c]);
    let none = Seq::<Seq<char>>::empty();
    assert(none.push(a).push(b)[0] == a && none.push(a).push(b)[1] == b);
    assert(none.push(a)[0] == a);
    let x = seq![option(c), a, b];
    assert(x[0] == option(c) && x[1] == a && x[2] == b);
    let y = seq![a, b];
    assert(y[0] == a && y[1] == b);
    let z = seq![option(c), a];
    assert(z[0] == option(c) && z[1] == a);
}

/// `tee` writes to the files that it names, anew or with `-a` behind what they hold.
pub proof fn law_tee_options(file: Seq<char>, other: Seq<char>)
    requires
        is_operand(file),
        is_operand(other),
    ensures
        ({
            let none = TeeArgs { append: false, paths: Seq::empty() };
            &&& tee_args(seq![file, other], 0, none) == Some(
                TeeArgs { append: false, paths: seq![file, other] },
            )
            &&& tee_args(seq![option('a'), file], 0, none) == Some(
                TeeArgs { append: true, paths: seq![file] },
            )
        }),
{
    reveal_with_fuel(tee_args, 4);
    reveal_with_fuel(tee_letters, 3);
    reveal_strlit("--");
    assert("--"@ =~= option('-'));
    lemma_no_dash(file);
    lemma_no_dash(other);
    let c = 'a';
    assert(option(c)[0] == '-' && option(c)[1] == c && option(c).len() == 2);
    assert(option('-')[1] == '-');
    assert(option(c).skip(1) =~= seq![c]);
    let empty = Seq::<Seq<char>>::empty();
    assert(empty.push(file).push(other) =~= seq![file, other]);
    assert(empty.push(file) =~= seq![file]);
    let x = seq![file, other];
    assert(x[0] == file && x[1] == other);
    let y = seq![option('a'), file];
    assert(y[0] == option('a') && y[1] == file);
}

proof fn lemma_first_index(a: Seq<char>, c: char, b: Seq<char>)
    requires
        !a.contains(c),
    ensures
        index_of_char(a + seq![c] + b, c) == a.len(),
        index_of_char(a, c) == a.len(),
    decreases a.len(),
{
    let s = a + seq![c] + b;
    if a.len() == 0 {
        assert(s[0] == c);
    } else {
        let t = a.skip(1);
        assert(a.contains(a[0]));
        assert forall|x: char| #[trigger] t.contains(x) implies a.contains(x) by {
            let i = choose|i: int| 0 <= i < t.len() && t[i] == x;
            assert(a[i + 1] == x);
        }
        lemma_first_index(t, c, b);
        assert(s[0] == a[0]);
        assert(s.skip(1) =~= t + seq![c] + b);
    }
}

proof fn lemma_dec_holds(n: nat, c: char)
    requires
        !is_digit(c),
    ensures
        !dec(n).contains(c),
{
    lemma_dec_digits(n);
    if dec(n).contains(c) {
        let i = choose|i: int| 0 <= i < dec(n).len() && dec(n)[i] == c;
        assert(is_digit(dec(n)[i]));
    }
}

/// A list of `cut` and the range of `bat` write ranges: `a-b` and `a:b` from `a` to `b`, `a-` from `a`
/// on, `-b` up to `b`, and `a` alone; the parts of a list stand between commas.
pub proof fn law_written_ranges(a: nat, b: nat)
    requires
        a <= usize::MAX,
        b <= usize::MAX,
    ensures
        ({
            let x = a as usize;
            let y = b as usize;
            &&& cut_range(dec(a) + seq!['-'] + dec(b)) == Some(
                StreamingCutRange { start: Some(x), end: Some(y) },
            )
            &&& cut_range(dec(a) + seq!['-']) == Some(
                StreamingCutRange { start: Some(x), end: None },
            )
            &&& cut_range(seq!['-'] + dec(b)) == Some(
                StreamingCutRange { start: None, end: Some(y) },
            )
            &&& cut_range(dec(a)) == Some(StreamingCutRange { start: Some(x), end: Some(x) })
            &&& bat_range(dec(a) + seq![':'] + dec(b)) == Some((Some(x), Some(y)))
            &&& bat_range(dec(a) + seq![':']) == Some((Some(x), None::<usize>))
            &&& bat_range(seq![':'] + dec(b)) == Some((None::<usize>, Some(y)))
            &&& bat_range(dec(a)) == Some((Some(x), Some(x)))
        }),
{
    lemma_number(a);
    lemma_number(b);
    lemma_pair(a, b, '-');
    lemma_pair(a, b, ':');
}

proof fn lemma_pair(a: nat, b: nat, c: char)
    requires
        a <= usize::MAX,
        b <= usize::MAX,
        c == '-' || c == ':',
    ensures
        ({
            let x = dec(a) + seq![c] + dec(b);
            let y = dec(a) + seq![c];
            let z = seq![c] + dec(b);
            &&& index_of_char(x, c) < x.len() && number_pair(x, c) == (
                Some(a as usize),
                Some(b as usize),
            )
            &&& index_of_char(y, c) < y.len() && number_pair(y, c) == (
                Some(a as usize),
                None::<usize>,
            )
            &&& index_of_char(z, c) < z.len() && number_pair(z, c) == (
                None::<usize>,
                Some(b as usize),
            )
            &&& index_of_char(dec(a), c) == dec(a).len()
        }),
{
    let none = Seq::<char>::empty();
    lemma_number(a);
    lemma_number(b);
    lemma_dec_holds(a, c);
    lemma_first_index(dec(a), c, dec(b));
    lemma_first_index(dec(a), c, none);
    lemma_first_index(none, c, dec(b));
    let x = dec(a) + seq![c] + dec(b);
    let n = dec(a).len() as int;
    assert(x.take(n) =~= dec(a));
    assert(x.skip(n + 1) =~= dec(b));
    let y = dec(a) + seq![c];
    assert(y + none =~= y);
    assert(y.take(n) =~= dec(a));
    assert(y.skip(n + 1) =~= none);
    let z = seq![c] + dec(b);
    assert(none + seq![c] + dec(b) =~= z);
    assert(z.take(0) =~= none);
    assert(z.skip(1) =~= dec(b));
    assert(number_of(none) is None);
}

/// A list of `cut` holds the ranges of its parts, in their order.
pub proof fn law_cut_lists_hold_their_parts(parts: Seq<Seq<char>>, last: Seq<char>)
    requires
        parts.len() > 0,
        forall|i: int| 0 <= i < parts.len() ==> !(#[trigger] parts[i]).contains(','),
        !last.contains(','),
    ensures
        cut_list(joined(parts, seq![',']) + seq![','] + last) == cut_list(joined(parts, seq![',']))
            + (match cut_range(last) {
            Some(r) => seq![r],
            None => Seq::empty(),
        }),
        cut_list(last) == (match cut_range(last) {
            Some(r) => seq![r],
            None => Seq::empty(),
        }),
{
    let all = parts.push(last);
    assert forall|i: int| 0 <= i < all.len() implies !(#[trigger] all[i]).contains(',') by {
        if i < parts.len() {
            assert(all[i] == parts[i]);
        }
    }
    law_joined_words_split_again(parts, ',');
    law_joined_words_split_again(all, ',');
    assert(all.drop_last() =~= parts);
    assert(joined(all, seq![',']) == joined(parts, seq![',']) + seq![','] + last);
    let before = cut_parts(parts);
    match cut_range(last) {
        Some(r) => {
            assert(before.push(r) =~= before + seq![r]);
        },
        None => {
            assert(before =~= before + Seq::<StreamingCutRange>::empty());
        },
    }
    let one = seq![last];
    law_joined_words_split_again(one, ',');
    assert(one.drop_last() =~= Seq::<Seq<char>>::empty());
    assert(cut_parts(one.drop_last()) =~= Seq::<StreamingCutRange>::empty());
    let none = Seq::<StreamingCutRange>::empty();
    if let Some(r) = cut_range(last) {
        assert(none.push(r) =~= seq![r]);
    }
}

/// The delimiter, the list and the marks that the options of `cut` give.
pub proof fn law_cut_options(c: char, list: Seq<char>, delim: Seq<char>)
    requires
        c == 'f' || c == 'c' || c == 'b',
        delim.len() > 0,
    ensures
        ({
            let mode = if c == 'f' {
                CutMode::Fields(cut_list(list))
            } else if c == 'c' {
                CutMode::Chars(cut_list(list))
            } else {
                CutMode::Bytes(cut_list(list))
            };
            &&& cut_args(seq![option(c), list], 0, cut_default()) == Some(
                CutArgs {
                    delim: '\t',
                    mode: Some(mode),
                    complement: false,
                    only_delimited: false,
                    output_delim: None,
                },
            )
            &&& cut_args(seq![option('d'), delim, option(c), list], 0, cut_default()) == Some(
                CutArgs {
                    delim: delim[0],
                    mode: Some(mode),
                    complement: false,
                    only_delimited: false,
                    output_delim: None,
                },
            )
            &&& cut_args(seq![option('s'), option(c), list], 0, cut_default()) == Some(
                CutArgs {
                    delim: '\t',
                    mode: Some(mode),
                    complement: false,
                    only_delimited: true,
                    output_delim: None,
                },
            )
        }),
{
    reveal_with_fuel(cut_args, 4);
    reveal_strlit("-d");
    reveal_strlit("-f");
    reveal_strlit("-c");
    reveal_strlit("-b");
    reveal_strlit("-s");
    reveal_strlit("-z");
    reveal_strlit("--");
    reveal_strlit("--complement");
    reveal_strlit("--output-delimiter=");
    assert("-d"@ =~= option('d') && "-f"@ =~= option('f') && "-c"@ =~= option('c'));
    assert("-b"@ =~= option('b') && "-s"@ =~= option('s') && "-z"@ =~= option('z'));
    assert(option('d')[1] == 'd' && option('f')[1] == 'f' && option('c')[1] == 'c');
    assert(option('b')[1] == 'b' && option('s')[1] == 's' && option(c)[1] == c);
    assert(option(c).take(2) =~= option(c));
    assert(option('s').take(2) =~= option('s'));
    assert(option(c).len() == 2 && option('s').len() == 2 && option('d').len() == 2);
    let x = seq![option(c), list];
    assert(x[0] == option(c) && x[1] == list);
    let y = seq![option('d'), delim, option(c), list];
    assert(y[0] == option('d') && y[1] == delim && y[2] == option(c) && y[3] == list);
    let z = seq![option('s'), option(c), list];
    assert(z[0] == option('s') && z[1] == option(c) && z[2] == list);
}

/// The letters of `grep` that decide whether the name of the input is shown; `-P` is another name for
/// `-E`, `-z` asks for nothing, and a letter that `grep` does not have is refused.
pub proof fn law_grep_other_letters(f: StreamingGrepFlags, c: char)
    ensures
        grep_letter(f, 'h') == Some(StreamingGrepFlags { show_filename: Some(false), ..f }),
        grep_letter(f, 'H') == Some(StreamingGrepFlags { show_filename: Some(true), ..f }),
        grep_letter(f, 'P') == grep_letter(f, 'E'),
        grep_letter(f, 'z') == Some(f),
        c as int <= 0x40 || c as int > 0x7a || c == 'x' || c == 's' || c == 'L' ==> grep_letter(
            f,
            c,
        ) is None,
{
}

} // verus!
