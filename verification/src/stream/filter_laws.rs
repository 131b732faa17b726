//! What the filters make of their lines.
use crate::ascii::NEWLINE;
use crate::stream::bat::{
    bat_footer, bat_header, rule_line, visible, visible_char, BatStream, StreamingBatStage,
};
use crate::stream::cut::{
    cut_items, cut_line, in_cut_range, in_cut_ranges, CutStream, StreamingCutMode,
    StreamingCutRange, StreamingCutStage,
};
use crate::stream::lines::{byte_lines, line_bytes, run_lines, LineStage};
use crate::stream::sed::all_lines;
use crate::stream::sed_laws::within;
use crate::stream::simple::{PasteSerialStream, RevStream};
use crate::text::{dec, joined, padded};
use crate::text_laws::law_joined_words_split_again;
use vstd::prelude::*;
use vstd::utf8::encode_utf8;

verus! {

proof fn lemma_line_grows(cur: Seq<u8>, w: Seq<u8>, rest: Seq<u8>)
    requires
        !w.contains(NEWLINE),
    ensures
        byte_lines(cur, w + rest) == byte_lines(cur + w, rest),
    decreases w.len(),
{
    if w.len() == 0 {
        assert(w + rest =~= rest);
        assert(cur + w =~= cur);
    } else {
        let v = w.skip(1);
        assert(w.contains(w[0]));
        assert forall|b: u8| #[trigger] v.contains(b) implies w.contains(b) by {
            let i = choose|i: int| 0 <= i < v.len() && v[i] == b;
            assert(w[i + 1] == b);
        }
        assert((w + rest)[0] == w[0]);
        assert((w + rest).skip(1) =~= v + rest);
        lemma_line_grows(cur.push(w[0]), v, rest);
        assert(cur.push(w[0]) + v =~= cur + w);
    }
}

/// A line ends at its newline, and the next one starts behind it; what stands behind the last
/// newline is a line too unless it is empty.
pub proof fn law_lines_end_at_newlines(w: Seq<u8>, rest: Seq<u8>)
    requires
        !w.contains(0x0au8),
    ensures
        byte_lines(Seq::empty(), w + seq![0x0au8] + rest) == seq![w] + byte_lines(
            Seq::empty(),
            rest,
        ),
        byte_lines(Seq::empty(), w) == (if w.len() == 0 {
            Seq::<Seq<u8>>::empty()
        } else {
            seq![w]
        }),
{
    let none = Seq::<u8>::empty();
    let tail = seq![0x0au8] + rest;
    assert(w + seq![0x0au8] + rest =~= w + tail);
    lemma_line_grows(none, w, tail);
    assert(none + w =~= w);
    assert(tail[0] == NEWLINE);
    assert(tail.skip(1) =~= rest);
    assert(w + none =~= w);
    lemma_line_grows(none, w, none);
}

proof fn lemma_cut_one<T>(items: Seq<T>, r: StreamingCutRange, a: int, b: int, complement: bool)
    requires
        a >= 1,
        b >= a - 1,
        forall|i: int| 1 <= i <= items.len() ==> #[trigger] in_cut_range(r, i) == (a <= i <= b),
    ensures
        cut_items(items, seq![r], complement) == if complement {
            items.take(within(a - 1, items.len())) + items.skip(within(b, items.len()))
        } else {
            items.subrange(within(a - 1, items.len()), within(b, items.len()))
        },
    decreases items.len(),
{
    let n = items.len();
    let x = within(a - 1, n);
    let y = within(b, n);
    if n == 0 {
        assert(items.subrange(x, y) =~= items);
        assert(items.take(x) + items.skip(y) =~= items);
    } else {
        let d = items.drop_last();
        lemma_cut_one(d, r, a, b, complement);
        let k = n as int;
        assert(seq![r][0] == r);
        assert(in_cut_ranges(seq![r], k) == in_cut_range(r, k)) by {
            if in_cut_range(r, k) {
                assert(in_cut_range(seq![r][0], k));
            }
        }
        let x1 = within(a - 1, d.len());
        let y1 = within(b, d.len());
        if a <= k <= b {
            assert(items.subrange(x, y) =~= d.subrange(x1, y1).push(items.last()));
            assert(items.take(x) + items.skip(y) =~= d.take(x1) + d.skip(y1));
        } else {
            assert(items.subrange(x, y) =~= d.subrange(x1, y1));
            assert(items.take(x) + items.skip(y) =~= (d.take(x1) + d.skip(y1)).push(items.last()));
        }
    }
}

/// A range `a-b` keeps the items from `a` to `b`, both included and counted from one; `a-` keeps all
/// from `a` on, `-b` all up to `b`, and `a` alone the one; the complement keeps the others, in their
/// order.
pub proof fn law_cut_ranges<T>(items: Seq<T>, a: usize, b: usize)
    requires
        1 <= a <= b,
    ensures
        ({
            let n = items.len();
            let x = within(a - 1, n);
            let y = within(b as int, n);
            let both = seq![StreamingCutRange { start: Some(a), end: Some(b) }];
            let from = seq![StreamingCutRange { start: Some(a), end: None }];
            let upto = seq![StreamingCutRange { start: None, end: Some(b) }];
            &&& cut_items(items, both, false) == items.subrange(x, y)
            &&& cut_items(items, both, true) == items.take(x) + items.skip(y)
            &&& cut_items(items, from, false) == items.skip(x)
            &&& cut_items(items, from, true) == items.take(x)
            &&& cut_items(items, upto, false) == items.take(y)
            &&& cut_items(items, upto, true) == items.skip(y)
        }),
{
    let n = items.len();
    let m = n as int;
    let x = within(a - 1, n);
    let y = within(b as int, n);
    let both = StreamingCutRange { start: Some(a), end: Some(b) };
    let from = StreamingCutRange { start: Some(a), end: None };
    let upto = StreamingCutRange { start: None, end: Some(b) };
    let end = if m > a - 1 {
        m
    } else {
        a - 1
    };
    lemma_cut_one(items, both, a as int, b as int, false);
    lemma_cut_one(items, both, a as int, b as int, true);
    lemma_cut_one(items, from, a as int, end, false);
    lemma_cut_one(items, from, a as int, end, true);
    lemma_cut_one(items, upto, 1, b as int, false);
    lemma_cut_one(items, upto, 1, b as int, true);
    assert(items.subrange(x, m) =~= items.skip(x));
    assert(items.take(x) + items.skip(m) =~= items.take(x));
    assert(items.subrange(0, y) =~= items.take(y));
    assert(items.take(0) + items.skip(y) =~= items.skip(y));
}

/// More ranges keep more: a position is kept where one of the ranges holds it.
pub proof fn law_cut_lists(a: Seq<StreamingCutRange>, b: Seq<StreamingCutRange>, idx: int)
    ensures
        in_cut_ranges(a + b, idx) <==> in_cut_ranges(a, idx) || in_cut_ranges(b, idx),
        !in_cut_ranges(Seq::empty(), idx),
{
    let all = a + b;
    if in_cut_ranges(all, idx) {
        let k = choose|k: int| 0 <= k < all.len() && in_cut_range(#[trigger] all[k], idx);
        if k < a.len() {
            assert(in_cut_range(a[k], idx));
        } else {
            assert(in_cut_range(b[k - a.len()], idx));
        }
    }
    if in_cut_ranges(a, idx) {
        let k = choose|k: int| 0 <= k < a.len() && in_cut_range(#[trigger] a[k], idx);
        assert(all[k] == a[k]);
    }
    if in_cut_ranges(b, idx) {
        let k = choose|k: int| 0 <= k < b.len() && in_cut_range(#[trigger] b[k], idx);
        assert(all[a.len() + k] == b[k]);
    }
}

/// `cut -f a-b` keeps the fields from `a` to `b` of a line and writes them with the output delimiter
/// between them; `-s` drops the lines without a delimiter, and only those.
pub proof fn law_cut_fields(stage: StreamingCutStage, fields: Seq<Seq<char>>, a: usize, b: usize)
    requires
        1 <= a <= b,
        !stage.complement,
        stage.mode matches StreamingCutMode::Fields(r) && r@ == seq![
            StreamingCutRange { start: Some(a), end: Some(b) },
        ],
        fields.len() > 0,
        forall|i: int| 0 <= i < fields.len() ==> !(#[trigger] fields[i]).contains(stage.delim),
    ensures
        ({
            let line = joined(fields, seq![stage.delim]);
            let x = within(a - 1, fields.len());
            let y = within(b as int, fields.len());
            cut_line(stage, line) == (if stage.only_delimited && fields.len() == 1 {
                None
            } else {
                Some(encode_utf8(joined(fields.subrange(x, y), stage.output_delim@)))
            })
        }),
{
    let d = stage.delim;
    let line = joined(fields, seq![d]);
    law_joined_words_split_again(fields, d);
    law_cut_ranges(fields, a, b);
    if fields.len() == 1 {
        assert(line == fields[0]);
    } else {
        let before = joined(fields.drop_last(), seq![d]);
        assert(line == before + seq![d] + fields.last());
        assert(line[before.len() as int] == d);
    }
}

/// `cut -c a-b` keeps the characters from `a` to `b` of a line, `cut -b a-b` the bytes.
pub proof fn law_cut_characters(stage: StreamingCutStage, line: Seq<char>, a: usize, b: usize)
    requires
        1 <= a <= b,
        !stage.complement,
    ensures
        ({
            let one = seq![StreamingCutRange { start: Some(a), end: Some(b) }];
            let bytes = encode_utf8(line);
            &&& (stage.mode matches StreamingCutMode::Chars(r) && r@ == one) ==> cut_line(
                stage,
                line,
            ) == Some(
                encode_utf8(
                    line.subrange(within(a - 1, line.len()), within(b as int, line.len())),
                ),
            )
            &&& (stage.mode matches StreamingCutMode::Bytes(r) && r@ == one) ==> cut_line(
                stage,
                line,
            ) == Some(
                bytes.subrange(within(a - 1, bytes.len()), within(b as int, bytes.len())),
            )
        }),
{
    law_cut_ranges(line, a, b);
    law_cut_ranges(encode_utf8(line), a, b);
}

/// `cut` works on each line by itself and writes what it keeps with a newline.
pub proof fn law_cut_line_by_line(
    stage: StreamingCutStage,
    line: Seq<char>,
    rest: Seq<Seq<char>>,
)
    ensures
        run_lines::<CutStream>(stage, seq![line] + rest) == (match cut_line(stage, line) {
            Some(kept) => kept + seq![0x0au8],
            None => Seq::empty(),
        }) + run_lines::<CutStream>(stage, rest),
        run_lines::<CutStream>(stage, Seq::empty()) == Seq::<u8>::empty(),
{
    let all = seq![line] + rest;
    assert(all[0] == line);
    assert(all.skip(1) =~= rest);
    if let Some(kept) = cut_line(stage, line) {
        assert(kept.push(NEWLINE) =~= kept + seq![0x0au8]);
    }
}

/// `rev` writes each line backwards.
pub proof fn law_rev_line_by_line(line: Seq<char>, rest: Seq<Seq<char>>)
    ensures
        run_lines::<RevStream>((), seq![line] + rest) == line_bytes(
            Seq::new(line.len(), |i: int| line[line.len() - 1 - i]),
        ) + run_lines::<RevStream>((), rest),
        run_lines::<RevStream>((), Seq::empty()) == Seq::<u8>::empty(),
{
    let all = seq![line] + rest;
    assert(all[0] == line);
    assert(all.skip(1) =~= rest);
    assert(line.reverse() =~= Seq::new(line.len(), |i: int| line[line.len() - 1 - i]));
}

proof fn lemma_paste(d: Seq<char>, first: bool, lines: Seq<Seq<char>>, before: Seq<Seq<char>>)
    requires
        first == (before.len() == 0),
    ensures
        encode_utf8(joined(before, d)) + run_lines::<PasteSerialStream>((d, first), lines)
            == line_bytes(joined(before + lines, d)),
    decreases lines.len(),
{
    let none = Seq::<u8>::empty();
    if lines.len() == 0 {
        assert(before + lines =~= before);
        assert(encode_utf8(joined(before, d)) + seq![NEWLINE] =~= line_bytes(joined(before, d)));
    } else {
        let line = lines[0];
        let rest = lines.skip(1);
        let more = before.push(line);
        assert(more + rest =~= before + lines);
        lemma_paste(d, false, rest, more);
        let tail = run_lines::<PasteSerialStream>((d, false), rest);
        assert(more.drop_last() =~= before);
        if first {
            assert(more =~= seq![line]);
            assert(joined(more, d) == line);
            assert(joined(before, d) =~= Seq::<char>::empty());
            assert(encode_utf8(Seq::<char>::empty()) =~= none);
            assert(none + (encode_utf8(line) + tail) =~= encode_utf8(line) + tail);
        } else {
            let j = joined(before, d);
            assert(joined(more, d) == j + d + line);
            crate::text::lemma_utf8_concat(j, d);
            crate::text::lemma_utf8_concat(j + d, line);
            assert(encode_utf8(j) + ((encode_utf8(d) + encode_utf8(line)) + tail) =~= encode_utf8(j)
                + encode_utf8(d) + encode_utf8(line) + tail);
        }
    }
}

/// `paste -s` writes all lines as one, with the delimiter between each two.
pub proof fn law_paste_joins_the_lines(d: Seq<char>, lines: Seq<Seq<char>>)
    ensures
        run_lines::<PasteSerialStream>((d, true), lines) == line_bytes(joined(lines, d)),
{
    let none = Seq::<Seq<char>>::empty();
    lemma_paste(d, true, lines, none);
    assert(none + lines =~= lines);
    assert(joined(none, d) =~= Seq::<char>::empty());
    assert(encode_utf8(Seq::<char>::empty()) =~= Seq::<u8>::empty());
    let r = run_lines::<PasteSerialStream>((d, true), lines);
    assert(Seq::<u8>::empty() + r =~= r);
}

proof fn lemma_bat_range(stage: StreamingBatStage, n: nat, a: int, b: int, lines: Seq<Seq<char>>)
    requires
        !stage.show_numbers,
        !stage.show_header,
        !stage.show_all,
        1 <= a <= b,
        stage.line_range matches Some((Some(s), Some(e))) && s == a && e == b,
    ensures
        run_lines::<BatStream>((stage, n), lines) == all_lines(
            lines.subrange(within(a - 1 - n, lines.len()), within(b - n, lines.len())),
        ),
    decreases lines.len(),
{
    let none = Seq::<u8>::empty();
    let x = within(a - 1 - n, lines.len());
    let y = within(b - n, lines.len());
    if lines.len() == 0 {
        assert(lines.subrange(x, y) =~= lines);
    } else {
        let rest = lines.skip(1);
        lemma_bat_range(stage, n + 1, a, b, rest);
        let x1 = within(a - 1 - (n + 1), rest.len());
        let y1 = within(b - (n + 1), rest.len());
        let shown = lines.subrange(x, y);
        let more = rest.subrange(x1, y1);
        if a <= n + 1 <= b {
            assert(shown[0] == lines[0]);
            assert(shown.skip(1) =~= more);
        } else {
            assert(shown =~= more);
            assert(none + all_lines(more) =~= all_lines(more));
        }
    }
}

/// `bat` with the range `a:b` shows the lines from `a` to `b`, both included.
pub proof fn law_bat_shows_its_range(
    stage: StreamingBatStage,
    a: usize,
    b: usize,
    lines: Seq<Seq<char>>,
)
    requires
        !stage.show_numbers,
        !stage.show_header,
        !stage.show_all,
        1 <= a <= b,
        stage.line_range == Some((Some(a), Some(b))),
    ensures
        run_lines::<BatStream>((stage, 0), lines) == all_lines(
            lines.subrange(within(a - 1, lines.len()), within(b as int, lines.len())),
        ),
{
    lemma_bat_range(stage, 0, a as int, b as int, lines);
}

/// `bat` numbers the lines from one on, in a column of five characters.
pub proof fn law_bat_numbers_its_lines(
    stage: StreamingBatStage,
    n: nat,
    line: Seq<char>,
    rest: Seq<Seq<char>>,
)
    requires
        stage.show_numbers,
        !stage.show_header,
        !stage.show_all,
        stage.line_range is None,
    ensures
        run_lines::<BatStream>((stage, n), seq![line] + rest) == line_bytes(
            padded(dec(n + 1), 5) + "   \u{2502} "@ + line,
        ) + run_lines::<BatStream>((stage, n + 1), rest),
        run_lines::<BatStream>((stage, n), Seq::empty()) == Seq::<u8>::empty(),
{
    let all = seq![line] + rest;
    assert(all[0] == line);
    assert(all.skip(1) =~= rest);
}

/// Signs that are not seen are shown by their names or their numbers, in two digits of sixteen; every
/// other character stays, and each is shown by itself.
pub proof fn law_bat_shows_signs(a: Seq<char>, c: char)
    ensures
        visible(a.push(c)) == visible(a) + visible(seq![c]),
        c == '\t' ==> visible(seq![c]) == seq!['\\', 't'],
        c == '\r' ==> visible(seq![c]) == seq!['\\', 'r'],
        0x20 <= c as int <= 0x7e || c as int > 0x9f ==> visible(seq![c]) == seq![c],
        c == '\0' ==> visible(seq![c]) == seq!['\\', 'x', '0', '0'],
        c as int == 0x1b ==> visible(seq![c]) == seq!['\\', 'x', '1', 'b'],
        c as int == 0x7f ==> visible(seq![c]) == seq!['\\', 'x', '7', 'f'],
        (c as int) < 0x20 && c != '\t' && c != '\r' ==> visible(seq![c]).len() == 4 && visible(
            seq![c],
        )[2] == (if (c as int) < 0x10 {
            '0'
        } else {
            '1'
        }),
        visible(Seq::empty()).len() == 0,
{
    assert(a.push(c).drop_last() =~= a);
    let one = seq![c];
    assert(one.drop_last() =~= Seq::<char>::empty());
    assert(visible(one) == visible(one.drop_last()) + visible_char(c));
    assert(visible(one) =~= visible_char(c));
}

/// The lines above and below are made only where they are asked for.
pub proof fn law_bat_frame()
    ensures
        bat_header(false).len() == 0,
        bat_footer(false).len() == 0,
        bat_header(true) == line_bytes(rule_line('\u{252C}')) + line_bytes(rule_line('\u{253C}')),
        bat_footer(true) == line_bytes(rule_line('\u{2534}')),
        rule_line('\u{252C}').len() == 28,
{
}

} // verus!
