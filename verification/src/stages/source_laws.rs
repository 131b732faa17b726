//! What `echo` and `yes` write.
use crate::stages::option_laws::is_operand;
use crate::stages::sources::{
    echo_bytes, echo_escapes, echo_flags, echo_has, is_echo_flag, yes_line,
};
use crate::stream::simple::copies;
use crate::text::joined;
use vstd::prelude::*;
use vstd::utf8::encode_utf8;

verus! {

/// `echo` writes its arguments with one blank between each two and a newline behind them, and with
/// `-n` without the newline.
pub proof fn law_echo(args: Seq<Seq<char>>)
    requires
        args.len() > 0 ==> is_operand(args[0]),
    ensures
        echo_bytes(args) == encode_utf8(joined(args, seq![' '])) + seq![0x0au8],
        echo_bytes(seq![seq!['-', 'n']] + args) == encode_utf8(joined(args, seq![' '])),
{
    reveal_strlit(" ");
    assert(" "@ =~= seq![' ']);
    let text = joined(args, seq![' ']);
    assert(echo_flags(args, 0) == 0);
    assert(args.skip(0) =~= args);
    assert(!echo_has(args, 0, 'e') && !echo_has(args, 0, 'n'));
    assert(encode_utf8(text).push(0x0a) =~= encode_utf8(text) + seq![0x0au8]);
    let flag = seq!['-', 'n'];
    let all = seq![flag] + args;
    assert(all[0] == flag && flag[0] == '-' && flag[1] == 'n');
    assert(is_echo_flag(flag));
    if args.len() > 0 {
        assert(all[1] == args[0]);
    }
    assert(echo_flags(all, 1) == 0);
    assert(echo_flags(all, 0) == 1);
    assert(all.skip(1) =~= args);
    assert(echo_has(all, 1, 'n')) by {
        assert(all[0].contains(flag[1]));
    }
    assert(!echo_has(all, 1, 'e')) by {
        if echo_has(all, 1, 'e') {
            let i = choose|i: int| 0 <= i < 1 && i < all.len() && (#[trigger] all[i]).contains('e');
            let k = choose|k: int| 0 <= k < flag.len() && flag[k] == 'e';
        }
    }
}

proof fn lemma_plain_escapes(t: Seq<u8>, i: int)
    requires
        0 <= i <= t.len(),
        !t.contains(0x5cu8),
    ensures
        echo_escapes(t, i) == Seq::new((t.len() - i) as nat, |k: int| t[i + k] as char),
    decreases t.len() - i,
{
    let want = Seq::new((t.len() - i) as nat, |k: int| t[i + k] as char);
    if i < t.len() {
        assert(t.contains(t[i]));
        lemma_plain_escapes(t, i + 1);
        assert(echo_escapes(t, i) =~= want);
    } else {
        assert(want =~= Seq::<char>::empty());
    }
}

/// With `-e` a text without backslashes stays, byte by byte, and behind a backslash `n`, `t`, `r` and
/// a backslash are a line end, a tab, a carriage return and a backslash; before another byte the
/// backslash stays.
pub proof fn law_echo_escapes(t: Seq<u8>, i: int, b: u8)
    requires
        0 <= i,
        i + 1 < t.len(),
        t[i] == 0x5c,
        t[i + 1] == b,
    ensures
        echo_escapes(t, i) == (if b == 0x6e {
            seq!['\n']
        } else if b == 0x74 {
            seq!['\t']
        } else if b == 0x72 {
            seq!['\r']
        } else if b == 0x5c {
            seq!['\\']
        } else {
            seq!['\\', b as char]
        }) + echo_escapes(t, i + 2),
        !t.skip(i + 2).contains(0x5cu8) ==> echo_escapes(t.skip(i + 2), 0) == Seq::new(
            (t.len() - i - 2) as nat,
            |k: int| t[i + 2 + k] as char,
        ),
{
    let rest = t.skip(i + 2);
    if !rest.contains(0x5cu8) {
        lemma_plain_escapes(rest, 0);
        assert(echo_escapes(rest, 0) =~= Seq::new(
            (t.len() - i - 2) as nat,
            |k: int| t[i + 2 + k] as char,
        ));
    }
}

/// `yes` repeats its arguments with blanks between them, or a `y`.
pub proof fn law_yes(args: Seq<Seq<char>>, n: nat)
    ensures
        yes_line(Seq::empty()) == encode_utf8(seq!['y']) + seq![0x0au8],
        args.len() > 0 ==> yes_line(args) == encode_utf8(joined(args, seq![' '])) + seq![0x0au8],
        copies(yes_line(args), n + 1) == yes_line(args) + copies(yes_line(args), n),
        copies(yes_line(args), 0) == Seq::<u8>::empty(),
    decreases n,
{
    reveal_strlit(" ");
    reveal_strlit("y");
    assert(" "@ =~= seq![' ']);
    assert("y"@ =~= seq!['y']);
    let y = encode_utf8(seq!['y']);
    assert(y.push(0x0a) =~= y + seq![0x0au8]);
    let a = encode_utf8(joined(args, seq![' ']));
    assert(a.push(0x0a) =~= a + seq![0x0au8]);
    let line = yes_line(args);
    if n > 0 {
        law_yes(args, (n - 1) as nat);
    }
    assert(copies(line, n + 1) =~= line + copies(line, n)) by {
        lemma_copies(line, n);
    }
}

proof fn lemma_copies(line: Seq<u8>, n: nat)
    ensures
        copies(line, n + 1) == line + copies(line, n),
    decreases n,
{
    reveal_with_fuel(copies, 2);
    if n > 0 {
        lemma_copies(line, (n - 1) as nat);
    }
    assert(copies(line, n + 1) =~= line + copies(line, n));
}

/// Only a dash with the letters `n` and `e` behind it is an option of `echo`; every other word is
/// written, and so is every word behind it.
pub proof fn law_echo_words(word: Seq<char>, args: Seq<Seq<char>>, k: int)
    requires
        1 <= k < word.len(),
        word[k] != 'n' && word[k] != 'e',
    ensures
        echo_bytes(seq![word] + args) == encode_utf8(joined(seq![word] + args, seq![' ']))
            + seq![0x0au8],
        echo_bytes(seq![seq!['-']] + args) == encode_utf8(joined(seq![seq!['-']] + args, seq![' ']))
            + seq![0x0au8],
{
    reveal_strlit(" ");
    assert(" "@ =~= seq![' ']);
    let all = seq![word] + args;
    assert(all[0] == word);
    assert(!is_echo_flag(word)) by {
        assert(word[k] != 'n');
    }
    lemma_no_echo_flags(all);
    let dash = seq![seq!['-']] + args;
    assert(dash[0] == seq!['-']);
    lemma_no_echo_flags(dash);
}

proof fn lemma_no_echo_flags(all: Seq<Seq<char>>)
    requires
        all.len() > 0,
        !is_echo_flag(all[0]),
    ensures
        echo_bytes(all) == encode_utf8(joined(all, " "@)) + seq![0x0au8],
{
    assert(echo_flags(all, 0) == 0);
    assert(all.skip(0) =~= all);
    let text = joined(all, " "@);
    assert(!echo_has(all, 0, 'e') && !echo_has(all, 0, 'n'));
    assert(encode_utf8(text).push(0x0a) =~= encode_utf8(text) + seq![0x0au8]);
}

} // verus!
