//! What the options of `bat`, `paste`, `column` and `sed` ask for.
use crate::stages::bat::{bat_args, bat_default, bat_letters, bat_range};
use crate::stages::option_laws::{is_operand, option};
use crate::stages::plain::{column_args, paste_args, paste_default, paste_letters, PasteArgs};
use crate::stages::sed::{sed_args, sed_args_script, sed_step, SedArgs};
use crate::stream::bat::StreamingBatStage;
use crate::text::{joined, starts_with};
use vstd::prelude::*;

verus! {

/// By itself `bat` numbers its lines and has a header, and shows all of them; the letters `n`, `p` and
/// `A` ask for numbers, for neither numbers nor a header, and for signs that are not seen.
pub proof fn law_bat_letters(st: StreamingBatStage, letters: Seq<char>, k: int)
    requires
        0 <= k < letters.len(),
    ensures
        bat_default().show_numbers && bat_default().show_header && !bat_default().show_all
            && bat_default().line_range is None,
        letters[k] == 'n' ==> bat_letters(st, letters, k) == bat_letters(
            StreamingBatStage { show_numbers: true, ..st },
            letters,
            k + 1,
        ),
        letters[k] == 'p' ==> bat_letters(st, letters, k) == bat_letters(
            StreamingBatStage { show_numbers: false, show_header: false, ..st },
            letters,
            k + 1,
        ),
        letters[k] == 'A' ==> bat_letters(st, letters, k) == bat_letters(
            StreamingBatStage { show_all: true, ..st },
            letters,
            k + 1,
        ),
        letters[k] != 'n' && letters[k] != 'p' && letters[k] != 'A' ==> bat_letters(st, letters, k)
            is None,
        bat_letters(st, letters, letters.len() as int) == Some(st),
{
}

/// The long options of `bat`, at any place among its arguments.
pub proof fn law_bat_long_options(args: Seq<Seq<char>>, i: int, st: StreamingBatStage)
    requires
        0 <= i < args.len(),
    ensures
        args[i] == "--number"@ ==> bat_args(args, i, st) == bat_args(
            args,
            i + 1,
            StreamingBatStage { show_numbers: true, ..st },
        ),
        args[i] == "--plain"@ || args[i] == "--style=plain"@ ==> bat_args(args, i, st) == bat_args(
            args,
            i + 1,
            StreamingBatStage { show_numbers: false, show_header: false, ..st },
        ),
        args[i] == "--show-all"@ ==> bat_args(args, i, st) == bat_args(
            args,
            i + 1,
            StreamingBatStage { show_all: true, ..st },
        ),
        args[i] == "--style=numbers"@ ==> bat_args(args, i, st) == bat_args(
            args,
            i + 1,
            StreamingBatStage { show_numbers: true, show_header: false, ..st },
        ),
        args[i] == "--style=header"@ ==> bat_args(args, i, st) == bat_args(
            args,
            i + 1,
            StreamingBatStage { show_numbers: false, show_header: true, ..st },
        ),
        (args[i] == "--line-range"@ || args[i] == "-r"@) && i + 1 < args.len() ==> bat_args(
            args,
            i,
            st,
        ) == bat_args(
            args,
            i + 2,
            StreamingBatStage { line_range: bat_range(args[i + 1]), ..st },
        ),
        (args[i] == "--language"@ || args[i] == "-l"@ || args[i] == "--paging"@) && i + 1
            < args.len() ==> bat_args(args, i, st) == bat_args(args, i + 2, st),
        is_operand(args[i]) ==> bat_args(args, i, st) is None,
        bat_args(args, args.len() as int, st) == Some(st),
{
    let a = args[i];
    reveal_strlit("-n");
    reveal_strlit("--number");
    reveal_strlit("-p");
    reveal_strlit("--plain");
    reveal_strlit("--style=plain");
    reveal_strlit("-A");
    reveal_strlit("--show-all");
    reveal_strlit("-r");
    reveal_strlit("--line-range");
    reveal_strlit("-l");
    reveal_strlit("--language");
    reveal_strlit("--paging");
    reveal_strlit("--style=numbers");
    reveal_strlit("--style=header");
    reveal_strlit("--style=");
    reveal_strlit("--line-range=");
    reveal_strlit("--paging=");
    reveal_strlit("--language=");
    reveal_strlit("--");
    if a == "--plain"@ || a == "--paging"@ || a == "--number"@ || a == "--style=plain"@ {
        assert("--plain"@[3] == 'l' && "--paging"@[3] == 'a' && "--number"@[2] == 'n');
        assert("--plain"@[2] == 'p' && "--style=plain"@[2] == 's');
    }
    if a == "--show-all"@ || a == "--language"@ {
        assert("--show-all"@[2] == 's' && "--language"@[2] == 'l');
    }
    if a == "-l"@ || a == "-r"@ {
        assert("-l"@[1] == 'l' && "-r"@[1] == 'r' && "-n"@[1] == 'n' && "-p"@[1] == 'p' && "-A"@[1]
            == 'A');
    }
    if is_operand(a) {
        if a.len() > 0 {
            assert(a.take(1)[0] == a[0]);
            assert("--style="@[0] == '-' && "--line-range="@[0] == '-' && "--paging="@[0] == '-'
                && "--language="@[0] == '-');
            assert(starts_with(a, "--style="@) ==> a.take(8)[0] == a[0]);
            assert(starts_with(a, "--line-range="@) ==> a.take(13)[0] == a[0]);
            assert(starts_with(a, "--paging="@) ==> a.take(9)[0] == a[0]);
            assert(starts_with(a, "--language="@) ==> a.take(11)[0] == a[0]);
        }
        assert("-n"@[0] == '-' && "--number"@[0] == '-' && "-p"@[0] == '-' && "--plain"@[0] == '-'
            && "--style=plain"@[0] == '-' && "-A"@[0] == '-' && "--show-all"@[0] == '-' && "-r"@[0]
            == '-' && "--line-range"@[0] == '-' && "-l"@[0] == '-' && "--language"@[0] == '-'
            && "--paging"@[0] == '-' && "--style=numbers"@[0] == '-' && "--style=header"@[0] == '-'
            && "--"@[0] == '-');
    }
}

/// By itself `paste` puts a tab between lines; `-d` names what stands there instead, and `-s` joins the
/// lines of one file.
pub proof fn law_paste_options(d: Seq<char>, word: Seq<char>)
    requires
        is_operand(word),
    ensures
        paste_args(Seq::empty(), 0, paste_default()) == Some(
            PasteArgs { delimiter: seq!['\t'], serial: false },
        ),
        paste_args(seq![option('d'), d], 0, paste_default()) == Some(
            PasteArgs { delimiter: d, serial: false },
        ),
        paste_args(seq![option('s')], 0, paste_default()) == Some(
            PasteArgs { delimiter: seq!['\t'], serial: true },
        ),
        paste_args(seq![option('s'), option('d'), d], 0, paste_default()) == Some(
            PasteArgs { delimiter: d, serial: true },
        ),
        paste_args(seq![seq!['-', 's', 'd'], d], 0, paste_default()) == Some(
            PasteArgs { delimiter: d, serial: true },
        ),
        paste_args(seq![word], 0, paste_default()) is None,
{
    reveal_with_fuel(paste_args, 3);
    reveal_with_fuel(paste_letters, 3);
    reveal_strlit("-d");
    reveal_strlit("-s");
    assert("-d"@ =~= option('d'));
    assert("-s"@ =~= option('s'));
    assert(option('d')[1] == 'd' && option('s')[1] == 's');
    assert(option('d')[0] == '-' && option('s')[0] == '-');
    let a = seq![option('d'), d];
    assert(a[0] == option('d') && a[1] == d);
    let b = seq![option('s')];
    assert(b[0] == option('s'));
    let c = seq![option('s'), option('d'), d];
    assert(c[0] == option('s') && c[1] == option('d') && c[2] == d);
    let t = seq!['-', 's', 'd'];
    let e = seq![t, d];
    assert(e[0] == t && e[1] == d && t[0] == '-' && t.len() == 3);
    assert(t.skip(1) =~= seq!['s', 'd']);
    let f = seq![word];
    assert(f[0] == word);
}

/// `column` without `-t` and `-s` only hands its input on; a file is not taken.
pub proof fn law_column_options(args: Seq<Seq<char>>, i: int, word: Seq<char>)
    requires
        0 <= i < args.len(),
    ensures
        args[i] == option('t') ==> !column_args(args, i),
        args[i] == option('s') && i + 1 < args.len() ==> !column_args(args, i),
        is_operand(args[i]) ==> !column_args(args, i),
        column_args(args, args.len() as int),
        args[i].len() > 2 && args[i][0] == '-' ==> column_args(args, i) == column_args(args, i + 1),
{
    reveal_strlit("-t");
    reveal_strlit("-s");
    assert("-t"@ =~= option('t'));
    assert("-s"@ =~= option('s'));
}

/// The first word of `sed` that is no option is its script; with `-e` each script that is named counts,
/// in order, and `-n` asks that lines are printed only where the script says so.
pub proof fn law_sed_options(script: Seq<char>, other: Seq<char>)
    requires
        is_operand(script),
        is_operand(other),
    ensures
        sed_args_script(seq![script]) == Some((false, script)),
        sed_args_script(seq![option('n'), script]) == Some((true, script)),
        sed_args_script(seq![option('E'), script]) == Some((false, script)),
        sed_args_script(seq![option('e'), script, option('e'), other]) == Some(
            (false, script + seq![';'] + other),
        ),
        sed_args_script(seq![script, other]) is None,
        sed_args_script(Seq::empty()) is None,
{
    reveal_with_fuel(sed_args, 4);
    reveal_with_fuel(joined, 3);
    reveal_strlit("-n");
    reveal_strlit("-e");
    reveal_strlit("-E");
    reveal_strlit("-r");
    reveal_strlit("-i");
    reveal_strlit("--");
    reveal_strlit(";");
    assert(";"@ =~= seq![';']);
    assert("-n"@ =~= option('n'));
    assert("-e"@ =~= option('e'));
    assert("-E"@ =~= option('E'));
    assert("-r"@ =~= option('r'));
    assert("-i"@ =~= option('i'));
    assert("--"@ =~= option('-'));
    assert(option('n')[1] == 'n' && option('e')[1] == 'e' && option('E')[1] == 'E');
    assert(option('n')[0] == '-' && option('e')[0] == '-' && option('E')[0] == '-' && option('r')[0]
        == '-' && option('i')[0] == '-' && option('-')[0] == '-');
    assert(!starts_with(script, "-i"@)) by {
        if starts_with(script, "-i"@) {
            assert(script.take(2)[0] == script[0]);
        }
    }
    assert(!starts_with(other, "-i"@)) by {
        if starts_with(other, "-i"@) {
            assert(other.take(2)[0] == other[0]);
        }
    }
    let none = SedArgs { suppress: false, expressions: Seq::empty() };
    let one = SedArgs { suppress: false, expressions: none.expressions.push(script) };
    let a = seq![script];
    assert(a[0] == script);
    assert(sed_step(a, 0, none) == Some((one, 1int)));
    let a = seq![option('n'), script];
    assert(a[0] == option('n') && a[1] == script);
    let a = seq![option('E'), script];
    assert(a[0] == option('E') && a[1] == script);
    let a = seq![option('e'), script, option('e'), other];
    assert(a[0] == option('e') && a[1] == script && a[2] == option('e') && a[3] == other);
    let two = one.expressions.push(other);
    assert(two.drop_last() =~= one.expressions);
    assert(joined(one.expressions, ";"@) == script);
    assert(joined(two, ";"@) == script + ";"@ + other);
    let a = seq![script, other];
    assert(a[0] == script && a[1] == other);
}

} // verus!
