//! What holds of the commands that work on files.
use crate::ascii::NEWLINE;
use crate::commands::files::{
    exec_words, filled_lines, find_exec, first_line_of, from_cwd, is_safe, is_safe_char,
    last_failure, let_status, path_places, position, quoted, searched, sourced_from, terminator, without_cr, xargs_command,
    xargs_takes_value,
};
use crate::commands::mapfile::{
    complete_lines, line_value, mapfile_name, mapfile_values, menu_upto, picked,
};
use crate::text::{
    dec, is_alnum, joined, law_dec_parses, split_on, starts_with, utf8_lossy,
};
use crate::text_laws::{law_joined_words_split_again, law_split_at_the_first};
use vstd::prelude::*;

verus! {

proof fn lemma_position_is(v: Seq<Seq<char>>, s: Seq<char>, i: int, e: int)
    requires
        0 <= i <= e <= v.len(),
        e < v.len() ==> v[e] == s,
        forall|k: int| i <= k < e ==> #[trigger] v[k] != s,
    ensures
        position(v, s, i) == e,
    decreases e - i,
{
    if i < e {
        assert(v[i] != s);
        lemma_position_is(v, s, i + 1, e);
    }
}

proof fn lemma_terminator_is(v: Seq<Seq<char>>, i: int, e: int)
    requires
        0 <= i <= e <= v.len(),
        e < v.len() ==> v[e] == "\\;"@ || v[e] == ";"@,
        forall|k: int| i <= k < e ==> #[trigger] v[k] != "\\;"@ && v[k] != ";"@,
    ensures
        terminator(v, i) == e,
    decreases e - i,
{
    if i < e {
        assert(v[i] != ";"@);
        lemma_terminator_is(v, i + 1, e);
    }
}

/// The words between `-exec` and the semicolon that ends them, escaped or not, are the command to run;
/// what stands before and behind is what `find` itself is given. Without an end or without a command
/// there is none.
pub proof fn law_exec_splits_the_words(
    before: Seq<Seq<char>>,
    command: Seq<Seq<char>>,
    end: Seq<char>,
    after: Seq<Seq<char>>,
)
    requires
        forall|i: int| 0 <= i < before.len() ==> #[trigger] before[i] != "-exec"@,
        forall|i: int|
            0 <= i < command.len() ==> #[trigger] command[i] != ";"@ && command[i] != "\\;"@,
        end == ";"@ || end == "\\;"@,
    ensures
        command.len() > 0 ==> find_exec(before + seq!["-exec"@] + command + seq![end] + after)
            == Some((command, before + after)),
        find_exec(before + seq!["-exec"@, end] + after) is None,
        find_exec(before + seq!["-exec"@] + command) is None,
        find_exec(before) is None,
{
    let v = before + seq!["-exec"@] + command + seq![end] + after;
    let e = before.len() as int;
    let t = e + 1 + command.len();
    assert forall|k: int| 0 <= k < e implies #[trigger] v[k] != "-exec"@ by {
        assert(v[k] == before[k]);
    }
    assert(v[e] == "-exec"@);
    lemma_position_is(v, "-exec"@, 0, e);
    assert forall|k: int| e + 1 <= k < t implies #[trigger] v[k] != "\\;"@ && v[k] != ";"@ by {
        assert(v[k] == command[k - e - 1]);
    }
    assert(v[t] == end);
    lemma_terminator_is(v, e + 1, t);
    assert(v.subrange(e + 1, t) =~= command);
    assert(v.take(e) + v.skip(t + 1) =~= before + after);
    let w = before + seq!["-exec"@, end] + after;
    assert forall|k: int| 0 <= k < e implies #[trigger] w[k] != "-exec"@ by {
        assert(w[k] == before[k]);
    }
    assert(w[e] == "-exec"@ && w[e + 1] == end);
    lemma_position_is(w, "-exec"@, 0, e);
    lemma_terminator_is(w, e + 1, e + 1);
    let x = before + seq!["-exec"@] + command;
    assert forall|k: int| 0 <= k < e implies #[trigger] x[k] != "-exec"@ by {
        assert(x[k] == before[k]);
    }
    assert(x[e] == "-exec"@);
    lemma_position_is(x, "-exec"@, 0, e);
    assert forall|k: int| e + 1 <= k < x.len() implies #[trigger] x[k] != "\\;"@ && x[k] != ";"@ by {
        assert(x[k] == command[k - e - 1]);
    }
    lemma_terminator_is(x, e + 1, x.len() as int);
    lemma_position_is(before, "-exec"@, 0, e);
}

/// In the words of a command `{}` gives way to the path, written so that it is one word, and nothing else
/// changes. A path of letters, digits, slashes, dots, underscores and dashes is written as it is.
pub proof fn law_braces_stand_for_the_path(
    template: Seq<Seq<char>>,
    path: Seq<char>,
    i: int,
    c: char,
)
    requires
        0 <= i < template.len(),
    ensures
        exec_words(template, path).len() == template.len(),
        exec_words(template, path)[i] == (if template[i] == "{}"@ {
            quoted(path)
        } else {
            template[i]
        }),
        is_safe(path) ==> quoted(path) == path,
        !is_safe(path) ==> quoted(path).len() >= path.len() + 2 && quoted(path)[0] == '\''
            && quoted(path).last() == '\'',
        is_safe_char(c) <==> (is_alnum(c) || c == '/' || c == '.' || c == '_' || c == '-'),
{
    lemma_quoted_length(path);
}

proof fn lemma_quoted_length(s: Seq<char>)
    ensures
        crate::commands::files::quoted_body(s).len() >= s.len(),
    decreases s.len(),
{
    if s.len() > 0 {
        lemma_quoted_length(s.drop_last());
    }
}

/// The status of many runs is zero where all of them succeeded, and else that of the last that failed.
pub proof fn law_last_failure_counts(statuses: Seq<i32>)
    ensures
        last_failure(statuses) == 0 <==> forall|i: int|
            0 <= i < statuses.len() ==> #[trigger] statuses[i] == 0,
        last_failure(statuses) != 0 ==> exists|i: int|
            0 <= i < statuses.len() && statuses[i] == last_failure(statuses) && (forall|j: int|
                i < j < statuses.len() ==> #[trigger] statuses[j] == 0),
    decreases statuses.len(),
{
    if statuses.len() > 0 {
        let n = statuses.len() - 1;
        let r = statuses.drop_last();
        law_last_failure_counts(r);
        if statuses.last() != 0 {
            assert(statuses[n] != 0);
        } else {
            assert forall|i: int| 0 <= i < r.len() implies #[trigger] r[i] == statuses[i] by {}
            if last_failure(r) == 0 {
                assert forall|i: int| 0 <= i < statuses.len() implies #[trigger] statuses[i]
                    == 0 by {
                    if i < n {
                        assert(r[i] == 0);
                    }
                }
            } else {
                let i = choose|i: int|
                    0 <= i < r.len() && r[i] == last_failure(r) && (forall|j: int|
                        i < j < r.len() ==> #[trigger] r[j] == 0);
                assert(statuses[i] == last_failure(statuses));
                assert forall|j: int| i < j < statuses.len() implies #[trigger] statuses[j]
                    == 0 by {
                    if j < n {
                        assert(r[j] == 0);
                    }
                }
            }
        }
    }
}

/// The command of `xargs` is the first word that is neither an option nor the value of one.
pub proof fn law_xargs_command_follows_the_options(
    argv: Seq<Seq<char>>,
    i: int,
)
    requires
        0 <= i < argv.len(),
    ensures
        (argv[i] == "-I"@ || argv[i] == "-n"@ || argv[i] == "-d"@ || argv[i] == "-P"@ || argv[i]
            == "-L"@) && i + 1 < argv.len() ==> xargs_command(argv, i) == xargs_command(
            argv,
            i + 2,
        ),
        !xargs_takes_value(argv[i]) && argv[i].len() > 0 && argv[i][0] == '-' ==> xargs_command(
            argv,
            i,
        ) == xargs_command(argv, i + 1),
        !(argv[i].len() > 0 && argv[i][0] == '-') ==> xargs_command(argv, i) == Some(argv[i]),
        xargs_command(argv, argv.len() as int) is None,
        xargs_takes_value(argv[i]) ==> argv[i].len() == 2 && argv[i][0] == '-',
{
    reveal_strlit("-");
    reveal_strlit("-I");
    reveal_strlit("-n");
    reveal_strlit("-d");
    reveal_strlit("-P");
    reveal_strlit("-L");
    let w = argv[i];
    if w.len() > 0 {
        assert(w.take(1)[0] == w[0]);
        if w[0] == '-' {
            assert(w.take(1) =~= "-"@);
        }
    }
    assert("-"@[0] == '-');
}

/// A relative path is looked up from the working directory, an absolute one as it is.
pub proof fn law_paths_from_the_working_directory(cwd: Seq<char>, path: Seq<char>)
    ensures
        from_cwd(cwd, seq!['/'] + path) == seq!['/'] + path,
        !(path.len() > 0 && path[0] == '/') ==> from_cwd(cwd, path) == cwd + seq!['/'] + path,
{
    reveal_strlit("/");
    assert("/"@ =~= seq!['/']);
    let s = seq!['/'] + path;
    assert(s.take(1) =~= "/"@);
    if starts_with(path, "/"@) {
        assert(path.take(1)[0] == path[0]);
    }
}

proof fn lemma_places(dirs: Seq<Seq<char>>, cwd: Seq<char>, file: Seq<char>, n: int)
    requires
        0 <= n <= dirs.len(),
        forall|i: int| 0 <= i < dirs.len() ==> (#[trigger] dirs[i]).len() > 0,
    ensures
        path_places(dirs, cwd, file, n).len() == n,
        forall|i: int|
            0 <= i < n ==> #[trigger] path_places(dirs, cwd, file, n)[i] == from_cwd(
                cwd,
                dirs[i] + "/"@ + file,
            ),
    decreases n,
{
    if n > 0 {
        lemma_places(dirs, cwd, file, n - 1);
        assert(dirs[n - 1].len() > 0);
    }
}

/// The places where a file is looked for are the directories of the path, in their order, with the name
/// behind a slash; without a path there are none.
pub proof fn law_search_path(dirs: Seq<Seq<char>>, cwd: Seq<char>, file: Seq<char>, i: int)
    requires
        0 <= i < dirs.len(),
        forall|k: int| 0 <= k < dirs.len() ==> (#[trigger] dirs[k]).len() > 0 && !dirs[k].contains(':'),
    ensures
        searched(Some(joined(dirs, seq![':'])), cwd, file).len() == dirs.len(),
        searched(Some(joined(dirs, seq![':'])), cwd, file)[i] == (if dirs[i][0] == '/' {
            dirs[i] + seq!['/'] + file
        } else {
            cwd + seq!['/'] + dirs[i] + seq!['/'] + file
        }),
        searched(None, cwd, file).len() == 0,
{
    reveal_strlit("/");
    assert("/"@ =~= seq!['/']);
    law_joined_words_split_again(dirs, ':');
    lemma_places(dirs, cwd, file, dirs.len() as int);
    let p = dirs[i] + "/"@ + file;
    assert(p[0] == dirs[i][0]);
    if p[0] == '/' {
        assert(p =~= seq!['/'] + p.skip(1));
    }
    law_paths_from_the_working_directory(cwd, p.skip(1));
    law_paths_from_the_working_directory(cwd, p);
    assert(cwd + seq!['/'] + p =~= cwd + seq!['/'] + dirs[i] + seq!['/'] + file);
}

/// The first line of a text goes up to the first newline, and a carriage return before that is no part
/// of it.
pub proof fn law_first_line(line: Seq<char>, rest: Seq<char>)
    requires
        !line.contains('\n'),
    ensures
        first_line_of(line) == line,
        first_line_of(line + seq!['\r', '\n'] + rest) == line,
        !(line.len() > 0 && line.last() == '\r') ==> first_line_of(line + seq!['\n'] + rest) == line,
{
    law_split_at_the_first(line, '\n', rest);
    let l = line.push('\r');
    assert(!l.contains('\n')) by {
        if l.contains('\n') {
            let i = choose|i: int| 0 <= i < l.len() && l[i] == '\n';
            assert(i < line.len());
            assert(line[i] == '\n');
        }
    }
    law_split_at_the_first(l, '\n', rest);
    assert(line + seq!['\r', '\n'] + rest =~= l + seq!['\n'] + rest);
    assert(l.drop_last() =~= line);
}

proof fn lemma_filled(parts: Seq<Seq<char>>, n: int)
    requires
        0 <= n < parts.len(),
        forall|i: int|
            0 <= i < n ==> (#[trigger] parts[i]).len() > 0 && parts[i].last() != '\r',
    ensures
        filled_lines(parts, n) == parts.take(n),
    decreases n,
{
    if n > 0 {
        lemma_filled(parts, n - 1);
        assert(parts[n - 1].len() > 0);
        assert(without_cr(parts[n - 1]) == parts[n - 1]);
        assert(parts.take(n - 1).push(parts[n - 1]) =~= parts.take(n));
    } else {
        assert(parts.take(0) =~= Seq::empty());
    }
}

/// Lines that are not empty, each with a newline, are read as those lines; empty lines are passed over.
pub proof fn law_lines_that_hold_something(lines: Seq<Seq<char>>, n: int)
    requires
        forall|i: int|
            0 <= i < lines.len() ==> (#[trigger] lines[i]).len() > 0 && lines[i].last() != '\r'
                && !lines[i].contains('\n'),
    ensures
        ({
            let parts = split_on(joined(lines.push(Seq::empty()), seq!['\n']), '\n');
            filled_lines(parts, parts.len() as int) == lines
        }),
{
    let all = lines.push(Seq::empty());
    assert forall|i: int| 0 <= i < all.len() implies !(#[trigger] all[i]).contains('\n') by {
        if i < lines.len() {
            assert(all[i] == lines[i]);
        }
    }
    law_joined_words_split_again(all, '\n');
    assert forall|i: int| 0 <= i < lines.len() implies (#[trigger] all[i]).len() > 0
        && all[i].last() != '\r' by {
        assert(all[i] == lines[i]);
    }
    lemma_filled(all, lines.len() as int);
    assert(all.take(lines.len() as int) =~= lines);
}

/// Each newline ends a line, and what stands behind the last one is left over: put together with their
/// newlines the lines and the rest are the data, and no line holds a newline.
pub proof fn law_complete_lines(data: Seq<u8>, more: Seq<u8>)
    requires
        !more.contains(NEWLINE),
    ensures
        complete_lines(data.push(NEWLINE) + more) == (
            complete_lines(data).0.push(complete_lines(data).1),
            more,
        ),
        complete_lines(more) == (Seq::<Seq<u8>>::empty(), more),
        !complete_lines(data).1.contains(NEWLINE),
        forall|i: int|
            0 <= i < complete_lines(data).0.len() ==> !(
            #[trigger] complete_lines(data).0[i]).contains(NEWLINE),
{
    lemma_more(data.push(NEWLINE), more);
    lemma_more(Seq::empty(), more);
    assert(Seq::<u8>::empty() + more =~= more);
    assert(data.push(NEWLINE).drop_last() =~= data);
    assert(complete_lines(data.push(NEWLINE)).1 + more =~= more);
    assert(complete_lines(Seq::<u8>::empty()).1 + more =~= more);
    lemma_no_newline(data);
}

proof fn lemma_more(data: Seq<u8>, more: Seq<u8>)
    requires
        !more.contains(NEWLINE),
    ensures
        complete_lines(data + more) == (complete_lines(data).0, complete_lines(data).1 + more),
    decreases more.len(),
{
    if more.len() == 0 {
        assert(data + more =~= data);
        assert(complete_lines(data).1 + more =~= complete_lines(data).1);
    } else {
        let m = more.drop_last();
        assert(more.contains(more[more.len() - 1]));
        assert(!m.contains(NEWLINE)) by {
            if m.contains(NEWLINE) {
                let i = choose|i: int| 0 <= i < m.len() && m[i] == NEWLINE;
                assert(more[i] == NEWLINE);
            }
        }
        lemma_more(data, m);
        assert((data + more).drop_last() =~= data + m);
        assert((complete_lines(data).1 + m).push(more.last()) =~= complete_lines(data).1 + more);
    }
}

proof fn lemma_no_newline(data: Seq<u8>)
    ensures
        !complete_lines(data).1.contains(NEWLINE),
        forall|i: int|
            0 <= i < complete_lines(data).0.len() ==> !(
            #[trigger] complete_lines(data).0[i]).contains(NEWLINE),
    decreases data.len(),
{
    if data.len() > 0 {
        lemma_no_newline(data.drop_last());
        let (lines, rest) = complete_lines(data.drop_last());
        if data.last() != NEWLINE {
            let r = rest.push(data.last());
            if r.contains(NEWLINE) {
                let i = choose|i: int| 0 <= i < r.len() && r[i] == NEWLINE;
                assert(i < rest.len());
                assert(rest[i] == NEWLINE);
            }
        }
    }
}

/// What `mapfile` keeps of a line: with `-t` its text, without it the newline too. A last line without
/// a newline counts as well.
pub proof fn law_mapfile_values(data: Seq<u8>, line: Seq<u8>, strip: bool, failed: bool)
    requires
        !line.contains(NEWLINE),
        data.len() > 0 ==> data.last() == NEWLINE,
        line.len() > 0,
    ensures
        mapfile_values(data + line, strip, false) == mapfile_values(
            data + line,
            strip,
            true,
        ).push(line_value(line, strip)),
        mapfile_values((data + line).push(NEWLINE), strip, failed) == mapfile_values(
            data + line,
            strip,
            false,
        ),
        line_value(line, true) == utf8_lossy(line),
        line_value(line, false) == utf8_lossy(line.push(NEWLINE)),
{
    let (lines, rest) = complete_lines(data);
    lemma_more(data, line);
    assert(rest.len() == 0);
    assert(rest + line =~= line);
    assert((data + line).push(NEWLINE).drop_last() =~= data + line);
    let a = crate::commands::mapfile::line_values(lines.push(line), strip);
    let b = crate::commands::mapfile::line_values(lines, strip);
    assert(a =~= b.push(line_value(line, strip)));
}

/// The name of the array is the last argument that is no option, or the usual one.
pub proof fn law_mapfile_name(args: Seq<Seq<char>>, n: int)
    requires
        0 <= n <= args.len(),
    ensures
        (forall|i: int| 0 <= i < n ==> #[trigger] args[i] == "-t"@) ==> mapfile_name(args, n)
            == "MAPFILE"@,
        n > 0 && args[n - 1] != "-t"@ ==> mapfile_name(args, n) == args[n - 1],
        n > 0 && args[n - 1] == "-t"@ ==> mapfile_name(args, n) == mapfile_name(args, n - 1),
    decreases n,
{
    if n > 0 {
        law_mapfile_name(args, n - 1);
    }
}

/// A menu shows each word behind its number, counted from one; a number that the menu does not have
/// picks nothing.
pub proof fn law_menu(words: Seq<Seq<char>>, n: int, i: int, number: nat)
    requires
        0 <= i < n <= words.len(),
        number == 0 || number > words.len(),
        number <= usize::MAX,
    ensures
        menu_upto(words, n).len() == n,
        menu_upto(words, n)[i] == dec((i + 1) as nat) + seq![')', ' '] + words[i] + seq!['\n'],
        picked(dec(number), words).len() == 0,
    decreases n,
{
    reveal_strlit(") ");
    reveal_strlit("\n");
    assert(") "@ =~= seq![')', ' ']);
    assert("\n"@ =~= seq!['\n']);
    law_dec_parses(number, usize::MAX as nat);
    crate::dbl_bracket_laws::lemma_decimal_is_trimmed(number as int);
    assert(menu_upto(words, 0).len() == 0);
    if i < n - 1 {
        law_menu(words, n - 1, i, number);
    } else if n > 1 {
        law_menu(words, n - 1, n - 2, number);
    }
}

/// `let` fails where its last value is zero, and where it has none.
pub proof fn law_status_of_let(values: Seq<i64>, value: i64)
    ensures
        let_status(values.push(value)) == 0 <==> value != 0,
        let_status(values.push(value)) == 1 <==> value == 0,
        let_status(Seq::empty()) == 1,
{
}

/// A script is read from its path; one that is named without a slash is looked for along the search path
/// after that.
pub proof fn law_places_of_a_script(path: Seq<char>, path_var: Option<Seq<char>>, cwd: Seq<char>)
    ensures
        sourced_from(path, path_var, cwd).len() > 0,
        sourced_from(path, path_var, cwd)[0] == from_cwd(cwd, path),
        path.contains('/') ==> sourced_from(path, path_var, cwd).len() == 1,
        !path.contains('/') ==> sourced_from(path, path_var, cwd).skip(1) == searched(
            path_var,
            cwd,
            path,
        ),
{
    assert(!path.contains('/') ==> sourced_from(path, path_var, cwd).skip(1) =~= searched(
        path_var,
        cwd,
        path,
    ));
}

} // verus!
