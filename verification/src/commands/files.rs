//! Command lines that other commands make, and the places where scripts are looked for.
use crate::commands::printed::{prints, Printed, Stream};
use crate::text::{
    chars_of, char_is_alphanumeric, contains_char, is_alnum, join, joined, split_char, split_on,
    starts_with, str_eq, str_starts_with, string_of, sub_string,
};
use crate::views::{lemma_strs_push, strs};
use vstd::prelude::*;

verus! {

/// The position of the first `s` from `i` on, or the length.
pub open spec fn position(v: Seq<Seq<char>>, s: Seq<char>, i: int) -> int
    decreases v.len() - i,
{
    if 0 <= i < v.len() && v[i] != s {
        position(v, s, i + 1)
    } else {
        i
    }
}

/// The position of the first `;` from `i` on, with a backslash or without, or the length.
pub open spec fn terminator(v: Seq<Seq<char>>, i: int) -> int
    decreases v.len() - i,
{
    if 0 <= i < v.len() && v[i] != "\\;"@ && v[i] != ";"@ {
        terminator(v, i + 1)
    } else {
        i
    }
}

/// The command after `-exec` and the arguments without it; nothing where it has no end or is
/// empty.
pub open spec fn find_exec(argv: Seq<Seq<char>>) -> Option<(Seq<Seq<char>>, Seq<Seq<char>>)> {
    let e = position(argv, "-exec"@, 0);
    let t = terminator(argv, e + 1);
    if e >= argv.len() || t >= argv.len() || t == e + 1 {
        None
    } else {
        Some((argv.subrange(e + 1, t), argv.take(e) + argv.skip(t + 1)))
    }
}

fn copy_range(v: &Vec<String>, a: usize, b: usize, out: &mut Vec<String>)
    requires
        a <= b <= v@.len(),
    ensures
        strs(final(out)@) == strs(old(out)@) + strs(v@).subrange(a as int, b as int),
{
    broadcast use lemma_strs_push;
    let ghost all = strs(v@);
    let ghost first = strs(out@);
    let mut i: usize = a;
    assert(first + all.subrange(a as int, a as int) =~= first);
    while i < b
        invariant
            a <= i <= b <= v@.len(),
            all == strs(v@),
            strs(out@) == first + all.subrange(a as int, i as int),
        decreases b - i,
    {
        out.push(v[i].clone());
        proof {
            assert(all[i as int] == v@[i as int]@);
            assert(first + all.subrange(a as int, i + 1) =~= (first + all.subrange(
                a as int,
                i as int,
            )).push(all[i as int]));
        }
        i = i + 1;
    }
}

/// Takes the command after `-exec` out of the arguments of `find`.
pub fn extract_find_exec(argv: &Vec<String>) -> (r: Option<(Vec<String>, Vec<String>)>)
    ensures
        match r {
            Some(x) => find_exec(strs(argv@)) == Some((strs(x.0@), strs(x.1@))),
            None => find_exec(strs(argv@)) is None,
        },
{
    let ghost all = strs(argv@);
    let mut e: usize = 0;
    while e < argv.len() && !str_eq(argv[e].as_str(), "-exec")
        invariant
            e <= argv@.len(),
            all == strs(argv@),
            position(all, "-exec"@, 0) == position(all, "-exec"@, e as int),
        decreases argv@.len() - e,
    {
        assert(all[e as int] == argv@[e as int]@);
        e = e + 1;
    }
    if e >= argv.len() {
        return None;
    }
    assert(all[e as int] == argv@[e as int]@);
    let mut t: usize = e + 1;
    while t < argv.len() && !str_eq(argv[t].as_str(), "\\;") && !str_eq(argv[t].as_str(), ";")
        invariant
            e + 1 <= t <= argv@.len(),
            all == strs(argv@),
            terminator(all, e + 1) == terminator(all, t as int),
        decreases argv@.len() - t,
    {
        assert(all[t as int] == argv@[t as int]@);
        t = t + 1;
    }
    if t >= argv.len() {
        return None;
    }
    assert(all[t as int] == argv@[t as int]@);
    if t == e + 1 {
        return None;
    }
    let mut template: Vec<String> = Vec::new();
    assert(strs(template@) =~= Seq::empty());
    copy_range(argv, e + 1, t, &mut template);
    let mut cleaned: Vec<String> = Vec::new();
    assert(strs(cleaned@) =~= Seq::empty());
    copy_range(argv, 0, e, &mut cleaned);
    copy_range(argv, t + 1, argv.len(), &mut cleaned);
    proof {
        assert(strs(template@) =~= all.subrange(e + 1, t as int));
        assert(strs(cleaned@) =~= all.take(e as int) + all.skip(t + 1));
    }
    Some((template, cleaned))
}

/// Whether a character needs no quotes.
pub open spec fn is_safe_char(c: char) -> bool {
    is_alnum(c) || c == '/' || c == '.' || c == '_' || c == '-'
}

/// Whether a text needs no quotes.
pub open spec fn is_safe(s: Seq<char>) -> bool {
    forall|i: int| 0 <= i < s.len() ==> is_safe_char(#[trigger] s[i])
}

/// A text inside single quotes: a single quote closes them, stands alone after a backslash, and
/// opens them again.
pub open spec fn quoted_body(s: Seq<char>) -> Seq<char>
    decreases s.len(),
{
    if s.len() == 0 {
        Seq::empty()
    } else if s.last() == '\'' {
        quoted_body(s.drop_last()) + seq!['\'', '\\', '\'', '\'']
    } else {
        quoted_body(s.drop_last()).push(s.last())
    }
}

/// A text as a word of a command line.
pub open spec fn quoted(s: Seq<char>) -> Seq<char> {
    if is_safe(s) {
        s
    } else {
        seq!['\''] + quoted_body(s) + seq!['\'']
    }
}

/// Quotes a text so that it is one word of a command line.
pub fn shell_quote(s: &str) -> (r: String)
    ensures
        r@ == quoted(s@),
{
    let chars = chars_of(s);
    let mut safe: bool = true;
    let mut i: usize = 0;
    while i < chars.len()
        invariant
            i <= chars@.len(),
            chars@ == s@,
            safe ==> forall|j: int| 0 <= j < i ==> is_safe_char(#[trigger] s@[j]),
            !safe ==> !is_safe(s@),
        decreases chars@.len() - i,
    {
        let c = chars[i];
        let ok: bool = char_is_alphanumeric(c) || c == '/' || c == '.' || c == '_' || c == '-';
        if !ok {
            assert(!is_safe_char(s@[i as int]));
            safe = false;
        }
        i = i + 1;
    }
    if safe {
        return s.to_owned();
    }
    let mut out: Vec<char> = Vec::new();
    out.push('\'');
    let mut k: usize = 0;
    proof {
        assert(s@.take(0) =~= Seq::empty());
        assert(out@ =~= seq!['\''] + quoted_body(s@.take(0)));
    }
    while k < chars.len()
        invariant
            k <= chars@.len(),
            chars@ == s@,
            out@ == seq!['\''] + quoted_body(s@.take(k as int)),
        decreases chars@.len() - k,
    {
        let ghost t = s@.take(k + 1);
        assert(t.drop_last() =~= s@.take(k as int));
        let c = chars[k];
        if c == '\'' {
            out.push('\'');
            out.push('\\');
            out.push('\'');
            out.push('\'');
        } else {
            out.push(c);
        }
        assert(out@ =~= seq!['\''] + quoted_body(t));
        k = k + 1;
    }
    out.push('\'');
    assert(s@.take(k as int) =~= s@);
    assert(out@ =~= quoted(s@));
    string_of(out.as_slice())
}

proof fn lemma_quoted_scan(s: Seq<char>)
    ensures
        ({
            let end = crate::commands::arrays::scan_text(
                crate::commands::arrays::scan_start(),
                seq!['\''] + quoted_body(s),
            );
            &&& end.current == s
            &&& end.elements.len() == 0
            &&& end.state == (crate::commands::arrays::ArrayParseState {
                in_single_quote: true,
                in_double_quote: false,
                escape_next: false,
            })
        }),
    decreases s.len(),
{
    let start = crate::commands::arrays::scan_start();
    if s.len() == 0 {
        let t = seq!['\''] + quoted_body(s);
        assert(t =~= seq!['\'']);
        assert(t.drop_last() =~= Seq::empty());
        reveal_with_fuel(crate::commands::arrays::scan_text, 2);
        assert(s =~= Seq::empty());
    } else {
        let b = s.drop_last();
        lemma_quoted_scan(b);
        let t = seq!['\''] + quoted_body(b);
        let at_t = crate::commands::arrays::scan_text(start, t);
        if s.last() == '\'' {
            let t1 = t.push('\'');
            let t2 = t1.push('\\');
            let t3 = t2.push('\'');
            let t4 = t3.push('\'');
            assert(t4 =~= seq!['\''] + quoted_body(s));
            assert(t1.drop_last() =~= t);
            assert(t2.drop_last() =~= t1);
            assert(t3.drop_last() =~= t2);
            assert(t4.drop_last() =~= t3);
            let s1 = crate::commands::arrays::scan_text(start, t1);
            assert(s1 == crate::commands::arrays::scan_step(at_t, '\''));
            let s2 = crate::commands::arrays::scan_text(start, t2);
            assert(s2 == crate::commands::arrays::scan_step(s1, '\\'));
            let s3 = crate::commands::arrays::scan_text(start, t3);
            assert(s3 == crate::commands::arrays::scan_step(s2, '\''));
            let s4 = crate::commands::arrays::scan_text(start, t4);
            assert(s4 == crate::commands::arrays::scan_step(s3, '\''));
            assert(b.push('\'') =~= s);
        } else {
            let t1 = t.push(s.last());
            assert(t1 =~= seq!['\''] + quoted_body(s));
            assert(t1.drop_last() =~= t);
            assert(b.push(s.last()) =~= s);
        }
    }
}

/// A text that is quoted reads back as one word, the text itself.
pub proof fn law_quoted_text_is_one_word(s: Seq<char>)
    requires
        !is_safe(s),
    ensures
        crate::commands::arrays::array_elements(quoted(s)) == seq![s],
{
    lemma_quoted_scan(s);
    let start = crate::commands::arrays::scan_start();
    let t = seq!['\''] + quoted_body(s);
    assert(quoted(s) =~= t.push('\''));
    assert(t.push('\'').drop_last() =~= t);
    let end = crate::commands::arrays::scan_text(start, quoted(s));
    assert(end == crate::commands::arrays::scan_step(
        crate::commands::arrays::scan_text(start, t),
        '\'',
    ));
    assert(s.len() > 0) by {
        if s.len() == 0 {
            assert(is_safe(s));
        }
    }
    assert(end.elements.push(s) =~= seq![s]);
}

/// A word of the command after `-exec`: `{}` stands for the path.
pub open spec fn exec_word(word: Seq<char>, path: Seq<char>) -> Seq<char> {
    if word == "{}"@ {
        quoted(path)
    } else {
        word
    }
}

/// The words of the command after `-exec` for a path.
pub open spec fn exec_words(template: Seq<Seq<char>>, path: Seq<char>) -> Seq<Seq<char>> {
    template.map_values(|w: Seq<char>| exec_word(w, path))
}

/// The command line that `find` runs for a path.
pub fn find_exec_line(template: &Vec<String>, path: &str) -> (r: String)
    ensures
        r@ == joined(exec_words(strs(template@), path@), " "@),
{
    broadcast use lemma_strs_push;
    let ghost all = exec_words(strs(template@), path@);
    let mut words: Vec<String> = Vec::new();
    let mut i: usize = 0;
    assert(strs(words@) =~= all.take(0));
    while i < template.len()
        invariant
            i <= template@.len(),
            all == exec_words(strs(template@), path@),
            strs(words@) == all.take(i as int),
        decreases template@.len() - i,
    {
        assert(strs(template@)[i as int] == template@[i as int]@);
        if str_eq(template[i].as_str(), "{}") {
            words.push(shell_quote(path));
        } else {
            words.push(template[i].clone());
        }
        assert(all.take(i + 1) =~= all.take(i as int).push(all[i as int]));
        i = i + 1;
    }
    assert(all.take(all.len() as int) =~= all);
    join(&words, " ")
}

/// A line without a carriage return at its end.
pub open spec fn without_cr(s: Seq<char>) -> Seq<char> {
    if s.len() > 0 && s.last() == '\r' {
        s.drop_last()
    } else {
        s
    }
}

/// The first `n` lines of a text that are not empty: what stands between newlines, without the
/// carriage return before one.
pub open spec fn filled_lines(parts: Seq<Seq<char>>, n: int) -> Seq<Seq<char>>
    decreases n,
{
    if n <= 0 {
        Seq::empty()
    } else {
        let line = if n < parts.len() {
            without_cr(parts[n - 1])
        } else {
            parts[n - 1]
        };
        let before = filled_lines(parts, n - 1);
        if line.len() > 0 {
            before.push(line)
        } else {
            before
        }
    }
}

/// The lines of a text that are not empty.
pub fn nonempty_lines(text: &str) -> (r: Vec<String>)
    ensures
        strs(r@) == filled_lines(split_on(text@, '\n'), split_on(text@, '\n').len() as int),
{
    broadcast use lemma_strs_push;
    let parts = split_char(text, '\n');
    let ghost all = split_on(text@, '\n');
    assert(parts@.len() == strs(parts@).len());
    let mut lines: Vec<String> = Vec::new();
    let mut i: usize = 0;
    assert(strs(lines@) =~= Seq::empty());
    while i < parts.len()
        invariant
            i <= parts@.len(),
            strs(parts@) == all,
            parts@.len() == all.len(),
            strs(lines@) == filled_lines(all, i as int),
        decreases parts@.len() - i,
    {
        assert(all[i as int] == parts@[i as int]@);
        let chars = chars_of(parts[i].as_str());
        let n: usize = chars.len();
        let last: bool = i + 1 == parts.len();
        let end: usize = if !last && n > 0 && chars[n - 1] == '\r' {
            n - 1
        } else {
            n
        };
        if end > 0 {
            let line = sub_string(&chars, 0, end);
            proof {
                if !last {
                    assert(line@ =~= without_cr(all[i as int]));
                } else {
                    assert(line@ =~= all[i as int]);
                }
            }
            lines.push(line);
        }
        i = i + 1;
    }
    lines
}

/// The first line of a text.
pub open spec fn first_line_of(text: Seq<char>) -> Seq<char> {
    let line = crate::text::before_char(text, '\n');
    if line.len() < text.len() {
        without_cr(line)
    } else {
        line
    }
}

/// The first line of a text.
pub fn first_line(text: &str) -> (r: String)
    ensures
        r@ == first_line_of(text@),
{
    proof {
        crate::text::lemma_char_pos(text@, '\n');
    }
    let (line, rest) = crate::text::split_at_char(text, '\n');
    if rest.is_none() {
        assert(line@ =~= text@);
        return line;
    }
    let chars = chars_of(line.as_str());
    let n: usize = chars.len();
    if n > 0 && chars[n - 1] == '\r' {
        let r = sub_string(&chars, 0, n - 1);
        assert(r@ =~= line@.drop_last());
        r
    } else {
        line
    }
}

/// The status of the commands that `find` and `xargs` run: that of the last one that failed.
pub open spec fn last_failure(statuses: Seq<i32>) -> i32
    decreases statuses.len(),
{
    if statuses.len() == 0 {
        0
    } else if statuses.last() != 0 {
        statuses.last()
    } else {
        last_failure(statuses.drop_last())
    }
}

/// The status after one more command.
pub fn note_status(so_far: i32, status: i32) -> (r: i32)
    ensures
        forall|before: Seq<i32>|
            so_far == last_failure(before) ==> r == #[trigger] last_failure(before.push(status)),
{
    proof {
        assert forall|before: Seq<i32>| so_far == last_failure(before) implies (if status != 0 {
            status
        } else {
            so_far
        }) == #[trigger] last_failure(before.push(status)) by {
            assert(before.push(status).drop_last() =~= before);
        }
    }
    if status != 0 {
        status
    } else {
        so_far
    }
}

/// Whether an option of `xargs` takes a value.
pub open spec fn xargs_takes_value(s: Seq<char>) -> bool {
    s == "-I"@ || s == "-n"@ || s == "-d"@ || s == "-P"@ || s == "-L"@
}

/// The first argument of `xargs` from `i` on that is no option and no value of one.
pub open spec fn xargs_command(argv: Seq<Seq<char>>, i: int) -> Option<Seq<char>>
    decreases argv.len() - i,
{
    if i < 0 || i >= argv.len() {
        None
    } else if xargs_takes_value(argv[i]) && i + 1 < argv.len() {
        xargs_command(argv, i + 2)
    } else if starts_with(argv[i], "-"@) {
        xargs_command(argv, i + 1)
    } else {
        Some(argv[i])
    }
}

/// Whether `xargs` is to run a command other than `echo`, which it prints by itself.
pub fn xargs_runs_command(argv: &Vec<String>) -> (r: bool)
    ensures
        r == (xargs_command(strs(argv@), 1) matches Some(c) && c != "echo"@),
{
    let ghost all = strs(argv@);
    let mut i: usize = 1;
    while i < argv.len()
        invariant
            1 <= i,
            i <= argv@.len() || i == 1 || i == argv@.len() + 1,
            all == strs(argv@),
            xargs_command(all, 1) == xargs_command(all, i as int),
        decreases argv@.len() + 2 - i,
    {
        assert(all[i as int] == argv@[i as int]@);
        let arg = argv[i].as_str();
        let takes: bool = str_eq(arg, "-I") || str_eq(arg, "-n") || str_eq(arg, "-d") || str_eq(
            arg,
            "-P",
        ) || str_eq(arg, "-L");
        if takes && i + 1 < argv.len() {
            i = i + 2;
        } else if str_starts_with(arg, "-") {
            i = i + 1;
        } else {
            return !str_eq(arg, "echo");
        }
    }
    false
}

/// A path from the working directory on.
pub open spec fn from_cwd(cwd: Seq<char>, path: Seq<char>) -> Seq<char> {
    if starts_with(path, "/"@) {
        path
    } else {
        cwd + "/"@ + path
    }
}

/// A path from the working directory on.
pub fn cwd_path(cwd: &str, path: &str) -> (r: String)
    ensures
        r@ == from_cwd(cwd@, path@),
{
    if str_starts_with(path, "/") {
        path.to_owned()
    } else {
        cwd.to_owned().concat("/").concat(path)
    }
}

/// The places of a file in the first `n` directories of a search path.
pub open spec fn path_places(
    dirs: Seq<Seq<char>>,
    cwd: Seq<char>,
    file: Seq<char>,
    n: int,
) -> Seq<Seq<char>>
    decreases n,
{
    if n <= 0 {
        Seq::empty()
    } else {
        let before = path_places(dirs, cwd, file, n - 1);
        if dirs[n - 1].len() == 0 {
            before
        } else {
            before.push(from_cwd(cwd, dirs[n - 1] + "/"@ + file))
        }
    }
}

/// The places where a file is looked for along a search path, in order.
pub open spec fn searched(path_var: Option<Seq<char>>, cwd: Seq<char>, file: Seq<char>) -> Seq<
    Seq<char>,
> {
    match path_var {
        Some(p) => path_places(split_on(p, ':'), cwd, file, split_on(p, ':').len() as int),
        None => Seq::empty(),
    }
}

/// The places where a file is looked for along a search path, in order.
pub fn search_path(path_var: &Option<String>, cwd: &str, file: &str) -> (r: Vec<String>)
    ensures
        strs(r@) == searched(
            match *path_var {
                Some(p) => Some(p@),
                None => None,
            },
            cwd@,
            file@,
        ),
{
    broadcast use lemma_strs_push;
    let mut places: Vec<String> = Vec::new();
    assert(strs(places@) =~= Seq::empty());
    match path_var {
        Some(p) => {
            let dirs = split_char(p.as_str(), ':');
            let ghost all = split_on(p@, ':');
            assert(dirs@.len() == strs(dirs@).len());
            let mut i: usize = 0;
            while i < dirs.len()
                invariant
                    i <= dirs@.len(),
                    all == strs(dirs@),
                    strs(places@) == path_places(all, cwd@, file@, i as int),
                decreases dirs@.len() - i,
            {
                assert(all[i as int] == dirs@[i as int]@);
                if !dirs[i].as_str().is_empty() {
                    let candidate = dirs[i].clone().concat("/").concat(file);
                    places.push(cwd_path(cwd, candidate.as_str()));
                }
                i = i + 1;
            }
        },
        None => {},
    }
    places
}

/// The places where a script that is to be read may be: by its path, and where that is a bare name
/// along the search path too.
pub open spec fn sourced_from(
    path: Seq<char>,
    path_var: Option<Seq<char>>,
    cwd: Seq<char>,
) -> Seq<Seq<char>> {
    if path.contains('/') {
        seq![from_cwd(cwd, path)]
    } else {
        seq![from_cwd(cwd, path)] + searched(path_var, cwd, path)
    }
}

/// The places where `source` looks for a script: the path itself, and unless it has a slash, the
/// directories of the search path.
pub fn source_places(path: &str, path_var: &Option<String>, cwd: &str) -> (r: Vec<String>)
    ensures
        strs(r@) == sourced_from(
            path@,
            match *path_var {
                Some(p) => Some(p@),
                None => None,
            },
            cwd@,
        ),
{
    broadcast use lemma_strs_push;
    let mut places: Vec<String> = Vec::new();
    places.push(cwd_path(cwd, path));
    assert(strs(places@) =~= seq![from_cwd(cwd@, path@)]);
    if !contains_char(path, '/') {
        let rest = search_path(path_var, cwd, path);
        assert(rest@.len() == strs(rest@).len());
        copy_range(&rest, 0, rest.len(), &mut places);
        assert(strs(rest@).subrange(0, rest@.len() as int) =~= strs(rest@));
    }
    places
}

/// The report on a script that `source` does not find; the status is one.
pub fn source_not_found(path: &str) -> (r: String)
    ensures
        r@ == "source: "@ + path@ + ": not found\n"@,
{
    "source: ".to_owned().concat(path).concat(": not found\n")
}

/// The report on a script that `source` cannot read; the status is one.
pub fn source_read_error(path: &str, error: &str) -> (r: String)
    ensures
        r@ == "source: "@ + path@ + ": read error: "@ + error@ + "\n"@,
{
    "source: ".to_owned().concat(path).concat(": read error: ").concat(error).concat("\n")
}

/// The status of `let`: a failure where the last value is zero.
pub open spec fn let_status(values: Seq<i64>) -> i32 {
    if values.len() == 0 || values.last() == 0 {
        1
    } else {
        0
    }
}

/// What `let` comes to: a failure where its last expression is zero, or where it has none.
pub fn let_result(values: &Vec<i64>) -> (r: Printed)
    ensures
        if values@.len() == 0 {
            prints(r, seq![(Stream::ShellStderr, "let: expression expected\n"@)], 1)
        } else {
            prints(r, Seq::empty(), let_status(values@))
        },
{
    if values.len() == 0 {
        return Printed::shell_failure("let: expression expected\n".to_owned());
    }
    let mut printed = Printed::new();
    if values[values.len() - 1] == 0 {
        printed.status = 1;
    }
    printed
}

} // verus!
