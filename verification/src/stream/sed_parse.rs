//! The scripts of `sed`: addresses and commands.
use crate::text::{
    all_digits, chars_of, contains_char, digits_value, is_digit, parse_usize, split_char, split_on,
    starts_with, str_eq, str_starts_with, sub_string, trim, trim_left, trim_start, trimmed,
};
use crate::views::strs;
use vstd::prelude::*;
use vstd::utf8::encode_utf8;

verus! {

/// A substitution.
#[derive(Debug)]
pub struct StreamingSedSubstitute {
    pub pattern: String,
    pub replacement: String,
    pub global: bool,
}

/// The lines that a command is for.
#[derive(Debug)]
pub enum StreamingSedAddr {
    Every,
    Line(usize),
    Last,
    Regex(String),
    Range(Box<StreamingSedAddr>, Box<StreamingSedAddr>),
}

/// A command.
#[derive(Debug)]
pub enum StreamingSedCmd {
    Substitute(StreamingSedSubstitute),
    Delete,
    Print,
    Transliterate(Vec<char>, Vec<char>),
    AppendText(String),
    InsertText(String),
    ChangeText(String),
    Quit,
}

/// A command with the lines it is for.
#[derive(Debug)]
pub struct StreamingSedInstruction {
    pub addr: StreamingSedAddr,
    pub cmd: StreamingSedCmd,
}

/// The lines that a command is for, as mathematical data.
pub enum SedAddr {
    Every,
    Line(nat),
    Last,
    Regex(Seq<char>),
    Range(Box<SedAddr>, Box<SedAddr>),
}

/// A command, as mathematical data.
pub enum SedCmd {
    Substitute { pattern: Seq<char>, replacement: Seq<char>, global: bool },
    Delete,
    Print,
    Transliterate(Seq<char>, Seq<char>),
    AppendText(Seq<char>),
    InsertText(Seq<char>),
    ChangeText(Seq<char>),
    Quit,
}

/// A command with the lines it is for, as mathematical data.
pub struct SedInstruction {
    pub addr: SedAddr,
    pub cmd: SedCmd,
}

/// The model of an address.
pub open spec fn addr_view(a: StreamingSedAddr) -> SedAddr
    decreases a,
{
    match a {
        StreamingSedAddr::Every => SedAddr::Every,
        StreamingSedAddr::Line(n) => SedAddr::Line(n as nat),
        StreamingSedAddr::Last => SedAddr::Last,
        StreamingSedAddr::Regex(p) => SedAddr::Regex(p@),
        StreamingSedAddr::Range(s, e) => SedAddr::Range(
            Box::new(addr_view(*s)),
            Box::new(addr_view(*e)),
        ),
    }
}

/// The model of a command.
pub open spec fn cmd_view(c: StreamingSedCmd) -> SedCmd {
    match c {
        StreamingSedCmd::Substitute(s) => SedCmd::Substitute {
            pattern: s.pattern@,
            replacement: s.replacement@,
            global: s.global,
        },
        StreamingSedCmd::Delete => SedCmd::Delete,
        StreamingSedCmd::Print => SedCmd::Print,
        StreamingSedCmd::Transliterate(a, b) => SedCmd::Transliterate(a@, b@),
        StreamingSedCmd::AppendText(t) => SedCmd::AppendText(t@),
        StreamingSedCmd::InsertText(t) => SedCmd::InsertText(t@),
        StreamingSedCmd::ChangeText(t) => SedCmd::ChangeText(t@),
        StreamingSedCmd::Quit => SedCmd::Quit,
    }
}

/// The model of a list of instructions.
pub open spec fn instructions_view(v: Seq<StreamingSedInstruction>) -> Seq<SedInstruction> {
    v.map_values(
        |i: StreamingSedInstruction| SedInstruction { addr: addr_view(i.addr), cmd: cmd_view(i.cmd) },
    )
}

/// The position of the first `/` at `i` or later.
pub open spec fn find_slash(s: Seq<char>, i: int) -> Option<int>
    decreases s.len() - i,
{
    if i < 0 || i >= s.len() {
        None
    } else if s[i] == '/' {
        Some(i)
    } else {
        find_slash(s, i + 1)
    }
}

/// How many decimal digits `s` starts with.
pub open spec fn digit_prefix(s: Seq<char>) -> int
    decreases s.len(),
{
    if s.len() > 0 && is_digit(s[0]) {
        1 + digit_prefix(s.skip(1))
    } else {
        0
    }
}

/// The address at the start of `s` without a second one after a comma, and where it ends.
pub open spec fn single_addr(s: Seq<char>) -> Option<(SedAddr, int)> {
    if s.len() > 0 && s[0] == '/' && find_slash(s, 1) is Some {
        Some((SedAddr::Regex(s.subrange(1, find_slash(s, 1)->0)), find_slash(s, 1)->0 + 1))
    } else if s.len() > 0 && s[0] == '$' {
        Some((SedAddr::Last, 1))
    } else {
        let n = digit_prefix(s);
        if n > 0 && digits_value(s.take(n)) <= usize::MAX {
            Some((SedAddr::Line(digits_value(s.take(n))), n))
        } else {
            None
        }
    }
}

/// The address at the start of `s`, and what follows it. An address, a comma and what is then
/// read as an address are a range.
pub open spec fn sed_addr(s: Seq<char>) -> (SedAddr, Seq<char>)
    decreases s.len(),
    via sed_addr_terminates
{
    match single_addr(s) {
        None => (SedAddr::Every, s),
        Some((a, e)) => if e < s.len() && s[e] == ',' {
            let (b, rest) = sed_addr(s.skip(e + 1));
            (SedAddr::Range(Box::new(a), Box::new(b)), rest)
        } else {
            (a, s.skip(e))
        },
    }
}

#[via_fn]
proof fn sed_addr_terminates(s: Seq<char>) {
    lemma_single_addr(s);
}

proof fn lemma_find_slash(s: Seq<char>, i: int)
    requires
        0 <= i,
    ensures
        find_slash(s, i) matches Some(k) ==> i <= k < s.len() && s[k] == '/',
    decreases s.len() - i,
{
    if i < s.len() && s[i] != '/' {
        lemma_find_slash(s, i + 1);
    }
}

proof fn lemma_digit_prefix(s: Seq<char>)
    ensures
        0 <= digit_prefix(s) <= s.len(),
        forall|i: int| 0 <= i < digit_prefix(s) ==> is_digit(#[trigger] s[i]),
        digit_prefix(s) < s.len() ==> !is_digit(s[digit_prefix(s)]),
    decreases s.len(),
{
    if s.len() > 0 && is_digit(s[0]) {
        let t = s.skip(1);
        lemma_digit_prefix(t);
        assert forall|i: int| 0 <= i < digit_prefix(s) implies is_digit(#[trigger] s[i]) by {
            if i > 0 {
                assert(t[i - 1] == s[i]);
            }
        }
    }
}

proof fn lemma_single_addr(s: Seq<char>)
    ensures
        single_addr(s) matches Some((a, e)) ==> 1 <= e <= s.len(),
{
    lemma_find_slash(s, 1);
    lemma_digit_prefix(s);
}

/// The substitution that `s` writes: `s`, a delimiter, the pattern, the replacement and flags.
pub open spec fn sed_substitute(expr: Seq<char>) -> Option<SedCmd> {
    if expr.len() == 0 || expr[0] != 's' || encode_utf8(expr).len() < 4 {
        None
    } else {
        let parts = split_on(expr.skip(2), expr[1]);
        if parts.len() < 2 {
            None
        } else {
            Some(
                SedCmd::Substitute {
                    pattern: parts[0],
                    replacement: parts[1],
                    global: parts.len() > 2 && parts[2].contains('g'),
                },
            )
        }
    }
}

/// Whether the delimiter of a substitution is one byte, as far as there is one.
pub open spec fn delimiter_fits(expr: Seq<char>) -> bool {
    expr.len() > 1 && expr[0] == 's' && encode_utf8(expr).len() >= 4 ==> (expr[1] as int) < 0x80
}

/// The command that `rest` writes.
pub open spec fn sed_cmd(rest: Seq<char>) -> Option<SedCmd> {
    if starts_with(rest, "s"@) {
        sed_substitute(rest)
    } else if rest == "d"@ {
        Some(SedCmd::Delete)
    } else if rest == "p"@ {
        Some(SedCmd::Print)
    } else if rest == "q"@ {
        Some(SedCmd::Quit)
    } else if starts_with(rest, "y/"@) || starts_with(rest, "y|"@) {
        let parts = split_on(rest.skip(2), rest[1]);
        if parts.len() >= 2 {
            Some(SedCmd::Transliterate(parts[0], parts[1]))
        } else {
            None
        }
    } else if starts_with(rest, "a\\"@) {
        Some(SedCmd::AppendText(trim_start(rest.skip(2))))
    } else if starts_with(rest, "i\\"@) {
        Some(SedCmd::InsertText(trim_start(rest.skip(2))))
    } else if starts_with(rest, "c\\"@) {
        Some(SedCmd::ChangeText(trim_start(rest.skip(2))))
    } else {
        None
    }
}

/// The instruction that one part of a script writes.
pub open spec fn sed_part(part: Seq<char>) -> Option<SedInstruction> {
    let p = trimmed(part);
    if p.len() == 0 {
        None
    } else {
        let (addr, rest) = sed_addr(p);
        match sed_cmd(trimmed(rest)) {
            Some(cmd) => Some(SedInstruction { addr, cmd }),
            None => None,
        }
    }
}

/// The instructions of the given parts; a part that writes none is passed over.
pub open spec fn sed_parts(parts: Seq<Seq<char>>) -> Seq<SedInstruction>
    decreases parts.len(),
{
    if parts.len() == 0 {
        Seq::empty()
    } else {
        let before = sed_parts(parts.drop_last());
        match sed_part(parts.last()) {
            Some(i) => before.push(i),
            None => before,
        }
    }
}

/// The instructions of a script, whose parts stand between semicolons.
pub open spec fn sed_script(script: Seq<char>) -> Seq<SedInstruction> {
    sed_parts(split_on(script, ';'))
}

/// Whether every substitution of a script has a delimiter of one byte.
pub open spec fn script_fits(script: Seq<char>) -> bool {
    let parts = split_on(script, ';');
    forall|i: int|
        0 <= i < parts.len() ==> delimiter_fits(
            trimmed(sed_addr(trimmed(#[trigger] parts[i])).1),
        )
}

/// Reads a substitution.
pub fn parse_streaming_sed_substitute(expr: &str) -> (r: Option<StreamingSedSubstitute>)
    requires
        delimiter_fits(expr@),
    ensures
        match r {
            Some(s) => sed_substitute(expr@) == Some(cmd_view(StreamingSedCmd::Substitute(s))),
            None => sed_substitute(expr@) is None,
        },
{
    let chars = chars_of(expr);
    if chars.len() == 0 || chars[0] != 's' || expr.as_bytes().len() < 4 {
        return None;
    }
    proof {
        if chars@.len() == 1 {
            assert(expr@ =~= seq!['s']);
            lemma_utf8_s();
        }
    }
    let delim: char = chars[1];
    let rest = sub_string(&chars, 2, chars.len());
    assert(rest@ =~= expr@.skip(2));
    let parts = split_char(rest.as_str(), delim);
    let ghost p = strs(parts@);
    if parts.len() < 2 {
        return None;
    }
    assert(p[0] == parts@[0]@);
    assert(p[1] == parts@[1]@);
    let global: bool = if parts.len() > 2 {
        assert(p[2] == parts@[2]@);
        contains_char(parts[2].as_str(), 'g')
    } else {
        false
    };
    Some(
        StreamingSedSubstitute {
            pattern: parts[0].clone(),
            replacement: parts[1].clone(),
            global,
        },
    )
}

proof fn lemma_utf8_s()
    ensures
        encode_utf8(seq!['s']).len() == 1,
{
    vstd::utf8::is_ascii_chars_encode_utf8(seq!['s']);
}

/// Reads the address at `start`, and returns where it ends.
pub fn parse_streaming_sed_addr(s: &Vec<char>, start: usize) -> (r: (StreamingSedAddr, usize))
    requires
        start <= s@.len(),
    ensures
        start <= r.1 <= s@.len(),
        (addr_view(r.0), s@.skip(r.1 as int)) == sed_addr(s@.skip(start as int)),
    decreases s@.len() - start,
{
    let ghost t = s@.skip(start as int);
    proof {
        lemma_single_addr(t);
        lemma_digit_prefix(t);
    }
    let (single, end) = match parse_single_addr(s, start) {
        Some(found) => found,
        None => return (StreamingSedAddr::Every, start),
    };
    if end < s.len() && s[end] == ',' {
        let (second, rest) = parse_streaming_sed_addr(s, end + 1);
        assert(t.skip(end - start + 1) =~= s@.skip(end + 1));
        return (StreamingSedAddr::Range(Box::new(single), Box::new(second)), rest);
    }
    assert(t.skip(end - start) =~= s@.skip(end as int));
    (single, end)
}

fn parse_single_addr(s: &Vec<char>, start: usize) -> (r: Option<(StreamingSedAddr, usize)>)
    requires
        start <= s@.len(),
    ensures
        match r {
            Some((a, e)) => start < e <= s@.len() && single_addr(s@.skip(start as int)) == Some(
                (addr_view(a), e - start),
            ),
            None => single_addr(s@.skip(start as int)) is None,
        },
{
    let ghost t = s@.skip(start as int);
    proof {
        lemma_find_slash(t, 1);
        lemma_digit_prefix(t);
    }
    if start == s.len() {
        return None;
    }
    if s[start] == '/' {
        let mut i: usize = start + 1;
        while i < s.len()
            invariant
                start + 1 <= i <= s@.len(),
                t == s@.skip(start as int),
                find_slash(t, 1) == find_slash(t, i - start),
                t[0] == '/',
            decreases s@.len() - i,
        {
            assert(t[i - start] == s@[i as int]);
            if s[i] == '/' {
                let pat = sub_string(s, start + 1, i);
                assert(pat@ =~= t.subrange(1, i - start));
                return Some((StreamingSedAddr::Regex(pat), i + 1));
            }
            i = i + 1;
        }
        assert(find_slash(t, 1) is None);
        assert(!is_digit('/'));
        assert(digit_prefix(t) == 0);
        return None;
    }
    if s[start] == '$' {
        return Some((StreamingSedAddr::Last, start + 1));
    }
    let mut e: usize = start;
    while e < s.len() && is_ascii_digit(s[e])
        invariant
            start <= e <= s@.len(),
            t == s@.skip(start as int),
            e - start <= digit_prefix(t) <= t.len(),
            forall|i: int| 0 <= i < digit_prefix(t) ==> is_digit(#[trigger] t[i]),
            digit_prefix(t) < t.len() ==> !is_digit(t[digit_prefix(t)]),
        decreases s@.len() - e,
    {
        assert(t[e - start] == s@[e as int]);
        e = e + 1;
    }
    proof {
        if e < s@.len() {
            assert(t[e - start] == s@[e as int]);
        }
        assert(digit_prefix(t) == e - start);
    }
    if e > start {
        let digits = sub_string(s, start, e);
        proof {
            assert(digits@ =~= t.take(e - start));
            assert forall|i: int| 0 <= i < digits@.len() implies is_digit(#[trigger] digits@[i]) by {
                assert(digits@[i] == t[i]);
            }
            assert(all_digits(digits@));
            assert(digits@[0] != '+');
        }
        if let Some(n) = parse_usize(digits.as_str()) {
            return Some((StreamingSedAddr::Line(n), e));
        }
    }
    None
}

fn is_ascii_digit(c: char) -> (r: bool)
    ensures
        r == is_digit(c),
{
    let n: u32 = crate::text::char_code(c);
    n >= 0x30 && n <= 0x39
}

fn rest_after(s: &Vec<char>, n: usize) -> (r: String)
    requires
        n <= s@.len(),
    ensures
        r@ == s@.skip(n as int),
{
    let r = sub_string(s, n, s.len());
    assert(r@ =~= s@.skip(n as int));
    r
}

fn parse_sed_cmd(rest: &str) -> (r: Option<StreamingSedCmd>)
    requires
        delimiter_fits(rest@),
    ensures
        match r {
            Some(c) => sed_cmd(rest@) == Some(cmd_view(c)),
            None => sed_cmd(rest@) is None,
        },
{
    proof {
        reveal_strlit("s");
        reveal_strlit("y/");
        reveal_strlit("y|");
        reveal_strlit("a\\");
        reveal_strlit("i\\");
        reveal_strlit("c\\");
    }
    let chars = chars_of(rest);
    if str_starts_with(rest, "s") {
        match parse_streaming_sed_substitute(rest) {
            Some(sub) => Some(StreamingSedCmd::Substitute(sub)),
            None => None,
        }
    } else if str_eq(rest, "d") {
        Some(StreamingSedCmd::Delete)
    } else if str_eq(rest, "p") {
        Some(StreamingSedCmd::Print)
    } else if str_eq(rest, "q") {
        Some(StreamingSedCmd::Quit)
    } else if str_starts_with(rest, "y/") || str_starts_with(rest, "y|") {
        let inner = rest_after(&chars, 2);
        let parts = split_char(inner.as_str(), chars[1]);
        let ghost p = strs(parts@);
        if parts.len() >= 2 {
            assert(p[0] == parts@[0]@);
            assert(p[1] == parts@[1]@);
            Some(
                StreamingSedCmd::Transliterate(
                    chars_of(parts[0].as_str()),
                    chars_of(parts[1].as_str()),
                ),
            )
        } else {
            None
        }
    } else if str_starts_with(rest, "a\\") {
        Some(StreamingSedCmd::AppendText(trim_left(rest_after(&chars, 2).as_str())))
    } else if str_starts_with(rest, "i\\") {
        Some(StreamingSedCmd::InsertText(trim_left(rest_after(&chars, 2).as_str())))
    } else if str_starts_with(rest, "c\\") {
        Some(StreamingSedCmd::ChangeText(trim_left(rest_after(&chars, 2).as_str())))
    } else {
        None
    }
}

/// Whether every substitution of a script has a delimiter of one byte, so that it can be read.
pub fn sed_script_fits(script: &str) -> (r: bool)
    ensures
        r == script_fits(script@),
{
    let parts = split_char(script, ';');
    let ghost all = strs(parts@);
    let mut i: usize = 0;
    while i < parts.len()
        invariant
            i <= parts@.len(),
            all == strs(parts@),
            all == split_on(script@, ';'),
            forall|k: int|
                0 <= k < i ==> delimiter_fits(trimmed(sed_addr(trimmed(#[trigger] all[k])).1)),
        decreases parts@.len() - i,
    {
        assert(all[i as int] == parts@[i as int]@);
        let part = trim(parts[i].as_str());
        let chars = chars_of(part.as_str());
        assert(chars@.skip(0) =~= chars@);
        let (_, end) = parse_streaming_sed_addr(&chars, 0);
        let rest = trim(rest_after(&chars, end).as_str());
        let letters = chars_of(rest.as_str());
        if letters.len() > 1 && letters[0] == 's' && rest.as_str().as_bytes().len() >= 4
            && crate::text::char_code(letters[1]) >= 0x80 {
            return false;
        }
        i = i + 1;
    }
    true
}

/// Reads a script.
pub fn parse_streaming_sed_script(script: &str) -> (r: Vec<StreamingSedInstruction>)
    requires
        script_fits(script@),
    ensures
        instructions_view(r@) == sed_script(script@),
{
    let parts = split_char(script, ';');
    let ghost all = strs(parts@);
    let mut instructions: Vec<StreamingSedInstruction> = Vec::new();
    let mut i: usize = 0;
    assert(all.take(0) =~= Seq::empty());
    assert(instructions_view(instructions@) =~= sed_parts(all.take(0)));
    while i < parts.len()
        invariant
            i <= parts@.len(),
            all == strs(parts@),
            all == split_on(script@, ';'),
            script_fits(script@),
            instructions_view(instructions@) == sed_parts(all.take(i as int)),
        decreases parts@.len() - i,
    {
        let ghost before = instructions_view(instructions@);
        assert(all.take(i + 1).drop_last() =~= all.take(i as int));
        assert(all[i as int] == parts@[i as int]@);
        let part = trim(parts[i].as_str());
        if !part.as_str().is_empty() {
            let chars = chars_of(part.as_str());
            assert(chars@.skip(0) =~= chars@);
            let (addr, end) = parse_streaming_sed_addr(&chars, 0);
            let rest = trim(rest_after(&chars, end).as_str());
            if let Some(cmd) = parse_sed_cmd(rest.as_str()) {
                instructions.push(StreamingSedInstruction { addr, cmd });
                assert(instructions_view(instructions@) =~= before.push(
                    SedInstruction { addr: addr_view(addr), cmd: cmd_view(cmd) },
                ));
            }
        }
        i = i + 1;
    }
    assert(all.take(i as int) =~= all);
    instructions
}

} // verus!
