//! What `sed` makes of its lines.
use crate::stream::lines::{line_bytes, run_lines, LineStage};
use crate::stream::sed::{
    addr_matches, all_lines, sed_do, sed_from, sed_held, sed_line, sed_start, simple_match,
    translit, translit_char, SedModel, SedRun, SedStream,
};
use crate::stream::sed_parse::{SedAddr, SedCmd, SedInstruction};
use crate::text::{replace_all, replace_first};
use crate::text_laws::{law_search_finds_the_first, occurs_at};
use vstd::prelude::*;

verus! {

/// What the lines give one after the other, where the first one has the number `num`.
pub open spec fn line_by_line(
    ins: Seq<SedInstruction>,
    suppress: bool,
    ranges: Seq<bool>,
    num: nat,
    lines: Seq<Seq<char>>,
) -> Seq<u8>
    decreases lines.len(),
{
    if lines.len() == 0 {
        Seq::empty()
    } else {
        let r = sed_line(ins, ranges, lines[0], num, lines.len() == 1, suppress);
        r.out + (if r.quit {
            Seq::empty()
        } else {
            line_by_line(ins, suppress, r.ranges, num + 1, lines.skip(1))
        })
    }
}

proof fn lemma_held(m: SedModel, lines: Seq<Seq<char>>)
    requires
        m.held is Some,
        !m.quit,
    ensures
        run_lines::<SedStream>(m, lines) == line_by_line(
            m.ins,
            m.suppress,
            m.ranges,
            m.num,
            seq![m.held->0] + lines,
        ),
    decreases lines.len(),
{
    let none = Seq::<u8>::empty();
    let all = seq![m.held->0] + lines;
    let h = sed_held(m, lines.len() == 0);
    assert(all[0] == m.held->0);
    assert(all.skip(1) =~= lines);
    if lines.len() == 0 {
        assert(line_by_line(m.ins, m.suppress, h.ranges, m.num + 1, lines) == none);
        assert(h.out + none =~= h.out);
    } else {
        let next = <SedStream as LineStage>::line_next(m, lines[0]);
        if h.quit {
            assert(<SedStream as LineStage>::line_tail(next) == none);
            assert(run_lines::<SedStream>(next, lines.skip(1)) == none);
        } else {
            lemma_held(next, lines.skip(1));
            assert(seq![lines[0]] + lines.skip(1) =~= lines);
        }
    }
}

/// `sed` works on its lines one after the other.
proof fn lemma_line_by_line(ins: Seq<SedInstruction>, suppress: bool, lines: Seq<Seq<char>>)
    ensures
        run_lines::<SedStream>(sed_start(ins, suppress), lines) == line_by_line(
            ins,
            suppress,
            Seq::new(ins.len(), |i: int| false),
            1,
            lines,
        ),
{
    let m = sed_start(ins, suppress);
    let none = Seq::<u8>::empty();
    if lines.len() > 0 {
        let next = <SedStream as LineStage>::line_next(m, lines[0]);
        lemma_held(next, lines.skip(1));
        assert(seq![lines[0]] + lines.skip(1) =~= lines);
        let rest = run_lines::<SedStream>(next, lines.skip(1));
        assert(none + rest =~= rest);
    }
}

/// A script of one instruction does to a line what its command does, where its address is for the
/// line.
proof fn lemma_one_instruction(
    addr: SedAddr,
    cmd: SedCmd,
    suppress: bool,
    ranges: Seq<bool>,
    num: nat,
    last: bool,
    line: Seq<char>,
)
    requires
        ranges.len() == 1,
    ensures
        ({
            let ins = seq![SedInstruction { addr, cmd }];
            let r = sed_line(ins, ranges, line, num, last, suppress);
            let hit = addr_matches(addr, num, last, line, ranges[0]);
            let start = SedRun {
                text: line,
                out: Seq::empty(),
                deleted: false,
                printed: false,
                quit: false,
                ranges: seq![hit.1],
                stop: false,
            };
            let done = if hit.0 {
                sed_do(cmd, start, suppress)
            } else {
                start
            };
            &&& r.ranges == seq![hit.1]
            &&& r.quit == done.quit
            &&& r.out == if !done.deleted && !suppress && !done.printed {
                done.out + line_bytes(done.text)
            } else {
                done.out
            }
        }),
{
    let ins = seq![SedInstruction { addr, cmd }];
    let hit = addr_matches(addr, num, last, line, ranges[0]);
    let start = SedRun {
        text: line,
        out: Seq::empty(),
        deleted: false,
        printed: false,
        quit: false,
        ranges,
        stop: false,
    };
    let passed = SedRun { ranges: ranges.update(0, hit.1), ..start };
    assert(ranges.update(0, hit.1) =~= seq![hit.1]);
    let done = if hit.0 {
        sed_do(cmd, passed, suppress)
    } else {
        passed
    };
    assert(sed_from(ins, 1, done, num, last, suppress) == done);
    assert(sed_from(ins, 0, start, num, last, suppress) == done);
}

/// A number no less than zero and no more than a length.
pub open spec fn within(n: int, len: nat) -> int {
    if n < 0 {
        0
    } else if n > len {
        len as int
    } else {
        n
    }
}

proof fn lemma_lines_step(lines: Seq<Seq<char>>, k: int)
    requires
        0 < k <= lines.len(),
    ensures
        all_lines(lines.take(k)) == line_bytes(lines[0]) + all_lines(lines.skip(1).take(k - 1)),
        lines.skip(k) == lines.skip(1).skip(k - 1),
{
    assert(lines.take(k)[0] == lines[0]);
    assert(lines.take(k).skip(1) =~= lines.skip(1).take(k - 1));
    assert(lines.skip(k) =~= lines.skip(1).skip(k - 1));
}

proof fn lemma_range(
    cmd: SedCmd,
    suppress: bool,
    m: nat,
    n: nat,
    num: nat,
    lines: Seq<Seq<char>>,
)
    requires
        1 <= m < n,
        1 <= num,
        (cmd is Delete && !suppress) || (cmd is Print && suppress),
    ensures
        ({
            let addr = SedAddr::Range(Box::new(SedAddr::Line(m)), Box::new(SedAddr::Line(n)));
            let ins = seq![SedInstruction { addr, cmd }];
            let a = within(m - num, lines.len());
            let b = within(n + 1 - num, lines.len());
            line_by_line(ins, suppress, seq![m < num <= n], num, lines) == if suppress {
                all_lines(lines.subrange(a, b))
            } else {
                all_lines(lines.take(a)) + all_lines(lines.skip(b))
            }
        }),
    decreases lines.len(),
{
    let addr = SedAddr::Range(Box::new(SedAddr::Line(m)), Box::new(SedAddr::Line(n)));
    let ins = seq![SedInstruction { addr, cmd }];
    let none = Seq::<u8>::empty();
    let a = within(m - num, lines.len());
    let b = within(n + 1 - num, lines.len());
    let empty = Seq::<Seq<char>>::empty();
    if lines.len() == 0 {
        assert(lines.take(a) =~= empty);
        assert(lines.skip(b) =~= empty);
        assert(lines.subrange(a, b) =~= empty);
        assert(none + none =~= none);
    } else {
        let rest = lines.skip(1);
        let line = lines[0];
        let l = line_bytes(line);
        lemma_one_instruction(addr, cmd, suppress, seq![m < num <= n], num, lines.len() == 1, line);
        lemma_range(cmd, suppress, m, n, num + 1, rest);
        let a1 = within(m - (num + 1), rest.len());
        let b1 = within(n + 1 - (num + 1), rest.len());
        assert(addr_matches(SedAddr::Line(n), num, lines.len() == 1, line, false).0 == (num == n));
        assert(addr_matches(SedAddr::Line(m), num, lines.len() == 1, line, false).0 == (num == m));
        assert(seq![m < num + 1 && num + 1 <= n] =~= seq![m < num + 1 <= n]);
        assert(none + l =~= l);
        if num < m {
            assert(a == a1 + 1 && b == b1 + 1);
            lemma_lines_step(lines, a);
            lemma_lines_step(lines, b);
            assert(lines.subrange(a, b) =~= rest.subrange(a1, b1));
            assert(l + (all_lines(rest.take(a1)) + all_lines(rest.skip(b1))) =~= (l + all_lines(
                rest.take(a1),
            )) + all_lines(rest.skip(b1)));
            assert(none + all_lines(rest.subrange(a1, b1)) =~= all_lines(rest.subrange(a1, b1)));
        } else if num <= n {
            assert(a == 0 && a1 == 0 && b == b1 + 1);
            lemma_lines_step(lines, b);
            assert(lines.take(0) =~= empty);
            assert(rest.take(0) =~= empty);
            assert(lines.subrange(0, b)[0] == line);
            assert(lines.subrange(0, b).skip(1) =~= rest.subrange(0, b1));
            let t = none + all_lines(rest.skip(b1));
            assert(none + t =~= t);
        } else {
            assert(a == 0 && a1 == 0 && b == 0 && b1 == 0);
            assert(lines.take(0) =~= empty);
            assert(rest.take(0) =~= empty);
            assert(lines.skip(0) =~= lines);
            assert(rest.skip(0) =~= rest);
            assert(lines.subrange(0, 0) =~= empty);
            assert(rest.subrange(0, 0) =~= empty);
            assert(none + none =~= none);
            assert(l + (none + all_lines(rest)) =~= none + (l + all_lines(rest)));
        }
    }
}

/// The address `m,n` is for the lines from `m` to `n`, both included: `m,nd` writes the lines before
/// `m` and those after `n`, and `-n m,np` the lines from `m` to `n`.
pub proof fn law_line_ranges(m: nat, n: nat, lines: Seq<Seq<char>>)
    requires
        1 <= m < n,
    ensures
        ({
            let addr = SedAddr::Range(Box::new(SedAddr::Line(m)), Box::new(SedAddr::Line(n)));
            let a = within(m - 1, lines.len());
            let b = within(n as int, lines.len());
            &&& run_lines::<SedStream>(
                sed_start(seq![SedInstruction { addr, cmd: SedCmd::Delete }], false),
                lines,
            ) == all_lines(lines.take(a)) + all_lines(lines.skip(b))
            &&& run_lines::<SedStream>(
                sed_start(seq![SedInstruction { addr, cmd: SedCmd::Print }], true),
                lines,
            ) == all_lines(lines.subrange(a, b))
        }),
{
    let addr = SedAddr::Range(Box::new(SedAddr::Line(m)), Box::new(SedAddr::Line(n)));
    let d = seq![SedInstruction { addr, cmd: SedCmd::Delete }];
    let p = seq![SedInstruction { addr, cmd: SedCmd::Print }];
    lemma_line_by_line(d, false, lines);
    lemma_line_by_line(p, true, lines);
    assert(Seq::new(1, |i: int| false) =~= seq![m < 1 <= n]);
    lemma_range(SedCmd::Delete, false, m, n, 1, lines);
    lemma_range(SedCmd::Print, true, m, n, 1, lines);
}

/// Whether an address without a state is for the line with this number.
pub open spec fn is_for(addr: SedAddr, num: int, count: int, line: Seq<char>) -> bool {
    match addr {
        SedAddr::Every => true,
        SedAddr::Line(n) => num == n,
        SedAddr::Last => num == count,
        SedAddr::Regex(p) => simple_match(line, p),
        SedAddr::Range(_, _) => false,
    }
}

/// The lines that an address is for, or those that it is not for.
pub open spec fn picked(
    addr: SedAddr,
    num: int,
    count: int,
    lines: Seq<Seq<char>>,
    hit: bool,
) -> Seq<Seq<char>>
    decreases lines.len(),
{
    if lines.len() == 0 {
        Seq::empty()
    } else if is_for(addr, num, count, lines[0]) == hit {
        seq![lines[0]] + picked(addr, num + 1, count, lines.skip(1), hit)
    } else {
        picked(addr, num + 1, count, lines.skip(1), hit)
    }
}

proof fn lemma_all_lines_first(line: Seq<char>, rest: Seq<Seq<char>>)
    ensures
        all_lines(seq![line] + rest) == line_bytes(line) + all_lines(rest),
{
    assert((seq![line] + rest)[0] == line);
    assert((seq![line] + rest).skip(1) =~= rest);
}

proof fn lemma_picked(
    addr: SedAddr,
    cmd: SedCmd,
    suppress: bool,
    num: nat,
    count: int,
    lines: Seq<Seq<char>>,
)
    requires
        !(addr is Range),
        count == num + lines.len() - 1,
        (cmd is Delete && !suppress) || (cmd is Print && suppress),
    ensures
        line_by_line(seq![SedInstruction { addr, cmd }], suppress, seq![false], num, lines)
            == all_lines(picked(addr, num as int, count, lines, suppress)),
    decreases lines.len(),
{
    let none = Seq::<u8>::empty();
    if lines.len() > 0 {
        let rest = lines.skip(1);
        let l = line_bytes(lines[0]);
        let tail = picked(addr, num as int + 1, count, rest, suppress);
        lemma_one_instruction(addr, cmd, suppress, seq![false], num, lines.len() == 1, lines[0]);
        lemma_picked(addr, cmd, suppress, num + 1, count, rest);
        lemma_all_lines_first(lines[0], tail);
        assert(none + l =~= l);
        assert(none + all_lines(tail) =~= all_lines(tail));
    }
}

/// A line number, `$`, a pattern or no address at all is for just the lines that it says: `d` writes
/// the other lines, and `-n p` those lines.
pub proof fn law_addresses(addr: SedAddr, lines: Seq<Seq<char>>)
    requires
        !(addr is Range),
    ensures
        run_lines::<SedStream>(
            sed_start(seq![SedInstruction { addr, cmd: SedCmd::Delete }], false),
            lines,
        ) == all_lines(picked(addr, 1, lines.len() as int, lines, false)),
        run_lines::<SedStream>(
            sed_start(seq![SedInstruction { addr, cmd: SedCmd::Print }], true),
            lines,
        ) == all_lines(picked(addr, 1, lines.len() as int, lines, true)),
{
    let d = seq![SedInstruction { addr, cmd: SedCmd::Delete }];
    let p = seq![SedInstruction { addr, cmd: SedCmd::Print }];
    lemma_line_by_line(d, false, lines);
    lemma_line_by_line(p, true, lines);
    assert(Seq::new(1, |i: int| false) =~= seq![false]);
    lemma_picked(addr, SedCmd::Delete, false, 1, lines.len() as int, lines);
    lemma_picked(addr, SedCmd::Print, true, 1, lines.len() as int, lines);
}

/// What each line gives, one after the other.
pub open spec fn each(lines: Seq<Seq<char>>, f: spec_fn(Seq<char>) -> Seq<u8>) -> Seq<u8>
    decreases lines.len(),
{
    if lines.len() == 0 {
        Seq::empty()
    } else {
        f(lines[0]) + each(lines.skip(1), f)
    }
}

/// What a command that ends nothing makes of a line.
pub open spec fn line_gives(cmd: SedCmd, line: Seq<char>) -> Seq<u8> {
    match cmd {
        SedCmd::Substitute { pattern, replacement, global } => line_bytes(
            if global {
                replace_all(line, pattern, replacement)
            } else {
                replace_first(line, pattern, replacement)
            },
        ),
        SedCmd::Transliterate(from, to) => line_bytes(
            Seq::new(line.len(), |i: int| translit_char(line[i], from, to)),
        ),
        SedCmd::AppendText(t) => line_bytes(line) + line_bytes(t),
        SedCmd::InsertText(t) => line_bytes(t) + line_bytes(line),
        SedCmd::ChangeText(t) => line_bytes(t),
        SedCmd::Print => line_bytes(line),
        SedCmd::Delete => Seq::empty(),
        SedCmd::Quit => line_bytes(line),
    }
}

proof fn lemma_each(cmd: SedCmd, num: nat, lines: Seq<Seq<char>>)
    requires
        !(cmd is Quit),
    ensures
        line_by_line(
            seq![SedInstruction { addr: SedAddr::Every, cmd }],
            false,
            seq![false],
            num,
            lines,
        ) == each(lines, |line: Seq<char>| line_gives(cmd, line)),
    decreases lines.len(),
{
    let none = Seq::<u8>::empty();
    if lines.len() > 0 {
        let line = lines[0];
        lemma_one_instruction(
            SedAddr::Every,
            cmd,
            false,
            seq![false],
            num,
            lines.len() == 1,
            line,
        );
        lemma_each(cmd, num + 1, lines.skip(1));
        match cmd {
            SedCmd::Transliterate(from, to) => {
                let t = Seq::new(line.len(), |i: int| translit_char(line[i], from, to));
                assert(translit(line, from, to) =~= t);
                assert(none + line_bytes(t) =~= line_bytes(t));
            },
            SedCmd::Substitute { pattern, replacement, global } => {
                let t = if global {
                    replace_all(line, pattern, replacement)
                } else {
                    replace_first(line, pattern, replacement)
                };
                assert(none + line_bytes(t) =~= line_bytes(t));
            },
            SedCmd::AppendText(t) => {
                assert(none + line_bytes(line) =~= line_bytes(line));
            },
            SedCmd::InsertText(t) => {
                assert(none + line_bytes(t) =~= line_bytes(t));
            },
            SedCmd::ChangeText(t) => {
                assert(none + line_bytes(t) =~= line_bytes(t));
            },
            SedCmd::Print => {
                assert(none + line_bytes(line) =~= line_bytes(line));
            },
            _ => {},
        }
    }
}

/// Without an address a command is carried out on every line: `s` and `y` change it, `a` writes a
/// text behind it, `i` in front of it, `c` in its place, `d` writes nothing, and `q` ends after the
/// first line.
pub proof fn law_commands(cmd: SedCmd, lines: Seq<Seq<char>>)
    ensures
        !(cmd is Quit) ==> run_lines::<SedStream>(
            sed_start(seq![SedInstruction { addr: SedAddr::Every, cmd }], false),
            lines,
        ) == each(lines, |line: Seq<char>| line_gives(cmd, line)),
        cmd is Quit && lines.len() > 0 ==> run_lines::<SedStream>(
            sed_start(seq![SedInstruction { addr: SedAddr::Every, cmd }], false),
            lines,
        ) == line_bytes(lines[0]),
{
    let ins = seq![SedInstruction { addr: SedAddr::Every, cmd }];
    let none = Seq::<u8>::empty();
    lemma_line_by_line(ins, false, lines);
    assert(Seq::new(1, |i: int| false) =~= seq![false]);
    if cmd is Quit {
        if lines.len() > 0 {
            let l = line_bytes(lines[0]);
            lemma_one_instruction(
                SedAddr::Every,
                cmd,
                false,
                seq![false],
                1,
                lines.len() == 1,
                lines[0],
            );
            assert(none + l =~= l);
            assert(l + none =~= l);
        }
    } else {
        lemma_each(cmd, 1, lines);
    }
}

/// A pattern without anchors is found anywhere in a line, with a `^` in front at its start, with a
/// `$` behind at its end, and with both it is the line.
pub proof fn law_simple_patterns(line: Seq<char>, core: Seq<char>)
    requires
        core.len() > 0,
        core[0] != '^',
        core.last() != '$',
    ensures
        simple_match(line, core) <==> exists|i: int| #[trigger] occurs_at(line, core, i),
        simple_match(line, seq!['^'] + core) <==> occurs_at(line, core, 0),
        simple_match(line, core + seq!['$']) <==> core.len() <= line.len() && occurs_at(
            line,
            core,
            line.len() - core.len(),
        ),
        simple_match(line, seq!['^'] + core + seq!['$']) <==> line == core,
        simple_match(line, seq!['^', '$']) <==> line.len() == 0,
{
    law_search_finds_the_first(line, core, 0);
    let a = seq!['^'] + core;
    assert(a[0] == '^' && a.skip(1) =~= core);
    let b = core + seq!['$'];
    assert(b[0] == core[0] && b.last() == '$' && b.drop_last() =~= core);
    let c = seq!['^'] + core + seq!['$'];
    assert(c[0] == '^' && c.skip(1) =~= core + seq!['$']);
    assert((core + seq!['$']).last() == '$' && (core + seq!['$']).drop_last() =~= core);
    if core.len() <= line.len() {
        assert(line.take(core.len() as int) =~= line.subrange(0, core.len() as int));
        assert(line.skip(line.len() - core.len()) =~= line.subrange(
            line.len() - core.len(),
            line.len() as int,
        ));
    }
    let d = seq!['^', '$'];
    assert(d[0] == '^' && d.skip(1) =~= seq!['$']);
    assert(seq!['$'].drop_last() =~= Seq::<char>::empty());
    if line.len() == 0 {
        assert(line =~= Seq::<char>::empty());
    }
}

} // verus!
