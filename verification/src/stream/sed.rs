//! The stage `sed`.
use crate::stream::lines::{emit_line, line_bytes, LineStage};
use crate::stream::sed_parse::{
    addr_view, cmd_view, instructions_view, SedAddr, SedCmd, SedInstruction, StreamingSedAddr,
    StreamingSedCmd, StreamingSedInstruction,
};
use crate::text::{
    chars_of, ends_with, find_chars, find_in, replace_all, replace_every, replace_first,
    replace_once, starts_with, str_ends_with, str_eq, str_starts_with, sub_string,
};
use vstd::prelude::*;

verus! {

/// How `sed` works: whether lines are printed only on demand, and its instructions.
#[derive(Debug)]
pub struct StreamingSedStage {
    pub suppress_print: bool,
    pub instructions: Vec<StreamingSedInstruction>,
}

/// Whether a line matches a pattern of which only `^` at its start and `$` at its end are
/// special.
pub open spec fn simple_match(line: Seq<char>, p: Seq<char>) -> bool {
    let start = p.len() > 0 && p[0] == '^';
    let rest = if start {
        p.skip(1)
    } else {
        p
    };
    let end = rest.len() > 0 && rest.last() == '$';
    let core = if end {
        rest.drop_last()
    } else {
        rest
    };
    if start && end {
        line == core
    } else if start {
        starts_with(line, core)
    } else if end {
        ends_with(line, core)
    } else {
        find_chars(line, core, 0) is Some
    }
}

/// Matches a line against a pattern with anchors.
pub fn streaming_simple_grep_match(line: &str, pattern: &str) -> (r: bool)
    ensures
        r == simple_match(line@, pattern@),
{
    let p = chars_of(pattern);
    let n: usize = p.len();
    let start: bool = n > 0 && p[0] == '^';
    let a: usize = if start {
        1
    } else {
        0
    };
    let end: bool = n > a && p[n - 1] == '$';
    let b: usize = if end {
        n - 1
    } else {
        n
    };
    let core = sub_string(&p, a, b);
    proof {
        let rest = if start {
            pattern@.skip(1)
        } else {
            pattern@
        };
        if end {
            assert(core@ =~= rest.drop_last());
        } else {
            assert(core@ =~= rest);
        }
    }
    if start && end {
        str_eq(line, core.as_str())
    } else if start {
        str_starts_with(line, core.as_str())
    } else if end {
        str_ends_with(line, core.as_str())
    } else {
        let l = chars_of(line);
        let c = chars_of(core.as_str());
        find_in(&l, &c, 0).is_some()
    }
}

/// Whether an address is for a line, where the range that it may be has been entered or not,
/// and whether the range is entered after the line. The ends of a range stand on their own.
pub open spec fn addr_matches(
    a: SedAddr,
    num: nat,
    last: bool,
    line: Seq<char>,
    in_range: bool,
) -> (bool, bool)
    decreases a,
{
    match a {
        SedAddr::Every => (true, in_range),
        SedAddr::Line(n) => (num == n, in_range),
        SedAddr::Last => (last, in_range),
        SedAddr::Regex(p) => (simple_match(line, p), in_range),
        SedAddr::Range(s, e) => if in_range {
            (true, !addr_matches(*e, num, last, line, false).0)
        } else {
            let entered = addr_matches(*s, num, last, line, false).0;
            (entered, entered)
        },
    }
}

/// Whether an address is for a line.
pub fn streaming_sed_addr_matches(
    addr: &StreamingSedAddr,
    line_num: usize,
    is_last: bool,
    line: &str,
    in_range: &mut bool,
) -> (r: bool)
    ensures
        (r, *final(in_range)) == addr_matches(
            addr_view(*addr),
            line_num as nat,
            is_last,
            line@,
            *old(in_range),
        ),
    decreases addr,
{
    match addr {
        StreamingSedAddr::Every => true,
        StreamingSedAddr::Line(n) => line_num == *n,
        StreamingSedAddr::Last => is_last,
        StreamingSedAddr::Regex(p) => streaming_simple_grep_match(line, p.as_str()),
        StreamingSedAddr::Range(s, e) => {
            let mut fresh: bool = false;
            if *in_range {
                let left: bool = streaming_sed_addr_matches(e, line_num, is_last, line, &mut fresh);
                if left {
                    *in_range = false;
                }
                true
            } else {
                let entered: bool = streaming_sed_addr_matches(
                    s,
                    line_num,
                    is_last,
                    line,
                    &mut fresh,
                );
                *in_range = entered;
                entered
            }
        },
    }
}

/// The position of the first occurrence of `c`, or the length.
pub open spec fn char_index(s: Seq<char>, c: char) -> int
    decreases s.len(),
{
    if s.len() == 0 || s[0] == c {
        0
    } else {
        1 + char_index(s.skip(1), c)
    }
}

/// What a character becomes: the one in its place, the last one for those beyond, itself for
/// one that is not listed.
pub open spec fn translit_char(c: char, from: Seq<char>, to: Seq<char>) -> char {
    let i = char_index(from, c);
    if i >= from.len() || to.len() == 0 {
        c
    } else if i < to.len() {
        to[i]
    } else {
        to.last()
    }
}

/// `s` with every character translated.
pub open spec fn translit(s: Seq<char>, from: Seq<char>, to: Seq<char>) -> Seq<char> {
    s.map_values(|c: char| translit_char(c, from, to))
}

/// The position of the first occurrence of a character.
pub fn position_of(v: &Vec<char>, c: char) -> (r: Option<usize>)
    ensures
        match r {
            Some(i) => i == char_index(v@, c) && i < v@.len() && v@[i as int] == c,
            None => char_index(v@, c) == v@.len() && !v@.contains(c),
        },
{
    let mut i: usize = 0;
    assert(v@.skip(0) =~= v@);
    while i < v.len()
        invariant
            i <= v@.len(),
            char_index(v@, c) == i + char_index(v@.skip(i as int), c),
            forall|k: int| 0 <= k < i ==> v@[k] != c,
        decreases v@.len() - i,
    {
        if v[i] == c {
            return Some(i);
        }
        assert(v@.skip(i as int).skip(1) =~= v@.skip(i + 1));
        i = i + 1;
    }
    None
}

fn transliterate(s: &str, from: &Vec<char>, to: &Vec<char>) -> (r: String)
    ensures
        r@ == translit(s@, from@, to@),
{
    let chars = chars_of(s);
    let ghost want = translit(s@, from@, to@);
    let mut out = String::new();
    let mut i: usize = 0;
    assert(out@ =~= want.take(0));
    while i < chars.len()
        invariant
            i <= chars@.len(),
            chars@ == s@,
            want == translit(s@, from@, to@),
            out@ == want.take(i as int),
        decreases chars@.len() - i,
    {
        let c: char = chars[i];
        let t: char = match position_of(from, c) {
            Some(p) => {
                if to.len() == 0 {
                    c
                } else if p < to.len() {
                    to[p]
                } else {
                    to[to.len() - 1]
                }
            },
            None => c,
        };
        out.push(t);
        assert(want.take(i + 1) =~= want.take(i as int).push(want[i as int]));
        i = i + 1;
    }
    assert(want.take(i as int) =~= want);
    out
}

/// A line on its way through the instructions.
pub struct SedRun {
    pub text: Seq<char>,
    pub out: Seq<u8>,
    pub deleted: bool,
    pub printed: bool,
    pub quit: bool,
    /// Whether each instruction's range is entered.
    pub ranges: Seq<bool>,
    /// Whether the remaining instructions are passed over.
    pub stop: bool,
}

/// What a command does with a line.
pub open spec fn sed_do(c: SedCmd, r: SedRun, suppress: bool) -> SedRun {
    match c {
        SedCmd::Substitute { pattern, replacement, global } => SedRun {
            text: if global {
                replace_all(r.text, pattern, replacement)
            } else {
                replace_first(r.text, pattern, replacement)
            },
            ..r
        },
        SedCmd::Delete => SedRun { deleted: true, stop: true, ..r },
        SedCmd::Print => SedRun { out: r.out + line_bytes(r.text), printed: true, ..r },
        SedCmd::Transliterate(from, to) => SedRun { text: translit(r.text, from, to), ..r },
        SedCmd::AppendText(t) => if !suppress && !r.printed {
            SedRun { out: r.out + line_bytes(r.text) + line_bytes(t), printed: true, ..r }
        } else {
            SedRun { out: r.out + line_bytes(t), ..r }
        },
        SedCmd::InsertText(t) => SedRun { out: r.out + line_bytes(t), ..r },
        SedCmd::ChangeText(t) => SedRun {
            out: r.out + line_bytes(t),
            deleted: true,
            printed: true,
            stop: true,
            ..r
        },
        SedCmd::Quit => SedRun { quit: true, stop: true, ..r },
    }
}

/// The line after the instructions from the `i`-th on.
pub open spec fn sed_from(
    ins: Seq<SedInstruction>,
    i: int,
    r: SedRun,
    num: nat,
    last: bool,
    suppress: bool,
) -> SedRun
    decreases ins.len() - i,
{
    if i < 0 || i >= ins.len() || r.stop {
        r
    } else {
        let (hit, entered) = addr_matches(ins[i].addr, num, last, r.text, r.ranges[i]);
        let s = SedRun { ranges: r.ranges.update(i, entered), ..r };
        sed_from(
            ins,
            i + 1,
            if hit {
                sed_do(ins[i].cmd, s, suppress)
            } else {
                s
            },
            num,
            last,
            suppress,
        )
    }
}

/// The line numbered `num` after all instructions, printed unless it was deleted, was printed
/// before or is printed only on demand.
pub open spec fn sed_line(
    ins: Seq<SedInstruction>,
    ranges: Seq<bool>,
    line: Seq<char>,
    num: nat,
    last: bool,
    suppress: bool,
) -> SedRun {
    let start = SedRun {
        text: line,
        out: Seq::empty(),
        deleted: false,
        printed: false,
        quit: false,
        ranges,
        stop: false,
    };
    let r = sed_from(ins, 0, start, num, last, suppress);
    if !r.deleted && !suppress && !r.printed {
        SedRun { out: r.out + line_bytes(r.text), ..r }
    } else {
        r
    }
}

/// `sed`. A line is worked on when the next one has come, so that the last one is known.
pub struct SedStream {
    pub stage: StreamingSedStage,
    pub held: Option<String>,
    pub line_num: usize,
    pub range_states: Vec<bool>,
    pub quit: bool,
}

/// The state of `sed`: its instructions, the line that waits, its number and the ranges.
pub struct SedModel {
    pub ins: Seq<SedInstruction>,
    pub suppress: bool,
    pub held: Option<Seq<char>>,
    pub num: nat,
    pub ranges: Seq<bool>,
    pub quit: bool,
}

/// The line that waits, worked on.
pub open spec fn sed_held(m: SedModel, last: bool) -> SedRun {
    sed_line(m.ins, m.ranges, m.held->0, m.num, last, m.suppress)
}

/// `sed` before its first line.
pub open spec fn sed_start(ins: Seq<SedInstruction>, suppress: bool) -> SedModel {
    SedModel {
        ins,
        suppress,
        held: None,
        num: 1,
        ranges: Seq::new(ins.len(), |i: int| false),
        quit: false,
    }
}

impl SedStream {
    /// `sed` before its first line.
    pub fn new(stage: StreamingSedStage) -> (r: SedStream)
        ensures
            r.line_model() == sed_start(
                instructions_view(stage.instructions@),
                stage.suppress_print,
            ),
            SedStream::line_within(r.line_model(), 0),
    {
        let mut range_states: Vec<bool> = Vec::new();
        let mut i: usize = 0;
        while i < stage.instructions.len()
            invariant
                i <= stage.instructions@.len(),
                range_states@.len() == i,
                forall|k: int| 0 <= k < i ==> !range_states@[k],
            decreases stage.instructions@.len() - i,
        {
            range_states.push(false);
            i = i + 1;
        }
        assert(range_states@ =~= Seq::new(stage.instructions@.len(), |i: int| false));
        SedStream { stage, held: None, line_num: 1, range_states, quit: false }
    }

    /// Works on a line: writes what it gives, and returns whether to quit.
    fn run_line(&mut self, line: String, is_last: bool, out: &mut Vec<u8>) -> (r: bool)
        requires
            old(self).range_states@.len() == old(self).stage.instructions@.len(),
        ensures
            ({
                let m = old(self).line_model();
                let run = sed_line(m.ins, m.ranges, line@, m.num, is_last, m.suppress);
                &&& final(out)@ == old(out)@ + run.out
                &&& final(self).range_states@ == run.ranges
                &&& r == run.quit
            }),
            final(self).range_states@.len() == old(self).range_states@.len(),
            final(self).stage == old(self).stage,
            final(self).held == old(self).held,
            final(self).line_num == old(self).line_num,
            final(self).quit == old(self).quit,
    {
        let ghost m = self.line_model();
        let ghost before = out@;
        let ghost start = SedRun {
            text: line@,
            out: Seq::empty(),
            deleted: false,
            printed: false,
            quit: false,
            ranges: m.ranges,
            stop: false,
        };
        let ghost mut run = start;
        let suppress: bool = self.stage.suppress_print;
        let mut text = line;
        let mut deleted: bool = false;
        let mut printed: bool = false;
        let mut quit: bool = false;
        let mut stop: bool = false;
        let mut i: usize = 0;
        assert(out@ =~= before + run.out);
        while i < self.stage.instructions.len() && !stop
            invariant
                i <= self.stage.instructions@.len(),
                self.stage == old(self).stage,
                self.held == old(self).held,
                self.line_num == old(self).line_num,
                self.quit == old(self).quit,
                m == old(self).line_model(),
                m.ins == instructions_view(self.stage.instructions@),
                suppress == m.suppress,
                self.line_num == m.num,
                self.range_states@.len() == self.stage.instructions@.len(),
                run.text == text@,
                run.deleted == deleted,
                run.printed == printed,
                run.quit == quit,
                run.stop == stop,
                run.ranges == self.range_states@,
                out@ == before + run.out,
                sed_from(m.ins, 0, start, m.num, is_last, suppress) == sed_from(
                    m.ins,
                    i as int,
                    run,
                    m.num,
                    is_last,
                    suppress,
                ),
            decreases self.stage.instructions@.len() - i,
        {
            let instr = &self.stage.instructions[i];
            let ghost at = m.ins[i as int];
            assert(at == (SedInstruction { addr: addr_view(instr.addr), cmd: cmd_view(instr.cmd) }));
            let mut entered: bool = self.range_states[i];
            let hit: bool = streaming_sed_addr_matches(
                &instr.addr,
                self.line_num,
                is_last,
                text.as_str(),
                &mut entered,
            );
            let ghost passed = SedRun { ranges: run.ranges.update(i as int, entered), ..run };
            if hit {
                match &instr.cmd {
                    StreamingSedCmd::Substitute(sub) => {
                        if sub.global {
                            text = replace_every(
                                text.as_str(),
                                sub.pattern.as_str(),
                                sub.replacement.as_str(),
                            );
                        } else {
                            text = replace_once(
                                text.as_str(),
                                sub.pattern.as_str(),
                                sub.replacement.as_str(),
                            );
                        }
                    },
                    StreamingSedCmd::Delete => {
                        deleted = true;
                        stop = true;
                    },
                    StreamingSedCmd::Print => {
                        emit_line(out, text.as_str());
                        printed = true;
                    },
                    StreamingSedCmd::Transliterate(from, to) => {
                        text = transliterate(text.as_str(), from, to);
                    },
                    StreamingSedCmd::AppendText(t) => {
                        if !suppress && !printed {
                            emit_line(out, text.as_str());
                            printed = true;
                        }
                        emit_line(out, t.as_str());
                    },
                    StreamingSedCmd::InsertText(t) => {
                        emit_line(out, t.as_str());
                    },
                    StreamingSedCmd::ChangeText(t) => {
                        emit_line(out, t.as_str());
                        deleted = true;
                        printed = true;
                        stop = true;
                    },
                    StreamingSedCmd::Quit => {
                        quit = true;
                        stop = true;
                    },
                }
            }
            self.range_states.set(i, entered);
            proof {
                run = if hit {
                    sed_do(at.cmd, passed, suppress)
                } else {
                    passed
                };
                assert(out@ =~= before + run.out);
            }
            i = i + 1;
        }
        assert(run == sed_from(m.ins, 0, start, m.num, is_last, suppress));
        if !deleted && !suppress && !printed {
            emit_line(out, text.as_str());
            assert(out@ =~= before + (run.out + line_bytes(run.text)));
        }
        quit
    }
}

impl LineStage for SedStream {
    type L = SedModel;

    open spec fn line_model(&self) -> SedModel {
        SedModel {
            ins: instructions_view(self.stage.instructions@),
            suppress: self.stage.suppress_print,
            held: match self.held {
                Some(s) => Some(s@),
                None => None,
            },
            num: self.line_num as nat,
            ranges: self.range_states@,
            quit: self.quit,
        }
    }

    open spec fn line_next(m: SedModel, line: Seq<char>) -> SedModel {
        if m.held is None {
            SedModel { held: Some(line), ..m }
        } else {
            let r = sed_held(m, false);
            if r.quit {
                SedModel { held: None, ranges: r.ranges, quit: true, ..m }
            } else {
                SedModel { held: Some(line), num: m.num + 1, ranges: r.ranges, ..m }
            }
        }
    }

    open spec fn line_out(m: SedModel, line: Seq<char>) -> Seq<u8> {
        if m.held is None {
            Seq::empty()
        } else {
            sed_held(m, false).out
        }
    }

    open spec fn line_tail(m: SedModel) -> Seq<u8> {
        if m.held is None {
            Seq::empty()
        } else {
            sed_held(m, true).out
        }
    }

    open spec fn line_done(m: SedModel) -> bool {
        m.quit
    }

    open spec fn line_safe(m: SedModel, line: Seq<char>) -> bool {
        true
    }

    open spec fn tail_safe(m: SedModel) -> bool {
        true
    }

    open spec fn line_within(m: SedModel, n: nat) -> bool {
        &&& m.held is None ==> m.num <= n + 1
        &&& m.held is Some ==> m.num <= n
        &&& m.ranges.len() == m.ins.len()
    }

    proof fn lemma_line_within(m: SedModel, n: nat, k: nat) {
    }

    fn take_line(&mut self, line: String, out: &mut Vec<u8>, Ghost(n): Ghost<nat>) {
        let waiting = self.held.take();
        match waiting {
            None => {
                self.held = Some(line);
                assert(out@ + Seq::<u8>::empty() =~= out@);
            },
            Some(previous) => {
                if self.run_line(previous, false, out) {
                    self.quit = true;
                } else {
                    self.line_num = self.line_num + 1;
                    self.held = Some(line);
                }
            },
        }
    }

    fn take_last(&mut self, out: &mut Vec<u8>, Ghost(n): Ghost<nat>) {
        let waiting = self.held.take();
        match waiting {
            None => {
                assert(out@ + Seq::<u8>::empty() =~= out@);
            },
            Some(previous) => {
                let _ = self.run_line(previous, true, out);
            },
        }
        assert(Self::line_status(self.line_model()) == Self::line_status(
            old(self).line_model(),
        ));
    }

    open spec fn line_status(m: SedModel) -> i32 {
        0
    }

    fn line_status_now(&self) -> (r: i32) {
        0
    }

    fn is_line_done(&self) -> (r: bool) {
        self.quit
    }

    fn can_take_line(&self, line: &str) -> (r: bool) {
        true
    }

    fn can_take_last(&self, line: Option<&str>) -> (r: bool) {
        true
    }
}

/// The lines, each with its newline.
pub open spec fn all_lines(lines: Seq<Seq<char>>) -> Seq<u8>
    decreases lines.len(),
{
    if lines.len() == 0 {
        Seq::empty()
    } else {
        line_bytes(lines[0]) + all_lines(lines.skip(1))
    }
}

/// An empty script hands every line on, and with `-n` it hands none on.
pub proof fn law_empty_script_hands_lines_on(m: SedModel, lines: Seq<Seq<char>>)
    requires
        m.ins.len() == 0,
        !m.quit,
    ensures
        crate::stream::lines::run_lines::<SedStream>(m, lines) == (if m.suppress {
            Seq::empty()
        } else {
            (match m.held {
                Some(h) => line_bytes(h),
                None => Seq::empty(),
            }) + all_lines(lines)
        }),
    decreases lines.len(),
{
    let none = Seq::<u8>::empty();
    if m.held is Some {
        let h = line_bytes(m.held->0);
        assert(none + h =~= h);
        assert(h + none =~= h);
    }
    if lines.len() > 0 {
        let next = <SedStream as LineStage>::line_next(m, lines[0]);
        law_empty_script_hands_lines_on(next, lines.skip(1));
        let l = line_bytes(lines[0]) + all_lines(lines.skip(1));
        assert(none + l =~= l);
        assert(none + none =~= none);
    } else {
        assert(none + none =~= none);
    }
}

} // verus!
