//! The stage `bat`.
use crate::stream::lines::{emit_line, line_bytes, LineStage};
use crate::text::{char_code, chars_of, dec, pad_left, padded, u64_to_dec};
use vstd::prelude::*;

verus! {

/// How `bat` shows its input.
#[derive(Debug)]
pub struct StreamingBatStage {
    pub show_numbers: bool,
    pub show_header: bool,
    pub show_all: bool,
    /// The first and the last line to show.
    pub line_range: Option<(Option<usize>, Option<usize>)>,
}

/// Whether a line is in the range to show; a missing bound bounds nothing.
pub open spec fn in_line_range(n: nat, range: Option<(Option<usize>, Option<usize>)>) -> bool {
    match range {
        None => true,
        Some((start, end)) => (start matches Some(s) ==> n >= s) && (end matches Some(e) ==> n <= e),
    }
}

/// Whether a line is in the range to show.
pub fn streaming_bat_in_range(
    line_num: usize,
    range: Option<(Option<usize>, Option<usize>)>,
) -> (r: bool)
    ensures
        r == in_line_range(line_num as nat, range),
{
    match range {
        None => true,
        Some((start, end)) => {
            let after: bool = match start {
                Some(s) => line_num >= s,
                None => true,
            };
            let before: bool = match end {
                Some(e) => line_num <= e,
                None => true,
            };
            after && before
        },
    }
}

/// The lower case hexadecimal digit of `d`.
pub open spec fn hex_digit(d: int) -> char {
    if d < 10 {
        (0x30 + d) as char
    } else {
        (0x61 + d - 10) as char
    }
}

/// Whether a character is a control character.
pub open spec fn is_control(c: char) -> bool {
    c as int <= 0x1f || 0x7f <= c as int <= 0x9f
}

/// A character in visible form.
pub open spec fn visible_char(c: char) -> Seq<char> {
    if c == '\t' {
        seq!['\\', 't']
    } else if c == '\r' {
        seq!['\\', 'r']
    } else if is_control(c) {
        seq!['\\', 'x', hex_digit(c as int / 16), hex_digit(c as int % 16)]
    } else {
        seq![c]
    }
}

/// A text in visible form.
pub open spec fn visible(s: Seq<char>) -> Seq<char>
    decreases s.len(),
{
    if s.len() == 0 {
        Seq::empty()
    } else {
        visible(s.drop_last()) + visible_char(s.last())
    }
}

fn hex_char(d: u32) -> (r: char)
    requires
        d < 16,
    ensures
        r == hex_digit(d as int),
{
    if d < 10 {
        (0x30 + d as u8) as char
    } else {
        (0x61 + (d as u8 - 10)) as char
    }
}

/// Turns tabs, carriage returns and control characters into visible escapes.
pub fn streaming_make_visible(s: &str) -> (r: String)
    ensures
        r@ == visible(s@),
{
    let chars = chars_of(s);
    let mut out = String::new();
    let mut i: usize = 0;
    assert(s@.take(0) =~= Seq::empty());
    while i < chars.len()
        invariant
            i <= chars@.len(),
            chars@ == s@,
            out@ == visible(s@.take(i as int)),
        decreases chars@.len() - i,
    {
        let ghost before = out@;
        let c: char = chars[i];
        let code: u32 = char_code(c);
        if c == '\t' {
            out.push('\\');
            out.push('t');
        } else if c == '\r' {
            out.push('\\');
            out.push('r');
        } else if code <= 0x1f || (code >= 0x7f && code <= 0x9f) {
            out.push('\\');
            out.push('x');
            out.push(hex_char(code / 16));
            out.push(hex_char(code % 16));
        } else {
            out.push(c);
        }
        assert(out@ =~= before + visible_char(c));
        assert(s@.take(i + 1).drop_last() =~= s@.take(i as int));
        i = i + 1;
    }
    assert(s@.take(i as int) =~= s@);
    out
}

/// `n` dashes of a rule.
pub open spec fn rule(n: nat) -> Seq<char> {
    Seq::new(n, |i: int| '\u{2500}')
}

/// A horizontal rule with the given corner.
pub open spec fn rule_line(corner: char) -> Seq<char> {
    rule(7).push(corner) + rule(20)
}

fn push_rule(s: &mut String, n: usize)
    ensures
        final(s)@ == old(s)@ + rule(n as nat),
{
    let ghost before = s@;
    let mut i: usize = 0;
    assert(s@ =~= before + rule(0));
    while i < n
        invariant
            i <= n,
            s@ == before + rule(i as nat),
        decreases n - i,
    {
        s.push('\u{2500}');
        i = i + 1;
        assert(s@ =~= before + rule(i as nat));
    }
}

fn make_rule_line(corner: char) -> (r: String)
    ensures
        r@ == rule_line(corner),
{
    let mut s = String::new();
    push_rule(&mut s, 7);
    s.push(corner);
    push_rule(&mut s, 20);
    assert(s@ =~= rule_line(corner));
    s
}

/// The two rules above the lines.
pub open spec fn bat_header(show: bool) -> Seq<u8> {
    if show {
        line_bytes(rule_line('\u{252C}')) + line_bytes(rule_line('\u{253C}'))
    } else {
        Seq::empty()
    }
}

/// The rule below the lines.
pub open spec fn bat_footer(show: bool) -> Seq<u8> {
    if show {
        line_bytes(rule_line('\u{2534}'))
    } else {
        Seq::empty()
    }
}

/// The rules above the lines, where a header is wanted.
pub fn emit_header(stage: &StreamingBatStage) -> (r: Vec<u8>)
    ensures
        r@ == bat_header(stage.show_header),
{
    let mut out: Vec<u8> = Vec::new();
    if stage.show_header {
        emit_line(&mut out, make_rule_line('\u{252C}').as_str());
        emit_line(&mut out, make_rule_line('\u{253C}').as_str());
    }
    assert(out@ =~= bat_header(stage.show_header));
    out
}

/// `bat`: lines with numbers and rules around them.
pub struct BatStream {
    pub stage: StreamingBatStage,
    pub line_num: usize,
}

/// What `bat` shows of the line numbered `n`.
pub open spec fn bat_line(stage: StreamingBatStage, n: nat, line: Seq<char>) -> Seq<u8> {
    let shown = if stage.show_all {
        visible(line)
    } else {
        line
    };
    if !in_line_range(n, stage.line_range) {
        Seq::empty()
    } else if stage.show_numbers {
        line_bytes(padded(dec(n), 5) + "   \u{2502} "@ + shown)
    } else {
        line_bytes(shown)
    }
}

impl LineStage for BatStream {
    type L = (StreamingBatStage, nat);

    open spec fn line_model(&self) -> (StreamingBatStage, nat) {
        (self.stage, self.line_num as nat)
    }

    open spec fn line_next(m: (StreamingBatStage, nat), line: Seq<char>) -> (
        StreamingBatStage,
        nat,
    ) {
        (m.0, m.1 + 1)
    }

    open spec fn line_out(m: (StreamingBatStage, nat), line: Seq<char>) -> Seq<u8> {
        bat_line(m.0, m.1 + 1, line)
    }

    open spec fn line_tail(m: (StreamingBatStage, nat)) -> Seq<u8> {
        bat_footer(m.0.show_header)
    }

    open spec fn line_done(m: (StreamingBatStage, nat)) -> bool {
        false
    }

    open spec fn line_safe(m: (StreamingBatStage, nat), line: Seq<char>) -> bool {
        true
    }

    open spec fn tail_safe(m: (StreamingBatStage, nat)) -> bool {
        true
    }

    open spec fn line_within(m: (StreamingBatStage, nat), n: nat) -> bool {
        m.1 <= n
    }

    proof fn lemma_line_within(m: (StreamingBatStage, nat), n: nat, k: nat) {
    }

    fn take_line(&mut self, line: String, out: &mut Vec<u8>, Ghost(n): Ghost<nat>) {
        let ghost before = out@;
        self.line_num = self.line_num + 1;
        if streaming_bat_in_range(self.line_num, self.stage.line_range) {
            let shown = if self.stage.show_all {
                streaming_make_visible(line.as_str())
            } else {
                line
            };
            if self.stage.show_numbers {
                let mut s = pad_left(u64_to_dec(self.line_num as u64).as_str(), 5);
                s.append("   \u{2502} ");
                s.append(shown.as_str());
                emit_line(out, s.as_str());
            } else {
                emit_line(out, shown.as_str());
            }
        } else {
            assert(out@ =~= before + Seq::<u8>::empty());
        }
    }

    fn take_last(&mut self, out: &mut Vec<u8>, Ghost(n): Ghost<nat>) {
        let ghost before = out@;
        if self.stage.show_header {
            emit_line(out, make_rule_line('\u{2534}').as_str());
        } else {
            assert(out@ =~= before + Seq::<u8>::empty());
        }
        assert(Self::line_status(self.line_model()) == Self::line_status(
            old(self).line_model(),
        ));
    }

    open spec fn line_status(m: (StreamingBatStage, nat)) -> i32 {
        0
    }

    fn line_status_now(&self) -> (r: i32) {
        0
    }

    fn is_line_done(&self) -> (r: bool) {
        false
    }

    fn can_take_line(&self, line: &str) -> (r: bool) {
        true
    }

    fn can_take_last(&self, line: Option<&str>) -> (r: bool) {
        true
    }
}

} // verus!
