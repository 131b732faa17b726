//! The stage `uniq`.
use crate::stream::lines::{emit_line, line_bytes, run_lines, LineStage};
use crate::text::{
    chars_of, dec, is_space, is_whitespace, lowercased, pad_left, padded, str_eq, string_of,
    to_lowercase, trim_start, u64_to_dec,
};
use vstd::prelude::*;

verus! {

/// What `uniq` compares and prints.
#[derive(Debug)]
pub struct StreamingUniqFlags {
    pub count: bool,
    pub duplicates_only: bool,
    pub unique_only: bool,
    pub ignore_case: bool,
    pub skip_fields: usize,
    pub skip_chars: usize,
    pub compare_chars: Option<usize>,
}

/// What stands in `s` from its first white space on; nothing where it has none.
pub open spec fn from_space(s: Seq<char>) -> Seq<char>
    decreases s.len(),
{
    if s.len() == 0 || is_space(s[0]) {
        s
    } else {
        from_space(s.skip(1))
    }
}

/// `s` without its first `n` fields: each is white space and what follows up to the next.
pub open spec fn skip_fields(s: Seq<char>, n: nat) -> Seq<char>
    decreases n,
{
    if n == 0 {
        s
    } else {
        skip_fields(from_space(trim_start(s)), (n - 1) as nat)
    }
}

/// `s` without its first `n` items.
pub open spec fn skip_at_most<T>(s: Seq<T>, n: nat) -> Seq<T> {
    if n < s.len() {
        s.skip(n as int)
    } else {
        Seq::empty()
    }
}

/// The first `n` items of `s`, or all.
pub open spec fn take_at_most<T>(s: Seq<T>, n: nat) -> Seq<T> {
    if n < s.len() {
        s.take(n as int)
    } else {
        s
    }
}

/// What is compared of a line.
pub open spec fn uniq_key(flags: StreamingUniqFlags, line: Seq<char>) -> Seq<char> {
    let a = skip_at_most(skip_fields(line, flags.skip_fields as nat), flags.skip_chars as nat);
    let b = match flags.compare_chars {
        Some(n) => take_at_most(a, n as nat),
        None => a,
    };
    if flags.ignore_case {
        lowercased(b)
    } else {
        b
    }
}

proof fn lemma_skip_fields_empty(n: nat)
    ensures
        skip_fields(Seq::empty(), n) == Seq::<char>::empty(),
    decreases n,
{
    if n > 0 {
        assert(trim_start(Seq::<char>::empty()) =~= Seq::empty());
        assert(from_space(Seq::<char>::empty()) =~= Seq::empty());
        lemma_skip_fields_empty((n - 1) as nat);
    }
}

/// Finds what is compared of a line.
pub fn streaming_uniq_compare_key(line: &str, flags: &StreamingUniqFlags) -> (r: String)
    ensures
        r@ == uniq_key(*flags, line@),
{
    let chars = chars_of(line);
    let ghost all = line@;
    let mut at: usize = 0;
    let mut field: usize = 0;
    assert(all.skip(0) =~= all);
    while field < flags.skip_fields && at < chars.len()
        invariant
            field <= flags.skip_fields,
            at <= chars@.len(),
            chars@ == all,
            skip_fields(all, flags.skip_fields as nat) == skip_fields(
                all.skip(at as int),
                (flags.skip_fields - field) as nat,
            ),
        decreases flags.skip_fields - field,
    {
        let ghost start = all.skip(at as int);
        while at < chars.len() && is_whitespace(chars[at])
            invariant
                at <= chars@.len(),
                chars@ == all,
                trim_start(start) == trim_start(all.skip(at as int)),
            decreases chars@.len() - at,
        {
            assert(all.skip(at as int).skip(1) =~= all.skip(at + 1));
            at = at + 1;
        }
        let ghost trimmed = all.skip(at as int);
        assert(trim_start(start) == trimmed);
        while at < chars.len() && !is_whitespace(chars[at])
            invariant
                at <= chars@.len(),
                chars@ == all,
                from_space(trimmed) == from_space(all.skip(at as int)),
            decreases chars@.len() - at,
        {
            assert(all.skip(at as int).skip(1) =~= all.skip(at + 1));
            at = at + 1;
        }
        assert(from_space(trimmed) == all.skip(at as int));
        field = field + 1;
    }
    proof {
        if field < flags.skip_fields {
            assert(all.skip(at as int) =~= Seq::empty());
            lemma_skip_fields_empty((flags.skip_fields - field) as nat);
        }
    }
    let ghost rest = all.skip(at as int);
    let left: usize = chars.len() - at;
    let from: usize = if flags.skip_chars < left {
        at + flags.skip_chars
    } else {
        chars.len()
    };
    assert(all.skip(from as int) =~= skip_at_most(rest, flags.skip_chars as nat));
    let end: usize = match flags.compare_chars {
        Some(n) => {
            if n < chars.len() - from {
                from + n
            } else {
                chars.len()
            }
        },
        None => chars.len(),
    };
    let part = vstd::slice::slice_subrange(chars.as_slice(), from, end);
    proof {
        let a = all.skip(from as int);
        match flags.compare_chars {
            Some(n) => {
                assert(part@ =~= take_at_most(a, n as nat));
            },
            None => {
                assert(part@ =~= a);
            },
        }
    }
    let key = string_of(part);
    if flags.ignore_case {
        to_lowercase(key.as_str())
    } else {
        key
    }
}

/// What is printed for `count` equal lines, the first of which is `line`.
pub open spec fn uniq_out(flags: StreamingUniqFlags, line: Seq<char>, count: nat) -> Seq<u8> {
    if (flags.duplicates_only && count < 2) || (flags.unique_only && count > 1) {
        Seq::empty()
    } else if flags.count {
        line_bytes(padded(dec(count), 7) + " "@ + line)
    } else {
        line_bytes(line)
    }
}

/// Prints what stands for equal lines.
pub fn emit_streaming_uniq_line(
    output: &mut Vec<u8>,
    line: &str,
    count: usize,
    flags: &StreamingUniqFlags,
)
    ensures
        final(output)@ == old(output)@ + uniq_out(*flags, line@, count as nat),
{
    if (flags.duplicates_only && count < 2) || (flags.unique_only && count > 1) {
        assert(output@ + Seq::<u8>::empty() =~= output@);
        return;
    }
    if flags.count {
        let mut s = pad_left(u64_to_dec(count as u64).as_str(), 7);
        s.append(" ");
        s.append(line);
        emit_line(output, s.as_str());
    } else {
        emit_line(output, line);
    }
}

/// `uniq`: runs of equal lines as one.
pub struct UniqStream {
    pub flags: StreamingUniqFlags,
    /// The first line of the run, and what is compared of it.
    pub prev: Option<(String, String)>,
    pub count: usize,
}

/// The run that `uniq` is in: its first line, what is compared of it, and its length.
pub struct UniqModel {
    pub flags: StreamingUniqFlags,
    pub prev: Option<(Seq<char>, Seq<char>)>,
    pub count: nat,
}

/// What is printed for the run so far.
pub open spec fn uniq_flush(m: UniqModel) -> Seq<u8> {
    match m.prev {
        Some((line, _)) => uniq_out(m.flags, line, m.count),
        None => Seq::empty(),
    }
}

impl UniqStream {
    /// `uniq` before its first line.
    pub fn new(flags: StreamingUniqFlags) -> (r: UniqStream)
        ensures
            r.line_model() == (UniqModel { flags, prev: None, count: 0 }),
            UniqStream::line_within(r.line_model(), 0),
    {
        UniqStream { flags, prev: None, count: 0 }
    }

    fn flush_uniq_prev(&self, out: &mut Vec<u8>)
        ensures
            final(out)@ == old(out)@ + uniq_flush(self.line_model()),
    {
        match &self.prev {
            Some(p) => {
                emit_streaming_uniq_line(out, p.0.as_str(), self.count, &self.flags);
            },
            None => {
                assert(out@ + Seq::<u8>::empty() =~= out@);
            },
        }
    }
}

impl LineStage for UniqStream {
    type L = UniqModel;

    open spec fn line_model(&self) -> UniqModel {
        UniqModel {
            flags: self.flags,
            prev: match self.prev {
                Some((line, key)) => Some((line@, key@)),
                None => None,
            },
            count: self.count as nat,
        }
    }

    open spec fn line_next(m: UniqModel, line: Seq<char>) -> UniqModel {
        let key = uniq_key(m.flags, line);
        if m.prev is Some && (m.prev->0).1 == key {
            UniqModel { count: m.count + 1, ..m }
        } else {
            UniqModel { prev: Some((line, key)), count: 1, ..m }
        }
    }

    open spec fn line_out(m: UniqModel, line: Seq<char>) -> Seq<u8> {
        if m.prev is Some && (m.prev->0).1 == uniq_key(m.flags, line) {
            Seq::empty()
        } else {
            uniq_flush(m)
        }
    }

    open spec fn line_tail(m: UniqModel) -> Seq<u8> {
        uniq_flush(m)
    }

    open spec fn line_done(m: UniqModel) -> bool {
        false
    }

    open spec fn line_safe(m: UniqModel, line: Seq<char>) -> bool {
        true
    }

    open spec fn tail_safe(m: UniqModel) -> bool {
        true
    }

    open spec fn line_within(m: UniqModel, n: nat) -> bool {
        m.count <= n
    }

    proof fn lemma_line_within(m: UniqModel, n: nat, k: nat) {
    }

    fn take_line(&mut self, line: String, out: &mut Vec<u8>, Ghost(n): Ghost<nat>) {
        let key = streaming_uniq_compare_key(line.as_str(), &self.flags);
        let same: bool = match &self.prev {
            Some(p) => str_eq(p.1.as_str(), key.as_str()),
            None => false,
        };
        if same {
            self.count = self.count + 1;
            assert(out@ + Seq::<u8>::empty() =~= out@);
            return;
        }
        self.flush_uniq_prev(out);
        self.prev = Some((line, key));
        self.count = 1;
    }

    fn take_last(&mut self, out: &mut Vec<u8>, Ghost(n): Ghost<nat>) {
        self.flush_uniq_prev(out);
        assert(Self::line_status(self.line_model()) == Self::line_status(
            old(self).line_model(),
        ));
    }

    open spec fn line_status(m: UniqModel) -> i32 {
        0
    }

    fn line_status_now(&self) -> (r: i32) {
        0
    }

    fn is_line_done(&self) -> (r: bool) {
        false
    }

    fn can_take_line(&self, line: &str) -> (r: bool) {
        true
    }

    fn can_take_last(&self, line: Option<&str>) -> (r: bool) {
        true
    }
}

/// The first line of each run of lines of which the same is compared, `key` being what is compared of
/// the line before.
pub open spec fn first_lines(
    flags: StreamingUniqFlags,
    key: Option<Seq<char>>,
    lines: Seq<Seq<char>>,
) -> Seq<u8>
    decreases lines.len(),
{
    if lines.len() == 0 {
        Seq::empty()
    } else {
        let k = uniq_key(flags, lines[0]);
        (if key == Some(k) {
            Seq::empty()
        } else {
            line_bytes(lines[0])
        }) + first_lines(flags, Some(k), lines.skip(1))
    }
}

proof fn lemma_first_lines(m: UniqModel, lines: Seq<Seq<char>>)
    requires
        !m.flags.count,
        !m.flags.duplicates_only,
        !m.flags.unique_only,
        m.prev matches Some((line, key)) ==> key == uniq_key(m.flags, line),
    ensures
        run_lines::<UniqStream>(m, lines) == uniq_flush(m) + first_lines(
            m.flags,
            match m.prev {
                Some((_, key)) => Some(key),
                None => None,
            },
            lines,
        ),
    decreases lines.len(),
{
    let none = Seq::<u8>::empty();
    assert(uniq_flush(m) + none =~= uniq_flush(m));
    if lines.len() > 0 {
        let next = <UniqStream as LineStage>::line_next(m, lines[0]);
        let rest = lines.skip(1);
        lemma_first_lines(next, rest);
        let more = first_lines(m.flags, Some(uniq_key(m.flags, lines[0])), rest);
        if m.prev is Some && (m.prev->0).1 == uniq_key(m.flags, lines[0]) {
            assert(none + (uniq_flush(m) + more) =~= uniq_flush(m) + (none + more));
        } else {
            let line = line_bytes(lines[0]);
            assert(uniq_flush(m) + (line + more) =~= uniq_flush(m) + line + more);
        }
    }
}

/// `uniq` without options of its output writes the first line of each run of equal lines.
pub proof fn law_uniq_writes_first_lines(flags: StreamingUniqFlags, lines: Seq<Seq<char>>)
    requires
        !flags.count,
        !flags.duplicates_only,
        !flags.unique_only,
    ensures
        run_lines::<UniqStream>(UniqModel { flags, prev: None, count: 0 }, lines) == first_lines(
            flags,
            None,
            lines,
        ),
{
    let m = UniqModel { flags, prev: None, count: 0 };
    lemma_first_lines(m, lines);
    assert(Seq::<u8>::empty() + first_lines(flags, None, lines) =~= first_lines(
        flags,
        None,
        lines,
    ));
}

} // verus!
