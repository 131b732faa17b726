//! POSIX basic regular expressions, as `grep` takes them.
use crate::ascii::{
    BACKSLASH, CARET, COMMA, DASH, DOLLAR, DOT, LBRACE, LBRACKET, LPAREN, PIPE, PLUS, QUESTION,
    RBRACKET, RPAREN, STAR,
};
use posix_regex::compile::PosixRegexBuilder;
use vstd::prelude::*;
use vstd::utf8::encode_utf8;

verus! {

/// The position of the first `:` at `i` or later.
pub open spec fn next_colon(p: Seq<u8>, i: int) -> Option<int>
    decreases p.len() - i,
{
    if i < 0 || i >= p.len() {
        None
    } else if p[i] == 0x3a {
        Some(i)
    } else {
        next_colon(p, i + 1)
    }
}

/// The position past one item of a bracket expression, and whether the item is a single
/// character, which a range may start with. Nothing where the item is malformed.
pub open spec fn bracket_item(p: Seq<u8>, i: int) -> Option<(int, bool)> {
    if i < 0 || i >= p.len() {
        None
    } else if p[i] != LBRACKET {
        Some((i + 1, true))
    } else if i + 1 >= p.len() {
        None
    } else if p[i + 1] == DOT || p[i + 1] == 0x3d {
        if i + 4 < p.len() && p[i + 3] == p[i + 1] && p[i + 4] == RBRACKET {
            Some((i + 5, true))
        } else {
            None
        }
    } else if p[i + 1] == 0x3a {
        match next_colon(p, i + 2) {
            Some(c) => if c + 1 < p.len() && p[c + 1] == RBRACKET {
                Some((c + 2, false))
            } else {
                None
            },
            None => None,
        }
    } else {
        None
    }
}

/// The position past the items from `i` on and the `]` that ends them; nothing where the
/// bracket expression is malformed.
pub open spec fn bracket_end(p: Seq<u8>, i: int) -> Option<int>
    decreases p.len() - i + 1,
{
    match bracket_item(p, i) {
        None => None,
        Some((e, single)) => {
            let ranged = single && e < p.len() && p[e] == DASH && !(e + 1 < p.len() && p[e + 1]
                == RBRACKET);
            let next = if ranged {
                e + 2
            } else {
                e
            };
            if next <= i || next > p.len() {
                None
            } else if next < p.len() && p[next] == RBRACKET {
                Some(next + 1)
            } else {
                bracket_end(p, next)
            }
        },
    }
}

/// Whether what stands before position `j` may repeat without bound.
pub open spec fn repeats(p: Seq<u8>, j: int) -> bool {
    0 <= j < p.len() && (p[j] == STAR || (p[j] == BACKSLASH && j + 1 < p.len() && (p[j + 1] == PLUS
        || p[j + 1] == LBRACE)))
}

/// Whether what stands before position `j` may be left out.
pub open spec fn may_be_left_out(p: Seq<u8>, j: int) -> bool {
    0 <= j < p.len() && (p[j] == STAR || (p[j] == BACKSLASH && j + 1 < p.len() && (p[j + 1]
        == QUESTION || p[j + 1] == LBRACE)))
}

/// Whether a plain character or `.` stands at `j` that takes a byte in any case.
pub open spec fn takes_a_byte(p: Seq<u8>, j: int) -> bool {
    0 <= j < p.len() && p[j] != CARET && p[j] != DOLLAR && p[j] != LBRACKET && p[j] != BACKSLASH
        && p[j] != STAR && !may_be_left_out(p, j + 1)
}

/// Whether a byte is a decimal digit.
pub open spec fn is_digit_byte(b: u8) -> bool {
    0x30 <= b <= 0x39
}

/// The position past the digits from `j` on.
pub open spec fn digits_end(p: Seq<u8>, j: int) -> int
    decreases p.len() - j,
{
    if 0 <= j < p.len() && is_digit_byte(p[j]) {
        digits_end(p, j + 1)
    } else {
        j
    }
}

/// Whether what stands before position `j` may repeat more often than it has to.
pub open spec fn has_room(p: Seq<u8>, j: int) -> bool {
    0 <= j < p.len() && (p[j] == STAR || (p[j] == BACKSLASH && j + 1 < p.len() && (p[j + 1]
        == QUESTION || p[j + 1] == PLUS || (p[j + 1] == LBRACE && digits_end(p, j + 2) < p.len()
        && p[digits_end(p, j + 2)] == COMMA))))
}

/// An open group: whether it holds an anchor that need not be followed by a byte, and whether it
/// starts with a byte in any case.
pub struct OpenGroup {
    pub anchored: bool,
    pub guarded: bool,
}

/// The open groups, the innermost marked as holding an anchor.
pub open spec fn marked(open: Seq<OpenGroup>) -> Seq<OpenGroup> {
    if open.len() == 0 {
        open
    } else {
        open.drop_last().push(OpenGroup { anchored: true, ..open.last() })
    }
}

/// The open groups after an anchor in front of `j`.
pub open spec fn after_anchor(p: Seq<u8>, j: int, open: Seq<OpenGroup>) -> Seq<OpenGroup> {
    if takes_a_byte(p, j) {
        open
    } else {
        marked(open)
    }
}

/// The open groups after an alternative ended, which makes no more say how the innermost starts.
pub open spec fn unguarded(open: Seq<OpenGroup>) -> Seq<OpenGroup> {
    if open.len() == 0 {
        open
    } else {
        open.drop_last().push(OpenGroup { guarded: false, ..open.last() })
    }
}

/// The open groups without the innermost, whose anchors count for the one around it.
pub open spec fn closed_one(open: Seq<OpenGroup>) -> Seq<OpenGroup> {
    if open.last().anchored {
        marked(open.drop_last())
    } else {
        open.drop_last()
    }
}

/// Whether nothing from `i` on keeps matching from coming to an end: no group repeats without bound
/// that holds an anchor (`^`, `$`, `\<` or `\>`) which need not be followed by a byte, unless it
/// starts with a byte; and no back-reference may repeat more often than it has to.
pub open spec fn returns_from(p: Seq<u8>, i: int, open: Seq<OpenGroup>) -> bool
    decreases p.len() - i,
{
    if i < 0 || i >= p.len() {
        true
    } else if p[i] == CARET || p[i] == DOLLAR {
        returns_from(p, i + 1, after_anchor(p, i + 1, open))
    } else if p[i] == LBRACKET {
        let start = if i + 1 < p.len() && p[i + 1] == CARET {
            i + 2
        } else {
            i + 1
        };
        match bracket_end(p, start) {
            Some(e) => e > i && e <= p.len() ==> returns_from(p, e, open),
            None => true,
        }
    } else if p[i] == BACKSLASH {
        if i + 1 >= p.len() {
            true
        } else if is_digit_byte(p[i + 1]) {
            let e = digits_end(p, i + 1);
            !has_room(p, e) && (e > i && e <= p.len() ==> returns_from(p, e, open))
        } else if p[i + 1] == LPAREN {
            returns_from(
                p,
                i + 2,
                open.push(OpenGroup { anchored: false, guarded: takes_a_byte(p, i + 2) }),
            )
        } else if p[i + 1] == PIPE {
            returns_from(p, i + 2, unguarded(open))
        } else if p[i + 1] == RPAREN {
            open.len() == 0 || (!(open.last().anchored && !open.last().guarded && repeats(p, i + 2))
                && returns_from(p, i + 2, closed_one(open)))
        } else if p[i + 1] == 0x3c || p[i + 1] == 0x3e {
            returns_from(p, i + 2, after_anchor(p, i + 2, open))
        } else {
            returns_from(p, i + 2, open)
        }
    } else {
        returns_from(p, i + 1, open)
    }
}

/// Whether matching with a pattern comes to an end for every line. An anchor inside a group that
/// may repeat without bound can be repeated forever without taking a byte, and a back-reference to
/// an empty match reads past the line where it may repeat more often than it has to.
pub open spec fn posix_returns(p: Seq<u8>) -> bool {
    returns_from(p, 0, Seq::empty())
}

proof fn lemma_digits_end(p: Seq<u8>, j: int)
    requires
        0 <= j <= p.len(),
    ensures
        j <= digits_end(p, j) <= p.len(),
    decreases p.len() - j,
{
    if j < p.len() && is_digit_byte(p[j]) {
        lemma_digits_end(p, j + 1);
    }
}

fn skip_digits(p: &[u8], j: usize) -> (r: usize)
    requires
        j <= p@.len(),
    ensures
        r == digits_end(p@, j as int),
        j <= r <= p@.len(),
{
    let mut i: usize = j;
    while i < p.len() && p[i] >= 0x30 && p[i] <= 0x39
        invariant
            j <= i <= p@.len(),
            digits_end(p@, j as int) == digits_end(p@, i as int),
        decreases p@.len() - i,
    {
        i = i + 1;
    }
    i
}

/// The byte after a backslash at `j`, if there are both.
fn escaped_at(p: &[u8], j: usize) -> (r: Option<u8>)
    ensures
        match r {
            Some(c) => j + 1 < p@.len() && p@[j as int] == BACKSLASH && p@[j + 1] == c,
            None => j + 1 >= p@.len() || p@[j as int] != BACKSLASH,
        },
{
    if j < p.len() && p.len() - j > 1 && p[j] == BACKSLASH {
        Some(p[j + 1])
    } else {
        None
    }
}

fn byte_is_taken(p: &[u8], j: usize) -> (r: bool)
    requires
        j <= p@.len(),
    ensures
        r == takes_a_byte(p@, j as int),
{
    if j >= p.len() {
        return false;
    }
    let b: u8 = p[j];
    if b == CARET || b == DOLLAR || b == LBRACKET || b == BACKSLASH || b == STAR {
        return false;
    }
    if p.len() - j > 1 && p[j + 1] == STAR {
        return false;
    }
    match escaped_at(p, j + 1) {
        Some(c) => c != QUESTION && c != LBRACE,
        None => true,
    }
}

fn room_at(p: &[u8], j: usize) -> (r: bool)
    requires
        j <= p@.len(),
    ensures
        r == has_room(p@, j as int),
{
    if j < p.len() && p[j] == STAR {
        return true;
    }
    match escaped_at(p, j) {
        Some(c) => {
            if c == LBRACE {
                let e: usize = skip_digits(p, j + 2);
                e < p.len() && p[e] == COMMA
            } else {
                c == QUESTION || c == PLUS
            }
        },
        None => false,
    }
}

fn find_bracket_end(p: &[u8], start: usize) -> (r: Option<usize>)
    requires
        start <= p@.len(),
    ensures
        match r {
            Some(e) => bracket_end(p@, start as int) == Some(e as int) && start < e <= p@.len(),
            None => bracket_end(p@, start as int) is None,
        },
{
    let n: usize = p.len();
    let mut i: usize = start;
    loop
        invariant
            n == p@.len(),
            start <= i <= n,
            bracket_end(p@, start as int) == bracket_end(p@, i as int),
        decreases n - i,
    {
        let item = find_bracket_item(p, i);
        match item {
            None => {
                return None;
            },
            Some((e, single)) => {
                let ranged: bool = single && e < n && p[e] == DASH && !(n - e > 1 && p[e + 1]
                    == RBRACKET);
                if ranged && n - e < 2 {
                    return None;
                }
                let next: usize = if ranged {
                    e + 2
                } else {
                    e
                };
                if next < n && p[next] == RBRACKET {
                    return Some(next + 1);
                }
                i = next;
            },
        }
    }
}

fn find_bracket_item(p: &[u8], i: usize) -> (r: Option<(usize, bool)>)
    requires
        i <= p@.len(),
    ensures
        match r {
            Some((e, single)) => bracket_item(p@, i as int) == Some((e as int, single)) && i < e
                <= p@.len(),
            None => bracket_item(p@, i as int) is None,
        },
{
    let n: usize = p.len();
    if i >= n {
        return None;
    }
    if p[i] != LBRACKET {
        return Some((i + 1, true));
    }
    let left: usize = n - i;
    if left < 2 {
        return None;
    }
    let kind: u8 = p[i + 1];
    if kind == DOT || kind == 0x3d {
        if left > 4 && p[i + 3] == kind && p[i + 4] == RBRACKET {
            return Some((i + 5, true));
        }
        return None;
    }
    if kind == 0x3a {
        let mut c: usize = i + 2;
        while c < n
            invariant
                n == p@.len(),
                i + 2 <= c <= n,
                i < n,
                p@[i as int] == LBRACKET,
                p@[i + 1] == 0x3a,
                next_colon(p@, i + 2) == next_colon(p@, c as int),
            decreases n - c,
        {
            if p[c] == 0x3a {
                if n - c > 1 && p[c + 1] == RBRACKET {
                    return Some((c + 2, false));
                }
                return None;
            }
            c = c + 1;
        }
        return None;
    }
    None
}

/// Whether matching with a pattern comes to an end for every line.
pub fn posix_pattern_returns(pattern: &str) -> (r: bool)
    ensures
        r == posix_returns(encode_utf8(pattern@)),
{
    let p = pattern.as_bytes();
    let ghost all = encode_utf8(pattern@);
    let n: usize = p.len();
    let mut open: Vec<OpenGroup> = Vec::new();
    let mut i: usize = 0;
    assert(open@ =~= Seq::empty());
    while i < n
        invariant
            n == p@.len(),
            p@ == all,
            all == encode_utf8(pattern@),
            posix_returns(all) == returns_from(all, i as int, open@),
        decreases n - i,
    {
        let b: u8 = p[i];
        if b == CARET || b == DOLLAR {
            if !byte_is_taken(p, i + 1) {
                mark_last(&mut open);
            }
            i = i + 1;
        } else if b == LBRACKET {
            let start: usize = if n - i > 1 && p[i + 1] == CARET {
                i + 2
            } else {
                i + 1
            };
            match find_bracket_end(p, start) {
                Some(e) => {
                    i = e;
                },
                None => {
                    return true;
                },
            }
        } else if b == BACKSLASH {
            if n - i < 2 {
                return true;
            }
            let c: u8 = p[i + 1];
            if c >= 0x30 && c <= 0x39 {
                let e: usize = skip_digits(p, i + 1);
                proof {
                    lemma_digits_end(all, i + 2);
                    assert(digits_end(all, i + 1) == digits_end(all, i + 2));
                }
                if room_at(p, e) {
                    return false;
                }
                i = e;
                continue ;
            }
            if c == LPAREN {
                let guarded: bool = byte_is_taken(p, i + 2);
                open.push(OpenGroup { anchored: false, guarded });
            } else if c == PIPE {
                unguard_last(&mut open);
            } else if c == RPAREN {
                match open.pop() {
                    None => {
                        return true;
                    },
                    Some(group) => {
                        let j: usize = i + 2;
                        let again: bool = j < n && (p[j] == STAR || (p[j] == BACKSLASH && n - j > 1
                            && (p[j + 1] == PLUS || p[j + 1] == LBRACE)));
                        if group.anchored && !group.guarded && again {
                            return false;
                        }
                        if group.anchored {
                            mark_last(&mut open);
                        }
                    },
                }
            } else if c == 0x3c || c == 0x3e {
                if !byte_is_taken(p, i + 2) {
                    mark_last(&mut open);
                }
            }
            i = i + 2;
        } else {
            i = i + 1;
        }
    }
    true
}

fn mark_last(open: &mut Vec<OpenGroup>)
    ensures
        final(open)@ == marked(old(open)@),
{
    match open.pop() {
        Some(group) => {
            open.push(OpenGroup { anchored: true, guarded: group.guarded });
            assert(open@ =~= marked(old(open)@));
        },
        None => {},
    }
}

fn unguard_last(open: &mut Vec<OpenGroup>)
    ensures
        final(open)@ == unguarded(old(open)@),
{
    match open.pop() {
        Some(group) => {
            open.push(OpenGroup { anchored: group.anchored, guarded: false });
            assert(open@ =~= unguarded(old(open)@));
        },
        None => {},
    }
}

/// Whether a POSIX basic regular expression matches somewhere in a line, both as bytes; nothing
/// where the expression is malformed.
pub uninterp spec fn posix_search(pattern: Seq<u8>, line: Seq<u8>) -> Option<bool>;

/// `PosixRegexBuilder::compile`, with the default classes, and `PosixRegex::matches` depend on
/// the pattern and the line alone. Matching comes to an end, and reads no byte past the line, for
/// the patterns that are admitted here.
#[verifier::external_body]
pub(crate) fn posix_match(pattern: &str, line: &str) -> (r: Option<bool>)
    requires
        posix_returns(encode_utf8(pattern@)),
    ensures
        r == posix_search(encode_utf8(pattern@), encode_utf8(line@)),
{
    match PosixRegexBuilder::new(pattern.as_bytes()).with_default_classes().compile() {
        Ok(re) => Some(!re.matches(line.as_bytes(), Some(1)).is_empty()),
        Err(_) => None,
    }
}

} // verus!
