//! The character sets of `tr`.
use crate::text::{char_code, chars_of, sub_string, str_eq};
use vstd::prelude::*;

verus! {

/// `char::from_u32` makes a character of exactly the Unicode scalar values.
pub assume_specification[ char::from_u32 ](i: u32) -> (r: Option<char>)
    ensures
        match r {
            Some(c) => c as u32 == i && (i <= 0xd7ff || 0xe000 <= i <= 0x10ffff),
            None => !(i <= 0xd7ff || 0xe000 <= i <= 0x10ffff),
        },
;

/// The characters with code points from `a` to `b`, in order; surrogates are no characters.
pub open spec fn char_range(a: int, b: int) -> Seq<char>
    decreases b - a + 1,
{
    if a > b {
        Seq::empty()
    } else if 0xd800 <= a <= 0xdfff {
        char_range(a + 1, b)
    } else {
        seq![a as char] + char_range(a + 1, b)
    }
}

/// The characters of a named class; none for an unknown name.
pub open spec fn posix_class(name: Seq<char>) -> Seq<char> {
    if name == "upper"@ {
        char_range(0x41, 0x5a)
    } else if name == "lower"@ {
        char_range(0x61, 0x7a)
    } else if name == "digit"@ {
        char_range(0x30, 0x39)
    } else if name == "alpha"@ {
        char_range(0x41, 0x5a) + char_range(0x61, 0x7a)
    } else if name == "alnum"@ {
        char_range(0x30, 0x39) + char_range(0x41, 0x5a) + char_range(0x61, 0x7a)
    } else if name == "space"@ {
        seq![' ', '\t', '\n', '\r', '\x0b', '\x0c']
    } else if name == "blank"@ {
        seq![' ', '\t']
    } else if name == "punct"@ {
        char_range(0x21, 0x2f) + char_range(0x3a, 0x40) + char_range(0x5b, 0x60) + char_range(
            0x7b,
            0x7e,
        )
    } else {
        Seq::empty()
    }
}

/// The position of the first `:` at `i` or later, or the end.
pub open spec fn colon_from(s: Seq<char>, i: int) -> int
    decreases s.len() - i,
{
    if 0 <= i < s.len() && s[i] != ':' {
        colon_from(s, i + 1)
    } else {
        i
    }
}

/// What the character after a backslash stands for.
pub open spec fn unescaped(c: char) -> char {
    if c == 'n' {
        '\n'
    } else if c == 't' {
        '\t'
    } else if c == 'r' {
        '\r'
    } else {
        c
    }
}

/// The characters that the set `s` lists from `i` on: named classes, ranges, escapes and
/// single characters. A `-` that makes no rising range stands for itself.
pub open spec fn expand_set(s: Seq<char>, i: int) -> Seq<char>
    decreases s.len() - i + 2,
    via expand_set_terminates
{
    if i < 0 || i >= s.len() {
        Seq::empty()
    } else if s[i] == '[' && i + 1 < s.len() && s[i + 1] == ':' {
        let e = colon_from(s, i + 2);
        posix_class(s.subrange(i + 2, e)) + expand_set(s, e + 2)
    } else if i + 1 < s.len() && s[i + 1] == '-' {
        if i + 2 < s.len() && s[i] < s[i + 2] {
            char_range(s[i] as int, s[i + 2] as int) + expand_set(s, i + 3)
        } else {
            seq![s[i], '-'] + expand_set(s, i + 2)
        }
    } else if s[i] == '\\' {
        if i + 1 < s.len() {
            seq![unescaped(s[i + 1])] + expand_set(s, i + 2)
        } else {
            seq!['\\']
        }
    } else {
        seq![s[i]] + expand_set(s, i + 1)
    }
}

#[via_fn]
proof fn expand_set_terminates(s: Seq<char>, i: int) {
    if 0 <= i && i + 1 < s.len() {
        lemma_colon_from(s, i + 2);
    }
}

proof fn lemma_colon_from(s: Seq<char>, i: int)
    requires
        0 <= i <= s.len(),
    ensures
        i <= colon_from(s, i) <= s.len(),
    decreases s.len() - i,
{
    if i < s.len() && s[i] != ':' {
        lemma_colon_from(s, i + 1);
    }
}

fn push_range(chars: &mut Vec<char>, a: u32, b: u32)
    requires
        a <= 0x10ffff,
        b <= 0x10ffff,
    ensures
        final(chars)@ == old(chars)@ + char_range(a as int, b as int),
{
    let ghost before = chars@;
    let mut i: u32 = a;
    assert(chars@ + char_range(a as int, b as int) =~= before + char_range(a as int, b as int));
    while i <= b
        invariant
            i <= b + 1 || i == a,
            b <= 0x10ffff,
            a <= 0x10ffff,
            chars@ + char_range(i as int, b as int) == before + char_range(a as int, b as int),
        decreases 0x110000 - i,
    {
        let ghost now = chars@;
        if let Some(c) = char::from_u32(i) {
            chars.push(c);
            proof {
                vstd::utf8::char_u32_cast(c, i);
            }
            assert(c == i as char);
            assert(chars@ + char_range(i + 1, b as int) =~= now + (seq![c] + char_range(
                i + 1,
                b as int,
            )));
        }
        i = i + 1;
    }
    assert(char_range(i as int, b as int) =~= Seq::empty());
    assert(chars@ + Seq::<char>::empty() =~= chars@);
}

fn streaming_tr_expand_posix_class(name: &str, chars: &mut Vec<char>)
    ensures
        final(chars)@ == old(chars)@ + posix_class(name@),
{
    let ghost before = chars@;
    if str_eq(name, "upper") {
        push_range(chars, 0x41, 0x5a);
    } else if str_eq(name, "lower") {
        push_range(chars, 0x61, 0x7a);
    } else if str_eq(name, "digit") {
        push_range(chars, 0x30, 0x39);
    } else if str_eq(name, "alpha") {
        push_range(chars, 0x41, 0x5a);
        push_range(chars, 0x61, 0x7a);
        assert(chars@ =~= before + (char_range(0x41, 0x5a) + char_range(0x61, 0x7a)));
    } else if str_eq(name, "alnum") {
        push_range(chars, 0x30, 0x39);
        push_range(chars, 0x41, 0x5a);
        push_range(chars, 0x61, 0x7a);
        assert(chars@ =~= before + (char_range(0x30, 0x39) + char_range(0x41, 0x5a) + char_range(
            0x61,
            0x7a,
        )));
    } else if str_eq(name, "space") {
        chars.push(' ');
        chars.push('\t');
        chars.push('\n');
        chars.push('\r');
        chars.push('\x0b');
        chars.push('\x0c');
        assert(chars@ =~= before + seq![' ', '\t', '\n', '\r', '\x0b', '\x0c']);
    } else if str_eq(name, "blank") {
        chars.push(' ');
        chars.push('\t');
        assert(chars@ =~= before + seq![' ', '\t']);
    } else if str_eq(name, "punct") {
        push_range(chars, 0x21, 0x2f);
        push_range(chars, 0x3a, 0x40);
        push_range(chars, 0x5b, 0x60);
        push_range(chars, 0x7b, 0x7e);
        assert(chars@ =~= before + posix_class(name@));
    } else {
        assert(chars@ =~= before + Seq::<char>::empty());
    }
}

/// Lists the characters of a set.
pub fn streaming_tr_expand_set(s: &str) -> (r: Vec<char>)
    ensures
        r@ == expand_set(s@, 0),
{
    let chars = chars_of(s);
    let ghost t = s@;
    let n: usize = chars.len();
    let mut out: Vec<char> = Vec::new();
    let mut i: usize = 0;
    assert(out@ + expand_set(t, 0) =~= expand_set(t, 0));
    while i < n
        invariant
            n == t.len(),
            t == s@,
            chars@ == t,
            out@ + expand_set(t, i as int) == expand_set(t, 0),
        decreases n - i,
    {
        let ghost before = out@;
        let ghost at = i as int;
        let c: char = chars[i];
        let left: usize = n - i;
        if c == '[' && left > 1 && chars[i + 1] == ':' {
            let mut e: usize = i + 2;
            while e < n && chars[e] != ':'
                invariant
                    i + 2 <= e <= n,
                    n == t.len(),
                    chars@ == t,
                    colon_from(t, i + 2) == colon_from(t, e as int),
                decreases n - e,
            {
                e = e + 1;
            }
            let name = sub_string(&chars, i + 2, e);
            streaming_tr_expand_posix_class(name.as_str(), &mut out);
            assert(out@ + expand_set(t, e + 2) =~= before + (posix_class(name@) + expand_set(
                t,
                e + 2,
            )));
            if n - e < 2 {
                assert(expand_set(t, e + 2) =~= Seq::empty());
                assert(out@ + expand_set(t, e + 2) =~= out@);
                return out;
            }
            i = e + 2;
        } else if left > 1 && chars[i + 1] == '-' {
            if left > 2 && c < chars[i + 2] {
                let lo: u32 = char_code(c);
                let hi: u32 = char_code(chars[i + 2]);
                push_range(&mut out, lo, hi);
                assert(out@ + expand_set(t, i + 3) =~= before + (char_range(lo as int, hi as int)
                    + expand_set(t, i + 3)));
                i = i + 3;
            } else {
                out.push(c);
                out.push('-');
                assert(out@ + expand_set(t, i + 2) =~= before + (seq![c, '-'] + expand_set(
                    t,
                    i + 2,
                )));
                i = i + 2;
            }
        } else if c == '\\' {
            if left > 1 {
                let d: char = chars[i + 1];
                let u: char = if d == 'n' {
                    '\n'
                } else if d == 't' {
                    '\t'
                } else if d == 'r' {
                    '\r'
                } else {
                    d
                };
                out.push(u);
                assert(out@ + expand_set(t, i + 2) =~= before + (seq![unescaped(d)] + expand_set(
                    t,
                    i + 2,
                )));
                i = i + 2;
            } else {
                out.push('\\');
                assert(out@ =~= before + seq!['\\']);
                return out;
            }
        } else {
            out.push(c);
            assert(out@ + expand_set(t, i + 1) =~= before + (seq![c] + expand_set(t, i + 1)));
            i = i + 1;
        }
    }
    assert(expand_set(t, i as int) =~= Seq::empty());
    assert(out@ + expand_set(t, i as int) =~= out@);
    out
}

} // verus!
